//! A raster image held as plain samples, and the averaging of one block.
use vstd::prelude::*;
use crate::color::{Rgba, transparent};

verus! {

/// A raster image: `pixels` holds the rows one after the other.
#[derive(Clone, Debug)]
pub struct Image {
    pub width: u32,
    pub height: u32,
    pub pixels: Vec<Rgba>,
}

/// Channel `k` of a sample: red, green, blue, then alpha.
pub open spec fn chan(p: Rgba, k: int) -> int {
    if k == 0 {
        p.r as int
    } else if k == 1 {
        p.g as int
    } else if k == 2 {
        p.b as int
    } else {
        p.a as int
    }
}

impl Image {
    /// The pixel count matches the dimensions.
    pub open spec fn wf(&self) -> bool {
        self.pixels@.len() == self.width as int * self.height as int
    }

    pub open spec fn pixel(&self, x: int, y: int) -> Rgba {
        self.pixels@[y * self.width as int + x]
    }

    /// Sum of channel `k` over the pixels `x0 <= x < x1` of row `y`.
    pub open spec fn row_sum(&self, k: int, y: int, x0: int, x1: int) -> int
        decreases x1 - x0,
    {
        if x1 <= x0 {
            0
        } else {
            self.row_sum(k, y, x0, x1 - 1) + chan(self.pixel(x1 - 1, y), k)
        }
    }

    /// Sum of channel `k` over the rectangle `x0 <= x < x1`, `y0 <= y < y1`.
    pub open spec fn rect_sum(&self, k: int, x0: int, x1: int, y0: int, y1: int) -> int
        decreases y1 - y0,
    {
        if y1 <= y0 {
            0
        } else {
            self.rect_sum(k, x0, x1, y0, y1 - 1) + self.row_sum(k, y1 - 1, x0, x1)
        }
    }

    /// The averaged sample of the block whose top-left pixel is `(x, y)`,
    /// clamped to the image. Means truncate; an alpha mean of zero gives
    /// transparent black.
    pub open spec fn block_sample(&self, x: int, y: int, size: int) -> Rgba {
        let x1 = if x + size < self.width { x + size } else { self.width as int };
        let y1 = if y + size < self.height { y + size } else { self.height as int };
        let n = (x1 - x) * (y1 - y);
        let a = self.rect_sum(3, x, x1, y, y1) / n;
        if a == 0 {
            transparent()
        } else {
            Rgba {
                r: (self.rect_sum(0, x, x1, y, y1) / n) as u8,
                g: (self.rect_sum(1, x, x1, y, y1) / n) as u8,
                b: (self.rect_sum(2, x, x1, y, y1) / n) as u8,
                a: a as u8,
            }
        }
    }

    /// An image of the given size whose pixels are all transparent black.
    pub fn blank(width: u32, height: u32) -> (img: Image)
        requires
            width as int * height as int <= usize::MAX,
        ensures
            img.wf(),
            img.width == width,
            img.height == height,
            forall|i: int| 0 <= i < img.pixels@.len() ==> img.pixels@[i] == transparent(),
    {
        let n = width as usize * height as usize;
        let mut pixels: Vec<Rgba> = Vec::new();
        let mut i: usize = 0;
        while i < n
            invariant
                i <= n,
                pixels@.len() == i,
                forall|j: int| 0 <= j < i ==> pixels@[j] == transparent(),
            decreases n - i,
        {
            pixels.push(Rgba { r: 0, g: 0, b: 0, a: 0 });
            i = i + 1;
        }
        Image { width, height, pixels }
    }

    /// The averaged sample of the block whose top-left pixel is `(x, y)`.
    pub fn block_average(&self, x: u32, y: u32, size: u32) -> (p: Rgba)
        requires
            self.wf(),
            x < self.width,
            y < self.height,
            size > 0,
        ensures
            p == self.block_sample(x as int, y as int, size as int),
    {
        let x1: u32 = if (x as u64 + size as u64) < self.width as u64 { x + size } else { self.width };
        let y1: u32 = if (y as u64 + size as u64) < self.height as u64 { y + size } else { self.height };
        let ghost wx = x1 - x;
        let ghost wy = y1 - y;
        let mut rs: u128 = 0;
        let mut gs: u128 = 0;
        let mut bs: u128 = 0;
        let mut a_s: u128 = 0;
        let mut yy: u32 = y;
        while yy < y1
            invariant
                self.wf(),
                x < x1 <= self.width,
                y <= yy <= y1 <= self.height,
                rs == self.rect_sum(0, x as int, x1 as int, y as int, yy as int),
                gs == self.rect_sum(1, x as int, x1 as int, y as int, yy as int),
                bs == self.rect_sum(2, x as int, x1 as int, y as int, yy as int),
                a_s == self.rect_sum(3, x as int, x1 as int, y as int, yy as int),
            decreases y1 - yy,
        {
            let mut xx: u32 = x;
            while xx < x1
                invariant
                    self.wf(),
                    x <= xx <= x1 <= self.width,
                    y <= yy < y1 <= self.height,
                    rs == self.rect_sum(0, x as int, x1 as int, y as int, yy as int) + self.row_sum(0, yy as int, x as int, xx as int),
                    gs == self.rect_sum(1, x as int, x1 as int, y as int, yy as int) + self.row_sum(1, yy as int, x as int, xx as int),
                    bs == self.rect_sum(2, x as int, x1 as int, y as int, yy as int) + self.row_sum(2, yy as int, x as int, xx as int),
                    a_s == self.rect_sum(3, x as int, x1 as int, y as int, yy as int) + self.row_sum(3, yy as int, x as int, xx as int),
                decreases x1 - xx,
            {
                let p = self.get_pixel(xx, yy);
                proof {
                    assert forall|k: int| 0 <= k < 4 implies
                        self.rect_sum(k, x as int, x1 as int, y as int, yy as int) + self.row_sum(k, yy as int, x as int, xx + 1)
                            <= 255 * (self.width as int * self.height as int) by {
                        lemma_rect_sum_bounds(self, k, x as int, x1 as int, y as int, yy as int + 1);
                        lemma_row_sum_bounds(self, k, yy as int, x as int, xx + 1);
                        lemma_row_sum_bounds(self, k, yy as int, xx + 1, x1 as int);
                        lemma_row_sum_split(self, k, yy as int, x as int, xx + 1, x1 as int);
                        assert((x1 - x) * (yy + 1 - y) <= self.width as int * self.height as int) by (nonlinear_arith)
                            requires x1 <= self.width, yy < self.height, x < x1, y <= yy;
                    }
                    assert(self.width as int * self.height as int <= 0xffff_ffff_ffff_ffff) by (nonlinear_arith)
                        requires self.width <= 0xffff_ffff, self.height <= 0xffff_ffff;
                }
                rs = rs + p.r as u128;
                gs = gs + p.g as u128;
                bs = bs + p.b as u128;
                a_s = a_s + p.a as u128;
                xx = xx + 1;
            }
            yy = yy + 1;
        }
        proof {
            assert(wx * wy <= 0xffff_ffff_ffff_ffff) by (nonlinear_arith)
                requires 0 < wx <= 0xffff_ffff, 0 < wy <= 0xffff_ffff;
        }
        let n: u128 = (x1 - x) as u128 * (y1 - y) as u128;
        proof {
            assert(0 < wx * wy) by (nonlinear_arith) requires wx > 0, wy > 0;
            assert forall|k: int| 0 <= k < 4 implies
                0 <= #[trigger] self.rect_sum(k, x as int, x1 as int, y as int, y1 as int) / (wx * wy) <= 255 by {
                lemma_rect_sum_bounds(self, k, x as int, x1 as int, y as int, y1 as int);
                lemma_mean_fits(self.rect_sum(k, x as int, x1 as int, y as int, y1 as int), wx * wy);
            }
        }
        let a = (a_s / n) as u8;
        if a == 0 {
            Rgba { r: 0, g: 0, b: 0, a: 0 }
        } else {
            Rgba { r: (rs / n) as u8, g: (gs / n) as u8, b: (bs / n) as u8, a }
        }
    }

    /// Overwrites the pixel at `(x, y)`.
    pub fn set_pixel(&mut self, x: u32, y: u32, p: Rgba)
        requires
            old(self).wf(),
            x < old(self).width,
            y < old(self).height,
        ensures
            final(self).wf(),
            final(self).width == old(self).width,
            final(self).height == old(self).height,
            forall|xx: int, yy: int| 0 <= xx < final(self).width && 0 <= yy < final(self).height ==>
                #[trigger] final(self).pixel(xx, yy) == if xx == x && yy == y { p } else { old(self).pixel(xx, yy) },
    {
        let n = self.pixels.len();
        proof { lemma_index_in_bounds(x as int, y as int, self.width as int, self.height as int); }
        let i = y as usize * self.width as usize + x as usize;
        self.pixels.set(i, p);
        proof {
            assert forall|xx: int, yy: int| 0 <= xx < self.width && 0 <= yy < self.height implies
                #[trigger] self.pixel(xx, yy) == if xx == x && yy == y { p } else { old(self).pixel(xx, yy) } by {
                lemma_index_in_bounds(xx, yy, self.width as int, self.height as int);
                if !(xx == x && yy == y) {
                    if yy * self.width + xx == i {
                        lemma_index_unique(xx, yy, x as int, y as int, self.width as int);
                    }
                }
            }
        }
    }

    pub fn get_pixel(&self, x: u32, y: u32) -> (p: Rgba)
        requires
            self.wf(),
            x < self.width,
            y < self.height,
        ensures
            p == self.pixel(x as int, y as int),
    {
        let n = self.pixels.len();
        proof { lemma_index_in_bounds(x as int, y as int, self.width as int, self.height as int); }
        self.pixels[y as usize * self.width as usize + x as usize]
    }
}

/// A row sum lies between zero and 255 per pixel.
proof fn lemma_row_sum_bounds(img: &Image, k: int, y: int, x0: int, x1: int)
    requires
        x0 <= x1,
    ensures
        0 <= img.row_sum(k, y, x0, x1) <= 255 * (x1 - x0),
    decreases x1 - x0,
{
    if x1 > x0 {
        lemma_row_sum_bounds(img, k, y, x0, x1 - 1);
    }
}

/// A row sum splits at any column between its ends.
proof fn lemma_row_sum_split(img: &Image, k: int, y: int, x0: int, xm: int, x1: int)
    requires
        x0 <= xm <= x1,
    ensures
        img.row_sum(k, y, x0, x1) == img.row_sum(k, y, x0, xm) + img.row_sum(k, y, xm, x1),
    decreases x1 - xm,
{
    if x1 > xm {
        lemma_row_sum_split(img, k, y, x0, xm, x1 - 1);
    }
}

/// A rectangle sum lies between zero and 255 per pixel.
proof fn lemma_rect_sum_bounds(img: &Image, k: int, x0: int, x1: int, y0: int, y1: int)
    requires
        x0 <= x1,
        y0 <= y1,
    ensures
        0 <= img.rect_sum(k, x0, x1, y0, y1) <= 255 * ((x1 - x0) * (y1 - y0)),
    decreases y1 - y0,
{
    if y1 > y0 {
        lemma_rect_sum_bounds(img, k, x0, x1, y0, y1 - 1);
        lemma_row_sum_bounds(img, k, y1 - 1, x0, x1);
        assert((x1 - x0) * (y1 - y0) == (x1 - x0) * (y1 - 1 - y0) + (x1 - x0)) by (nonlinear_arith);
    }
}

/// A mean of values at most 255 is at most 255.
proof fn lemma_mean_fits(s: int, n: int)
    requires
        0 <= s <= 255 * n,
        0 < n,
    ensures
        0 <= s / n <= 255,
{
    vstd::arithmetic::div_mod::lemma_div_is_ordered(s, 255 * n, n);
    vstd::arithmetic::div_mod::lemma_div_multiples_vanish(255, n);
    vstd::arithmetic::div_mod::lemma_div_pos_is_pos(s, n);
}

/// Distinct positions of a row-major image have distinct indices.
pub proof fn lemma_index_unique(x1: int, y1: int, x2: int, y2: int, w: int)
    requires
        0 <= x1 < w,
        0 <= x2 < w,
        0 <= y1,
        0 <= y2,
        y1 * w + x1 == y2 * w + x2,
    ensures
        x1 == x2 && y1 == y2,
{
    vstd::arithmetic::div_mod::lemma_fundamental_div_mod_converse(y1 * w + x1, w, y1, x1);
    vstd::arithmetic::div_mod::lemma_fundamental_div_mod_converse(y2 * w + x2, w, y2, x2);
}

/// A position inside a row-major image has an index inside its pixels.
pub proof fn lemma_index_in_bounds(x: int, y: int, w: int, h: int)
    requires
        0 <= x < w,
        0 <= y < h,
    ensures
        0 <= y * w,
        0 <= y * w + x < w * h,
{
    assert(y * w + x < w * h) by (nonlinear_arith)
        requires 0 <= x < w, 0 <= y < h;
    assert(0 <= y * w) by (nonlinear_arith)
        requires 0 <= x < w, 0 <= y < h;
}

} // verus!
