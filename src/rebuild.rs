//! The reconstructor: rebuilds an image from a grid and its color table.
use vstd::prelude::*;
use std::collections::HashMap;
use crate::GridError;
use crate::color::{Rgba, hex_to_rgba, sample_of_hex, transparent, well_formed_hex};
use crate::grid::Document;
use crate::image::Image;

verus! {

broadcast use vstd::std_specs::hash::group_hash_axioms;

/// The index of the last of the first `k` entries that has identifier `id`.
pub open spec fn last_entry(t: Seq<(u32, Seq<char>)>, id: u32, k: int) -> Option<int>
    decreases k,
{
    if k <= 0 {
        None
    } else if t[k - 1].0 == id {
        Some(k - 1)
    } else {
        last_entry(t, id, k - 1)
    }
}

/// The hex string that the table gives an identifier; a later entry wins.
pub open spec fn lookup(t: Seq<(u32, Seq<char>)>, id: u32) -> Option<Seq<char>> {
    match last_entry(t, id, t.len() as int) {
        Some(i) => Some(t[i].1),
        None => None,
    }
}

/// A cell can be drawn: its identifier is absent, or its hex string is well formed.
pub open spec fn cell_ok(t: Seq<(u32, Seq<char>)>, id: u32) -> bool {
    match lookup(t, id) {
        Some(h) => well_formed_hex(h),
        None => true,
    }
}

/// The color of a cell; an identifier absent from the table is transparent black.
pub open spec fn cell_color(t: Seq<(u32, Seq<char>)>, id: u32) -> Rgba {
    match lookup(t, id) {
        Some(h) => sample_of_hex(h),
        None => transparent(),
    }
}

/// Every cell of the grid can be drawn.
pub open spec fn all_cells_ok(g: Seq<Seq<u32>>, t: Seq<(u32, Seq<char>)>) -> bool {
    forall|y: int, x: int| 0 <= y < g.len() && 0 <= x < g[y].len() ==> cell_ok(t, #[trigger] g[y][x])
}

/// The pixel at `(x, y)` of the rebuilt image: the cell's color, or
/// transparent black where a row is shorter than the first.
pub open spec fn rebuilt_pixel(g: Seq<Seq<u32>>, t: Seq<(u32, Seq<char>)>, x: int, y: int) -> Rgba {
    if x < g[y].len() {
        cell_color(t, g[y][x])
    } else {
        transparent()
    }
}

proof fn lemma_last_entry(t: Seq<(u32, Seq<char>)>, id: u32, k: int)
    requires
        k <= t.len(),
    ensures
        last_entry(t, id, k) matches Some(i) ==> 0 <= i < k && t[i].0 == id,
    decreases k,
{
    if k > 0 {
        lemma_last_entry(t, id, k - 1);
    }
}

/// Maps each identifier of the table to the index of its last entry.
fn index_table(colors: &Vec<(u32, String)>, t: Ghost<Seq<(u32, Seq<char>)>>) -> (m: HashMap<u32, usize>)
    requires
        t@ == colors@.map_values(|e: (u32, String)| (e.0, e.1@)),
    ensures
        forall|id: u32| #[trigger] m@.contains_key(id) == last_entry(t@, id, t@.len() as int).is_some(),
        forall|id: u32| m@.contains_key(id) ==> #[trigger] m@[id] == last_entry(t@, id, t@.len() as int).unwrap(),
{
    let mut m: HashMap<u32, usize> = HashMap::new();
    let mut k: usize = 0;
    while k < colors.len()
        invariant
            k <= colors@.len(),
            t@.len() == colors@.len(),
            t@ == colors@.map_values(|e: (u32, String)| (e.0, e.1@)),
            forall|id: u32| #[trigger] m@.contains_key(id) == last_entry(t@, id, k as int).is_some(),
            forall|id: u32| m@.contains_key(id) ==> #[trigger] m@[id] == last_entry(t@, id, k as int).unwrap(),
        decreases colors@.len() - k,
    {
        m.insert(colors[k].0, k);
        k = k + 1;
    }
    m
}

/// Rebuilds an image from a document: as many rows as the grid, as wide as
/// its first row. Fails on an empty grid and on a cell whose identifier maps
/// to a malformed hex string.
pub fn reconstruct(doc: &Document) -> (r: Result<Image, GridError>)
    requires
        doc.matrix@.len() <= u32::MAX,
        doc.matrix@.len() > 0 ==> doc.matrix@[0]@.len() <= u32::MAX
            && doc.matrix@.len() * doc.matrix@[0]@.len() <= usize::MAX,
    ensures
        r.is_err() <==> (doc.grid().len() == 0 || !all_cells_ok(doc.grid(), doc.table())),
        r.is_err() ==> r == Err::<Image, GridError>(GridError::FormatError),
        r.is_ok() ==> {
            let img = r.unwrap();
            &&& img.wf()
            &&& img.height == doc.grid().len()
            &&& img.width == doc.grid()[0].len()
            &&& forall|x: int, y: int| 0 <= x < img.width && 0 <= y < img.height ==>
                #[trigger] img.pixel(x, y) == rebuilt_pixel(doc.grid(), doc.table(), x, y)
        },
{
    let ghost g = doc.grid();
    let ghost t = doc.table();
    if doc.matrix.len() == 0 {
        return Err(GridError::FormatError);
    }
    let height = doc.matrix.len() as u32;
    let width = doc.matrix[0].len() as u32;
    let index = index_table(&doc.colors, Ghost(t));
    proof {
        assert(g[0] == doc.matrix@[0]@);
        assert(width as int * height as int == doc.matrix@.len() * doc.matrix@[0]@.len()) by (nonlinear_arith)
            requires width == doc.matrix@[0]@.len(), height == doc.matrix@.len();
    }
    let mut img = Image::blank(width, height);
    proof {
        assert forall|xx: int, yy: int| 0 <= xx < width && 0 <= yy < height implies
            #[trigger] img.pixel(xx, yy) == transparent() by {
            crate::image::lemma_index_in_bounds(xx, yy, width as int, height as int);
        }
    }
    let mut y: u32 = 0;
    while y < height
        invariant
            g == doc.grid(),
            t == doc.table(),
            height == g.len(),
            width == g[0].len(),
            img.wf(),
            img.width == width,
            img.height == height,
            y <= height,
            forall|id: u32| #[trigger] index@.contains_key(id) == last_entry(t, id, t.len() as int).is_some(),
            forall|id: u32| index@.contains_key(id) ==> #[trigger] index@[id] == last_entry(t, id, t.len() as int).unwrap(),
            forall|yy: int, x: int| 0 <= yy < y && 0 <= x < g[yy].len() ==> cell_ok(t, #[trigger] g[yy][x]),
            forall|xx: int, yy: int| 0 <= xx < width && 0 <= yy < height ==> #[trigger] img.pixel(xx, yy)
                == if yy < y { rebuilt_pixel(g, t, xx, yy) } else { transparent() },
        decreases height - y,
    {
        let row = &doc.matrix[y as usize];
        let mut x: usize = 0;
        while x < row.len()
            invariant
                g == doc.grid(),
                t == doc.table(),
                height == g.len(),
                width == g[0].len(),
                row@ == g[y as int],
                img.wf(),
                img.width == width,
                img.height == height,
                y < height,
                x <= row@.len(),
                forall|id: u32| #[trigger] index@.contains_key(id) == last_entry(t, id, t.len() as int).is_some(),
                forall|id: u32| index@.contains_key(id) ==> #[trigger] index@[id] == last_entry(t, id, t.len() as int).unwrap(),
                forall|yy: int, xx: int| 0 <= yy < y && 0 <= xx < g[yy].len() ==> cell_ok(t, #[trigger] g[yy][xx]),
                forall|xx: int| 0 <= xx < x ==> cell_ok(t, #[trigger] g[y as int][xx]),
                forall|xx: int, yy: int| 0 <= xx < width && 0 <= yy < height ==> #[trigger] img.pixel(xx, yy)
                    == if yy < y || (yy == y && xx < x) { rebuilt_pixel(g, t, xx, yy) } else { transparent() },
            decreases row@.len() - x,
        {
            let id = row[x];
            proof {
                lemma_last_entry(t, id, t.len() as int);
                assert(g[y as int] == doc.matrix@[y as int]@);
            }
            let mut color = Rgba { r: 0, g: 0, b: 0, a: 0 };
            match index.get(&id) {
                Some(i) => {
                    proof {
                        assert(t[*i as int] == (doc.colors@[*i as int].0, doc.colors@[*i as int].1@));
                    }
                    match hex_to_rgba(doc.colors[*i].1.as_str()) {
                        Ok(c) => {
                            color = c;
                        }
                        Err(_) => {
                            proof {
                                assert(!cell_ok(t, g[y as int][x as int]));
                            }
                            return Err(GridError::FormatError);
                        }
                    }
                }
                None => {}
            }
            proof {
                assert(color == cell_color(t, id));
            }
            if (x as u64) < (width as u64) {
                img.set_pixel(x as u32, y, color);
            }
            x = x + 1;
        }
        y = y + 1;
    }
    Ok(img)
}

/// The identifiers of the grid's cells, in row-major order, that the table
/// lacks; each such cell is drawn transparent.
pub fn missing_color_ids(doc: &Document) -> (r: Vec<u32>)
    ensures
        forall|i: int| 0 <= i < r@.len() ==> lookup(doc.table(), #[trigger] r@[i]).is_none(),
        forall|y: int, x: int| 0 <= y < doc.grid().len() && 0 <= x < doc.grid()[y].len()
            && lookup(doc.table(), #[trigger] doc.grid()[y][x]).is_none() ==> r@.contains(doc.grid()[y][x]),
{
    let ghost g = doc.grid();
    let ghost t = doc.table();
    let index = index_table(&doc.colors, Ghost(t));
    let mut r: Vec<u32> = Vec::new();
    let mut y: usize = 0;
    while y < doc.matrix.len()
        invariant
            g == doc.grid(),
            t == doc.table(),
            y <= g.len(),
            forall|id: u32| #[trigger] index@.contains_key(id) == last_entry(t, id, t.len() as int).is_some(),
            forall|i: int| 0 <= i < r@.len() ==> lookup(t, #[trigger] r@[i]).is_none(),
            forall|yy: int, x: int| 0 <= yy < y && 0 <= x < g[yy].len()
                && lookup(t, #[trigger] g[yy][x]).is_none() ==> r@.contains(g[yy][x]),
        decreases g.len() - y,
    {
        let row = &doc.matrix[y];
        proof { assert(row@ == g[y as int]); }
        let mut x: usize = 0;
        while x < row.len()
            invariant
                g == doc.grid(),
                t == doc.table(),
                y < g.len(),
                row@ == g[y as int],
                x <= row@.len(),
                forall|id: u32| #[trigger] index@.contains_key(id) == last_entry(t, id, t.len() as int).is_some(),
                forall|i: int| 0 <= i < r@.len() ==> lookup(t, #[trigger] r@[i]).is_none(),
                forall|yy: int, xx: int| 0 <= yy < y && 0 <= xx < g[yy].len()
                    && lookup(t, #[trigger] g[yy][xx]).is_none() ==> r@.contains(g[yy][xx]),
                forall|xx: int| 0 <= xx < x && lookup(t, #[trigger] g[y as int][xx]).is_none()
                    ==> r@.contains(g[y as int][xx]),
            decreases row@.len() - x,
        {
            let id = row[x];
            if index.get(&id).is_none() {
                let ghost r0 = r@;
                r.push(id);
                proof {
                    assert(r@[r@.len() - 1] == g[y as int][x as int]);
                    assert forall|yy: int, xx: int| 0 <= yy < y && 0 <= xx < g[yy].len()
                        && lookup(t, #[trigger] g[yy][xx]).is_none() implies r@.contains(g[yy][xx]) by {
                        assert(r0.contains(g[yy][xx]));
                        let i = choose|i: int| 0 <= i < r0.len() && r0[i] == g[yy][xx];
                        assert(r@[i] == g[yy][xx]);
                    }
                    assert forall|xx: int| 0 <= xx <= x && lookup(t, #[trigger] g[y as int][xx]).is_none()
                        implies r@.contains(g[y as int][xx]) by {
                        if xx < x {
                            assert(r0.contains(g[y as int][xx]));
                            let i = choose|i: int| 0 <= i < r0.len() && r0[i] == g[y as int][xx];
                            assert(r@[i] == g[y as int][xx]);
                        } else {
                            assert(r@[r@.len() - 1] == g[y as int][xx]);
                        }
                    }
                }
            }
            x = x + 1;
        }
        y = y + 1;
    }
    r
}

} // verus!
