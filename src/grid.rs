//! The grid builder: runs the block reducer over an image in row-major
//! block order and resolves each block to a color identifier.
use vstd::prelude::*;
use crate::color::{ColorMode, Rgba};
use crate::GridError;
use crate::image::Image;
use crate::table::{ColorTable, TableModel, initial_table, resolve_all, table_entries};

verus! {

/// The output document: a grid of identifiers and the table of their colors.
#[derive(Clone, Debug)]
pub struct Document {
    pub matrix: Vec<Vec<u32>>,
    pub colors: Vec<(u32, String)>,
}

impl Document {
    pub open spec fn grid(&self) -> Seq<Seq<u32>> {
        self.matrix@.map_values(|row: Vec<u32>| row@)
    }

    pub open spec fn table(&self) -> Seq<(u32, Seq<char>)> {
        self.colors@.map_values(|e: (u32, String)| (e.0, e.1@))
    }
}

/// How many blocks of `size` cover `n` pixels.
pub open spec fn blocks_across(n: int, size: int) -> int {
    (n + size - 1) / size
}

/// The block samples of an image in row-major block order.
pub open spec fn block_samples(img: Image, size: int) -> Seq<Rgba> {
    let cols = blocks_across(img.width as int, size);
    let rows = blocks_across(img.height as int, size);
    Seq::new((rows * cols) as nat, |i: int| img.block_sample((i % cols) * size, (i / cols) * size, size))
}

/// The table and the identifiers of a whole scan.
pub open spec fn scan(img: Image, size: int, mode: ColorMode, tol: u32) -> (TableModel, Seq<u32>) {
    resolve_all(initial_table(), block_samples(img, size), mode, tol)
}

/// The document that a scan yields: `rows` rows of `cols` identifiers taken
/// in order from the scan, and the table's entries.
pub open spec fn is_scan_document(doc: Document, img: Image, size: int, mode: ColorMode, tol: u32) -> bool {
    let cols = blocks_across(img.width as int, size);
    let rows = blocks_across(img.height as int, size);
    let (t, ids) = scan(img, size, mode, tol);
    &&& doc.grid().len() == rows
    &&& forall|y: int| 0 <= y < rows ==> (#[trigger] doc.grid()[y]).len() == cols
    &&& forall|y: int, x: int| 0 <= y < rows && 0 <= x < cols ==> #[trigger] doc.grid()[y][x] == ids[y * cols + x]
    &&& doc.table() == table_entries(t, mode)
}

/// A block index below the block count starts inside the image.
proof fn lemma_block_start(b: int, n: int, s: int)
    requires
        0 <= b < blocks_across(n, s),
        0 < s,
        0 <= n,
    ensures
        0 <= b * s < n,
        b * s + s <= n + s - 1,
{
    let q = blocks_across(n, s);
    vstd::arithmetic::div_mod::lemma_fundamental_div_mod(n + s - 1, s);
    vstd::arithmetic::div_mod::lemma_mod_bound(n + s - 1, s);
    assert(b * s + s <= q * s) by (nonlinear_arith) requires b + 1 <= q, 0 < s;
    assert(0 <= b * s) by (nonlinear_arith) requires 0 <= b, 0 < s;
}

/// There are no more blocks than pixels.
pub(crate) proof fn lemma_blocks_le(n: int, s: int)
    requires
        0 <= n,
        0 < s,
    ensures
        0 <= blocks_across(n, s) <= n,
{
    if n == 0 {
        vstd::arithmetic::div_mod::lemma_basic_div(s - 1, s);
    } else {
        assert(n + s - 1 <= s * n) by (nonlinear_arith) requires 1 <= n, 1 <= s;
        vstd::arithmetic::div_mod::lemma_div_is_ordered(n + s - 1, s * n, s);
        vstd::arithmetic::div_mod::lemma_div_multiples_vanish(n, s);
        vstd::arithmetic::div_mod::lemma_div_pos_is_pos(n + s - 1, s);
    }
}

/// Row-major position arithmetic.
pub(crate) proof fn lemma_position(y: int, x: int, cols: int, rows: int)
    requires
        0 <= y < rows,
        0 <= x < cols,
    ensures
        0 <= y * cols + x < rows * cols,
        (y * cols + x) % cols == x,
        (y * cols + x) / cols == y,
        y * cols + x + 1 <= rows * cols,
{
    assert(y * cols + x < rows * cols) by (nonlinear_arith) requires 0 <= y < rows, 0 <= x < cols;
    assert(0 <= y * cols) by (nonlinear_arith) requires 0 <= y, 0 <= x < cols;
    vstd::arithmetic::div_mod::lemma_fundamental_div_mod_converse(y * cols + x, cols, y, x);
}

/// Pixelates an image: one identifier per block of `block_size` pixels
/// square, clamped at the right and bottom edges. Squared distances up to
/// `tol` count as the same color; 0 turns fuzzy matching off.
pub fn pixelate(img: &Image, block_size: u32, mode: ColorMode, tol: u32) -> (r: Result<Document, GridError>)
    requires
        img.wf(),
        blocks_across(img.width as int, block_size as int) * blocks_across(img.height as int, block_size as int)
            < u32::MAX,
    ensures
        block_size == 0 <==> r.is_err(),
        r.is_err() ==> r == Err::<Document, GridError>(GridError::InvalidArgument),
        r.is_ok() ==> is_scan_document(r.unwrap(), *img, block_size as int, mode, tol),
{
    if block_size == 0 {
        return Err(GridError::InvalidArgument);
    }
    let ghost size = block_size as int;
    proof {
        lemma_blocks_le(img.width as int, size);
        lemma_blocks_le(img.height as int, size);
    }
    let cols: u32 = ((img.width as u64 + block_size as u64 - 1) / block_size as u64) as u32;
    let rows: u32 = ((img.height as u64 + block_size as u64 - 1) / block_size as u64) as u32;
    let ghost samples = block_samples(*img, size);
    proof {
        assert(cols as int == blocks_across(img.width as int, size));
        assert(rows as int == blocks_across(img.height as int, size));
        assert(0 <= cols as int * rows as int) by (nonlinear_arith) requires 0 <= cols, 0 <= rows;
    }
    let mut table = ColorTable::new();
    let mut matrix: Vec<Vec<u32>> = Vec::new();
    let ghost mut ids: Seq<u32> = Seq::empty();
    assert(samples.take(0) =~= Seq::<Rgba>::empty());
    let mut by: u32 = 0;
    while by < rows
        invariant
            img.wf(),
            block_size > 0,
            size == block_size,
            cols == blocks_across(img.width as int, size),
            rows == blocks_across(img.height as int, size),
            (rows as int) * (cols as int) < u32::MAX,
            samples == block_samples(*img, size),
            samples.len() == rows * cols,
            by <= rows,
            ids.len() == by * cols,
            (table@, ids) == resolve_all(initial_table(), samples.take(by * cols), mode, tol),
            table@.palette.len() <= by * cols,
            matrix@.len() == by,
            forall|y: int| 0 <= y < by ==> (#[trigger] matrix@[y])@.len() == cols,
            forall|y: int, x: int| 0 <= y < by && 0 <= x < cols ==> #[trigger] matrix@[y]@[x] == ids[y * cols + x],
        decreases rows - by,
    {
        proof { lemma_block_start(by as int, img.height as int, size); }
        let y: u32 = by * block_size;
        let mut row: Vec<u32> = Vec::new();
        let mut bx: u32 = 0;
        while bx < cols
            invariant
                img.wf(),
                block_size > 0,
                size == block_size,
                cols == blocks_across(img.width as int, size),
                rows == blocks_across(img.height as int, size),
                (rows as int) * (cols as int) < u32::MAX,
                samples == block_samples(*img, size),
                samples.len() == rows * cols,
                by < rows,
                y == by * size,
                y < img.height,
                bx <= cols,
                ids.len() == by * cols + bx,
                (table@, ids) == resolve_all(initial_table(), samples.take(by * cols + bx), mode, tol),
                table@.palette.len() <= by * cols + bx,
                matrix@.len() == by,
                forall|yy: int| 0 <= yy < by ==> (#[trigger] matrix@[yy])@.len() == cols,
                forall|yy: int, x: int| 0 <= yy < by && 0 <= x < cols ==> #[trigger] matrix@[yy]@[x] == ids[yy * cols + x],
                row@.len() == bx,
                forall|x: int| 0 <= x < bx ==> #[trigger] row@[x] == ids[by * cols + x],
            decreases cols - bx,
        {
            proof {
                lemma_block_start(bx as int, img.width as int, size);
                lemma_position(by as int, bx as int, cols as int, rows as int);
            }
            let x: u32 = bx * block_size;
            let sample = img.block_average(x, y, block_size);
            let ghost n = by * cols + bx;
            proof {
                assert(samples[n] == sample);
                assert(samples.take(n + 1).drop_last() =~= samples.take(n));
                assert(samples.take(n + 1).last() == samples[n]);
            }
            let id = table.resolve(sample, mode, tol);
            proof {
                let old_ids = ids;
                ids = ids.push(id);
                assert forall|yy: int, x: int| 0 <= yy < by && 0 <= x < cols implies
                    #[trigger] matrix@[yy]@[x] == ids[yy * cols + x] by {
                    lemma_position(yy, x, cols as int, by as int);
                    assert(ids[yy * cols + x] == old_ids[yy * cols + x]);
                }
            }
            row.push(id);
            bx = bx + 1;
        }
        matrix.push(row);
        by = by + 1;
        proof {
            assert(by * cols == (by - 1) * cols + cols) by (nonlinear_arith);
        }
    }
    proof {
        assert(samples.take(rows * cols) =~= samples);
    }
    let colors = table.entries(mode);
    let doc = Document { matrix, colors };
    proof {
        assert(doc.table() =~= table_entries(table@, mode));
    }
    Ok(doc)
}

/// Map mode: one identifier per pixel, hex strings without alpha.
pub fn map_pixels(img: &Image, tol: u32) -> (doc: Document)
    requires
        img.wf(),
        (img.width as int) * (img.height as int) < u32::MAX,
    ensures
        is_scan_document(doc, *img, 1, ColorMode::Rgb, tol),
{
    assert(blocks_across(img.width as int, 1) == img.width);
    assert(blocks_across(img.height as int, 1) == img.height);
    assert((img.width as int) * (img.height as int) == (img.height as int) * (img.width as int)) by (nonlinear_arith);
    match pixelate(img, 1, ColorMode::Rgb, tol) {
        Ok(doc) => doc,
        Err(_) => Document { matrix: Vec::new(), colors: Vec::new() },
    }
}

} // verus!
