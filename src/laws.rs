//! Properties of the scan, the table and the reconstruction taken together.
use vstd::prelude::*;
use crate::color::{
    ColorMode, Rgba, canonical, transparent, hex_of, lemma_decode_encode, sample_of_hex,
    well_formed_hex,
};
use crate::grid::{
    Document, blocks_across, block_samples, is_scan_document, scan, lemma_position, lemma_blocks_le,
};
use crate::image::Image;
use crate::rebuild::{last_entry, lookup, all_cells_ok, cell_ok, rebuilt_pixel, cell_color};
use crate::table::{
    TableModel, lemma_key_injective, first_within, initial_table, key_of, resolve_all, resolve_step, table_entries,
};

verus! {

/// The keys that a scan of `s` has met, with the key of transparent black.
pub open spec fn seen_keys(s: Seq<Rgba>, mode: ColorMode) -> Set<u32>
    decreases s.len(),
{
    if s.len() == 0 {
        set![0u32]
    } else {
        seen_keys(s.drop_last(), mode).insert(key_of(canonical(s.last(), mode)))
    }
}

/// What holds of the table and identifiers after resolving `s`.
pub open spec fn scan_inv(t: TableModel, s: Seq<Rgba>, ids: Seq<u32>, mode: ColorMode, tol: u32) -> bool {
    &&& ids.len() == s.len()
    &&& t.exact.dom() == seen_keys(s, mode)
    &&& t.exact.dom().finite()
    &&& t.exact.contains_key(0) && t.exact[0] == 0
    &&& forall|k: u32| #[trigger] t.exact.contains_key(k) && k != 0 ==> 1 <= t.exact[k] <= t.palette.len()
    &&& t.palette.len() <= s.len()
    &&& forall|j: int| 0 <= j < s.len() ==> #[trigger] ids[j] == t.exact[key_of(canonical(s[j], mode))]
    &&& t.zero_used == (exists|j: int| 0 <= j < s.len() && (#[trigger] s[j]).a == 0)
    &&& t.palette.len() + 1 <= t.exact.dom().len()
    &&& tol == 0 ==> t.palette.len() + 1 == t.exact.dom().len()
    &&& forall|i: int| 0 <= i < t.palette.len() ==> (#[trigger] t.palette[i]).a > 0
    &&& tol == 0 ==> forall|k: u32| #[trigger] t.exact.contains_key(k) && k != 0
        ==> key_of(t.palette[t.exact[k] - 1]) == k
}

proof fn lemma_seen_keys(s: Seq<Rgba>, mode: ColorMode, j: int)
    requires
        0 <= j < s.len(),
    ensures
        seen_keys(s, mode).contains(key_of(canonical(s[j], mode))),
    decreases s.len(),
{
    if j < s.len() - 1 {
        lemma_seen_keys(s.drop_last(), mode, j);
        assert(s.drop_last()[j] == s[j]);
    }
}

proof fn lemma_key_zero(c: Rgba)
    ensures
        (key_of(c) == 0) == (c.r == 0 && c.g == 0 && c.b == 0 && c.a == 0),
{
    let (r, g, b, a) = (c.r, c.g, c.b, c.a);
    assert((((r as u32) << 24u32) | ((g as u32) << 16u32) | ((b as u32) << 8u32) | (a as u32) == 0u32)
        == (r == 0 && g == 0 && b == 0 && a == 0)) by (bit_vector);
}

proof fn lemma_first_within_range(p: Seq<Rgba>, c: Rgba, mode: ColorMode, tol: int, i: int)
    requires
        0 <= i,
    ensures
        first_within(p, c, mode, tol, i) matches Some(j) ==> i <= j < p.len(),
    decreases p.len() - i,
{
    if i < p.len() {
        lemma_first_within_range(p, c, mode, tol, i + 1);
    }
}

/// The invariant holds after every prefix of a scan.
pub proof fn lemma_scan_inv(s: Seq<Rgba>, mode: ColorMode, tol: u32)
    requires
        s.len() < u32::MAX,
    ensures
        scan_inv(resolve_all(initial_table(), s, mode, tol).0, s, resolve_all(initial_table(), s, mode, tol).1, mode, tol),
    decreases s.len(),
{
    let (t, ids) = resolve_all(initial_table(), s, mode, tol);
    if s.len() == 0 {
        assert(initial_table().exact.dom() =~= set![0u32]);
        assert(set![0u32].len() == 1) by {
            assert(set![0u32] =~= Set::<u32>::empty().insert(0u32));
        }
    } else {
        let s0 = s.drop_last();
        lemma_scan_inv(s0, mode, tol);
        let (t0, ids0) = resolve_all(initial_table(), s0, mode, tol);
        let c = canonical(s.last(), mode);
        let k = key_of(c);
        lemma_key_zero(c);
        lemma_first_within_range(t0.palette, c, mode, tol as int, 0);
        assert(t.exact.dom() =~= t0.exact.dom().insert(k));
        assert(c.a == 0 ==> c == transparent());
        assert(c.a == 0 <==> s.last().a == 0);
        assert forall|j: int| 0 <= j < s.len() implies #[trigger] ids[j] == t.exact[key_of(canonical(s[j], mode))] by {
            if j < s0.len() {
                assert(s[j] == s0[j]);
                lemma_seen_keys(s0, mode, j);
            }
        }
        assert(t.zero_used == (exists|j: int| 0 <= j < s.len() && (#[trigger] s[j]).a == 0)) by {
            if t0.zero_used {
                let j0 = choose|j: int| 0 <= j < s0.len() && (#[trigger] s0[j]).a == 0;
                assert(s[j0] == s0[j0]);
            }
            if exists|j: int| 0 <= j < s.len() && (#[trigger] s[j]).a == 0 {
                let j1 = choose|j: int| 0 <= j < s.len() && (#[trigger] s[j]).a == 0;
                if j1 < s0.len() {
                    assert(s0[j1] == s[j1]);
                }
            }
        }
        assert forall|i: int| 0 <= i < t.palette.len() implies (#[trigger] t.palette[i]).a > 0 by {
            if i < t0.palette.len() {
                assert(t.palette[i] == t0.palette[i]);
            }
        }
        if tol == 0 {
            assert forall|kk: u32| #[trigger] t.exact.contains_key(kk) && kk != 0
                implies key_of(t.palette[t.exact[kk] - 1]) == kk by {
                if kk != k && t0.exact.contains_key(kk) {
                    assert(t.palette[t0.exact[kk] - 1] == t0.palette[t0.exact[kk] - 1]);
                }
            }
        }
    }
}

proof fn lemma_last_entry_is(t: Seq<(u32, Seq<char>)>, id: u32, k: int, i: int)
    requires
        0 <= i < k <= t.len(),
        t[i].0 == id,
        forall|j: int| i < j < k ==> (#[trigger] t[j]).0 != id,
    ensures
        last_entry(t, id, k) == Some(i),
    decreases k,
{
    if k - 1 > i {
        lemma_last_entry_is(t, id, k - 1, i);
    }
}

/// The table of a scan gives each identifier of the scan its hex string.
proof fn lemma_table_lookup(t: TableModel, mode: ColorMode, id: u32)
    requires
        t.palette.len() < u32::MAX,
        id <= t.palette.len(),
        id == 0 ==> t.zero_used,
    ensures
        lookup(table_entries(t, mode), id) == Some(
            if id == 0 { hex_of(transparent(), mode) } else { hex_of(t.palette[id - 1], mode) },
        ),
{
    let e = table_entries(t, mode);
    let off: int = if t.zero_used { 1 } else { 0 };
    assert forall|j: int| off <= j < e.len() implies (#[trigger] e[j]).0 == j - off + 1 by {}
    if id == 0 {
        assert(e[0].0 == 0);
        lemma_last_entry_is(e, id, e.len() as int, 0);
    } else {
        let i = id - 1 + off;
        assert(e[i].0 == id);
        assert forall|j: int| i < j < e.len() implies (#[trigger] e[j]).0 != id by {}
        lemma_last_entry_is(e, id, e.len() as int, i);
    }
}

/// Cell `(x, y)` of a scan document is identifier `ids[y * cols + x]` of
/// block sample `y * cols + x`, and the table after the scan says what
/// that identifier is.
proof fn lemma_cell(doc: Document, img: Image, size: int, mode: ColorMode, tol: u32, x: int, y: int)
    requires
        size > 0,
        blocks_across(img.width as int, size) * blocks_across(img.height as int, size) < u32::MAX,
        is_scan_document(doc, img, size, mode, tol),
        0 <= y < blocks_across(img.height as int, size),
        0 <= x < blocks_across(img.width as int, size),
    ensures
        ({
            let cols = blocks_across(img.width as int, size);
            let (t, ids) = scan(img, size, mode, tol);
            let smp = block_samples(img, size)[y * cols + x];
            &&& doc.grid()[y][x] == t.exact[key_of(canonical(smp, mode))]
            &&& smp.a == 0 ==> doc.grid()[y][x] == 0
            &&& smp.a != 0 ==> 1 <= doc.grid()[y][x] <= t.palette.len()
            &&& t.palette.len() < u32::MAX
            &&& lookup(doc.table(), doc.grid()[y][x]) == Some(
                if doc.grid()[y][x] == 0 { hex_of(transparent(), mode) }
                else { hex_of(t.palette[doc.grid()[y][x] - 1], mode) })
        }),
{
    let cols = blocks_across(img.width as int, size);
    let rows = blocks_across(img.height as int, size);
    let s = block_samples(img, size);
    let (t, ids) = scan(img, size, mode, tol);
    lemma_position(y, x, cols, rows);
    lemma_scan_inv(s, mode, tol);
    let j = y * cols + x;
    let c = canonical(s[j], mode);
    lemma_key_zero(c);
    lemma_seen_keys(s, mode, j);
    assert(c.a == 0 <==> s[j].a == 0);
    let id = doc.grid()[y][x];
    assert(id == ids[j]);
    if id == 0 {
        assert(s[j].a == 0);
    }
    lemma_table_lookup(t, mode, id);
}

/// Every identifier in the grid of a scan document has an entry in its table.
pub proof fn lemma_grid_ids_in_table(doc: Document, img: Image, size: int, mode: ColorMode, tol: u32)
    requires
        size > 0,
        blocks_across(img.width as int, size) * blocks_across(img.height as int, size) < u32::MAX,
        is_scan_document(doc, img, size, mode, tol),
    ensures
        forall|y: int, x: int| 0 <= y < doc.grid().len() && 0 <= x < doc.grid()[y].len()
            ==> (#[trigger] lookup(doc.table(), doc.grid()[y][x])).is_some(),
{
    assert forall|y: int, x: int| 0 <= y < doc.grid().len() && 0 <= x < doc.grid()[y].len()
        implies (#[trigger] lookup(doc.table(), doc.grid()[y][x])).is_some() by {
        lemma_cell(doc, img, size, mode, tol, x, y);
    }
}

/// A block whose sample has alpha zero gets identifier 0 in the grid.
pub proof fn lemma_transparent_blocks_are_zero(doc: Document, img: Image, size: int, mode: ColorMode, tol: u32)
    requires
        size > 0,
        blocks_across(img.width as int, size) * blocks_across(img.height as int, size) < u32::MAX,
        is_scan_document(doc, img, size, mode, tol),
    ensures
        forall|y: int, x: int| 0 <= y < blocks_across(img.height as int, size)
            && 0 <= x < blocks_across(img.width as int, size)
            && (#[trigger] img.block_sample(x * size, y * size, size)).a == 0 ==> doc.grid()[y][x] == 0,
{
    let cols = blocks_across(img.width as int, size);
    assert forall|y: int, x: int| 0 <= y < blocks_across(img.height as int, size)
        && 0 <= x < cols && (#[trigger] img.block_sample(x * size, y * size, size)).a == 0
        implies doc.grid()[y][x] == 0 by {
        lemma_position(y, x, cols, blocks_across(img.height as int, size));
        lemma_cell(doc, img, size, mode, tol, x, y);
    }
}

/// Resolving a sample with alpha zero yields identifier 0 and leaves the
/// palette and the exact matches as they were.
pub proof fn lemma_transparent_step(t: TableModel, sample: Rgba, mode: ColorMode, tol: u32)
    requires
        t.exact.contains_key(0),
        t.exact[0] == 0,
        sample.a == 0,
    ensures
        resolve_step(t, sample, mode, tol).1 == 0,
        resolve_step(t, sample, mode, tol).0.palette == t.palette,
        resolve_step(t, sample, mode, tol).0.exact == t.exact,
{
    lemma_key_zero(canonical(sample, mode));
}

/// A fuzzy scan never assigns more identifiers than the exact scan of the
/// same samples.
pub proof fn lemma_fuzzy_not_more_ids(s: Seq<Rgba>, mode: ColorMode, tol: u32)
    requires
        s.len() < u32::MAX,
    ensures
        resolve_all(initial_table(), s, mode, tol).0.palette.len()
            <= resolve_all(initial_table(), s, mode, 0).0.palette.len(),
        resolve_all(initial_table(), s, mode, tol).0.zero_used
            == resolve_all(initial_table(), s, mode, 0).0.zero_used,
{
    lemma_scan_inv(s, mode, tol);
    lemma_scan_inv(s, mode, 0);
}

/// A fuzzy scan document has a table no longer than the exact one.
pub proof fn lemma_fuzzy_table_not_longer(d_exact: Document, d_fuzzy: Document, img: Image, size: int, mode: ColorMode, tol: u32)
    requires
        size > 0,
        blocks_across(img.width as int, size) * blocks_across(img.height as int, size) < u32::MAX,
        is_scan_document(d_exact, img, size, mode, 0),
        is_scan_document(d_fuzzy, img, size, mode, tol),
    ensures
        d_fuzzy.table().len() <= d_exact.table().len(),
{
    let cols = blocks_across(img.width as int, size);
    let rows = blocks_across(img.height as int, size);
    lemma_blocks_le(img.width as int, size);
    lemma_blocks_le(img.height as int, size);
    assert(0 <= rows * cols) by (nonlinear_arith) requires 0 <= cols, 0 <= rows;
    assert(block_samples(img, size).len() == rows * cols);
    lemma_fuzzy_not_more_ids(block_samples(img, size), mode, tol);
}

/// A block of one pixel is that pixel, or transparent black where its alpha is zero.
proof fn lemma_single_pixel_block(img: Image, x: int, y: int)
    requires
        0 <= x < img.width,
        0 <= y < img.height,
    ensures
        img.block_sample(x, y, 1) == if img.pixel(x, y).a == 0 { transparent() } else { img.pixel(x, y) },
{
    assert forall|k: int| #[trigger] img.rect_sum(k, x, x + 1, y, y + 1) == crate::image::chan(img.pixel(x, y), k) by {
        assert(img.rect_sum(k, x, x + 1, y, y) == 0);
        assert(img.row_sum(k, y, x, x) == 0);
    }
    let p = img.pixel(x, y);
    assert(img.rect_sum(0, x, x + 1, y, y + 1) / 1 == p.r);
    assert(img.rect_sum(1, x, x + 1, y, y + 1) / 1 == p.g);
    assert(img.rect_sum(2, x, x + 1, y, y + 1) / 1 == p.b);
    assert(img.rect_sum(3, x, x + 1, y, y + 1) / 1 == p.a);
    assert((x + 1 - x) * (y + 1 - y) == 1) by (nonlinear_arith);
}

/// Pixelating with blocks of one pixel, with alpha kept and no tolerance,
/// then rebuilding from the document, gives back every pixel of the image
/// (for images whose pixels of alpha zero are transparent black).
pub proof fn lemma_round_trip(img: Image, doc: Document)
    requires
        img.wf(),
        img.height > 0,
        (img.width as int) * (img.height as int) < u32::MAX,
        forall|x: int, y: int| 0 <= x < img.width && 0 <= y < img.height && (#[trigger] img.pixel(x, y)).a == 0
            ==> img.pixel(x, y) == transparent(),
        is_scan_document(doc, img, 1, ColorMode::Rgba, 0),
    ensures
        doc.grid().len() == img.height,
        doc.grid()[0].len() == img.width,
        all_cells_ok(doc.grid(), doc.table()),
        forall|x: int, y: int| 0 <= x < img.width && 0 <= y < img.height
            ==> #[trigger] rebuilt_pixel(doc.grid(), doc.table(), x, y) == img.pixel(x, y),
{
    let w = img.width as int;
    let h = img.height as int;
    assert(blocks_across(w, 1) == w);
    assert(blocks_across(h, 1) == h);
    assert(h * w < u32::MAX) by (nonlinear_arith) requires w * h < u32::MAX;
    assert forall|y: int, x: int| 0 <= y < doc.grid().len() && 0 <= x < doc.grid()[y].len()
        implies cell_ok(doc.table(), #[trigger] doc.grid()[y][x]) by {
        lemma_round_trip_cell(img, doc, x, y);
    }
    assert forall|x: int, y: int| 0 <= x < w && 0 <= y < h
        implies #[trigger] rebuilt_pixel(doc.grid(), doc.table(), x, y) == img.pixel(x, y) by {
        lemma_round_trip_cell(img, doc, x, y);
    }
}

proof fn lemma_round_trip_cell(img: Image, doc: Document, x: int, y: int)
    requires
        img.wf(),
        (img.width as int) * (img.height as int) < u32::MAX,
        forall|x: int, y: int| 0 <= x < img.width && 0 <= y < img.height && (#[trigger] img.pixel(x, y)).a == 0
            ==> img.pixel(x, y) == transparent(),
        is_scan_document(doc, img, 1, ColorMode::Rgba, 0),
        0 <= x < img.width,
        0 <= y < img.height,
    ensures
        doc.grid()[y].len() == img.width,
        cell_ok(doc.table(), doc.grid()[y][x]),
        cell_color(doc.table(), doc.grid()[y][x]) == img.pixel(x, y),
{
    let w = img.width as int;
    let h = img.height as int;
    assert(blocks_across(w, 1) == w);
    assert(blocks_across(h, 1) == h);
    assert(h * w < u32::MAX) by (nonlinear_arith) requires w * h < u32::MAX;
    let s = block_samples(img, 1);
    let (t, ids) = scan(img, 1, ColorMode::Rgba, 0);
    lemma_scan_inv(s, ColorMode::Rgba, 0);
    lemma_cell(doc, img, 1, ColorMode::Rgba, 0, x, y);
    lemma_position(y, x, w, h);
    let j = y * w + x;
    assert(s[j] == img.block_sample(x, y, 1));
    lemma_single_pixel_block(img, x, y);
    let id = doc.grid()[y][x];
    let c = canonical(s[j], ColorMode::Rgba);
    if id == 0 {
        lemma_decode_encode(transparent(), ColorMode::Rgba);
    } else {
        lemma_key_zero(c);
        lemma_seen_keys(s, ColorMode::Rgba, j);
        lemma_key_injective(t.palette[id - 1], c);
        lemma_decode_encode(c, ColorMode::Rgba);
    }
}

} // verus!
