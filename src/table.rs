//! The color table: assigns identifiers to block samples in first-seen
//! order, with an exact lookup and an optional fuzzy scan of the palette.
use vstd::prelude::*;
use std::collections::HashMap;
use crate::color::{
    Rgba, ColorMode, canonical, dist_sq, hex_of, transparent, color_distance_sq, encode_hex,
};

verus! {

broadcast use vstd::std_specs::hash::group_hash_axioms;

/// The integer key of a sample: its four channels packed big-end first.
pub open spec fn key_of(c: Rgba) -> u32 {
    ((c.r as u32) << 24u32) | ((c.g as u32) << 16u32) | ((c.b as u32) << 8u32) | (c.a as u32)
}

fn pack(c: Rgba) -> (k: u32)
    ensures
        k == key_of(c),
{
    ((c.r as u32) << 24u32) | ((c.g as u32) << 16u32) | ((c.b as u32) << 8u32) | (c.a as u32)
}

/// Two samples with one key are the same sample.
pub proof fn lemma_key_injective(c1: Rgba, c2: Rgba)
    requires
        key_of(c1) == key_of(c2),
    ensures
        c1 == c2,
{
    let (r1, g1, b1, a1) = (c1.r, c1.g, c1.b, c1.a);
    let (r2, g2, b2, a2) = (c2.r, c2.g, c2.b, c2.a);
    assert(r1 == r2 && g1 == g2 && b1 == b2 && a1 == a2) by (bit_vector)
        requires
            ((r1 as u32) << 24u32) | ((g1 as u32) << 16u32) | ((b1 as u32) << 8u32) | (a1 as u32)
                == ((r2 as u32) << 24u32) | ((g2 as u32) << 16u32) | ((b2 as u32) << 8u32) | (a2 as u32),
    ;
}

/// The state of a table: exact matches by key, the palette (identifier
/// `i + 1` stands for `palette[i]`), and whether identifier 0 was handed out.
pub struct TableModel {
    pub exact: Map<u32, u32>,
    pub palette: Seq<Rgba>,
    pub zero_used: bool,
}

/// The table before any sample: only transparent black is known, as 0.
pub open spec fn initial_table() -> TableModel {
    TableModel { exact: map![0u32 => 0u32], palette: Seq::empty(), zero_used: false }
}

/// The index of the first palette entry from `i` on within `tol` (squared) of `c`.
pub open spec fn first_within(p: Seq<Rgba>, c: Rgba, mode: ColorMode, tol: int, i: int) -> Option<int>
    decreases p.len() - i,
{
    if i < 0 || i >= p.len() {
        None
    } else if dist_sq(c, p[i], mode) <= tol {
        Some(i)
    } else {
        first_within(p, c, mode, tol, i + 1)
    }
}

/// The identifier of one sample, and the table after it: an exact match,
/// else (with a positive tolerance and a visible sample) the first palette
/// entry within the tolerance, else a new identifier.
pub open spec fn resolve_step(t: TableModel, sample: Rgba, mode: ColorMode, tol: u32) -> (TableModel, u32) {
    let c = canonical(sample, mode);
    let k = key_of(c);
    if t.exact.contains_key(k) {
        let id = t.exact[k];
        (TableModel { zero_used: t.zero_used || id == 0, ..t }, id)
    } else if tol > 0 && c.a > 0 && first_within(t.palette, c, mode, tol as int, 0).is_some() {
        let id = (first_within(t.palette, c, mode, tol as int, 0).unwrap() + 1) as u32;
        (TableModel { exact: t.exact.insert(k, id), ..t }, id)
    } else {
        let id = (t.palette.len() + 1) as u32;
        (TableModel { exact: t.exact.insert(k, id), palette: t.palette.push(c), ..t }, id)
    }
}

/// The identifiers of a sequence of samples, resolved in order.
pub open spec fn resolve_all(t: TableModel, samples: Seq<Rgba>, mode: ColorMode, tol: u32) -> (TableModel, Seq<u32>)
    decreases samples.len(),
{
    if samples.len() == 0 {
        (t, Seq::empty())
    } else {
        let (t1, ids) = resolve_all(t, samples.drop_last(), mode, tol);
        let (t2, id) = resolve_step(t1, samples.last(), mode, tol);
        (t2, ids.push(id))
    }
}

/// The lookup table of a finished scan: 0 first if it was handed out, then
/// each palette entry under its identifier.
pub open spec fn table_entries(t: TableModel, mode: ColorMode) -> Seq<(u32, Seq<char>)> {
    let rest = Seq::new(t.palette.len(), |i: int| (((i + 1) as u32), hex_of(t.palette[i], mode)));
    if t.zero_used {
        seq![(0u32, hex_of(transparent(), mode))] + rest
    } else {
        rest
    }
}

/// A table under construction.
pub struct ColorTable {
    exact: HashMap<u32, u32>,
    palette: Vec<Rgba>,
    zero_used: bool,
}

impl View for ColorTable {
    type V = TableModel;

    closed spec fn view(&self) -> TableModel {
        TableModel { exact: self.exact@, palette: self.palette@, zero_used: self.zero_used }
    }
}

impl ColorTable {
    pub fn new() -> (t: ColorTable)
        ensures
            t@ == initial_table(),
    {
        let mut exact: HashMap<u32, u32> = HashMap::new();
        exact.insert(0, 0);
        let t = ColorTable { exact, palette: Vec::new(), zero_used: false };
        assert(t@.exact =~= initial_table().exact);
        t
    }

    fn fuzzy_find(&self, c: Rgba, mode: ColorMode, tol: u32) -> (r: Option<u32>)
        requires
            self.palette@.len() < u32::MAX,
        ensures
            r == match first_within(self.palette@, c, mode, tol as int, 0) {
                Some(i) => Some((i + 1) as u32),
                None => None::<u32>,
            },
    {
        let mut i: usize = 0;
        while i < self.palette.len()
            invariant
                i <= self.palette@.len() < u32::MAX,
                first_within(self.palette@, c, mode, tol as int, 0)
                    == first_within(self.palette@, c, mode, tol as int, i as int),
            decreases self.palette@.len() - i,
        {
            if color_distance_sq(c, self.palette[i], mode) <= tol {
                return Some((i + 1) as u32);
            }
            i = i + 1;
        }
        None
    }

    /// Resolves one block sample to its identifier.
    pub fn resolve(&mut self, sample: Rgba, mode: ColorMode, tol: u32) -> (id: u32)
        requires
            old(self)@.palette.len() + 1 < u32::MAX,
        ensures
            (final(self)@, id) == resolve_step(old(self)@, sample, mode, tol),
    {
        let c = if sample.a == 0 {
            Rgba { r: 0, g: 0, b: 0, a: 0 }
        } else if mode == ColorMode::Rgb {
            Rgba { a: 255, ..sample }
        } else {
            sample
        };
        let k = pack(c);
        match self.exact.get(&k) {
            Some(id) => {
                let id = *id;
                if id == 0 {
                    self.zero_used = true;
                }
                return id;
            }
            None => {}
        }
        if tol > 0 && c.a > 0 {
            match self.fuzzy_find(c, mode, tol) {
                Some(id) => {
                    self.exact.insert(k, id);
                    return id;
                }
                None => {}
            }
        }
        let id = (self.palette.len() + 1) as u32;
        self.exact.insert(k, id);
        self.palette.push(c);
        id
    }

    /// The lookup table from identifiers to hex strings.
    pub fn entries(&self, mode: ColorMode) -> (r: Vec<(u32, String)>)
        requires
            self@.palette.len() < u32::MAX,
        ensures
            r@.len() == table_entries(self@, mode).len(),
            forall|i: int| 0 <= i < r@.len() ==> (#[trigger] r@[i]).0 == table_entries(self@, mode)[i].0
                && r@[i].1@ == table_entries(self@, mode)[i].1,
    {
        let mut r: Vec<(u32, String)> = Vec::new();
        if self.zero_used {
            r.push((0, encode_hex(Rgba { r: 0, g: 0, b: 0, a: 0 }, mode)));
        }
        let ghost base = r@.len();
        let mut i: usize = 0;
        while i < self.palette.len()
            invariant
                i <= self.palette@.len() < u32::MAX,
                base == (if self@.zero_used { 1int } else { 0 }),
                r@.len() == base + i,
                forall|j: int| 0 <= j < r@.len() ==> (#[trigger] r@[j]).0 == table_entries(self@, mode)[j].0
                    && r@[j].1@ == table_entries(self@, mode)[j].1,
            decreases self.palette@.len() - i,
        {
            r.push(((i + 1) as u32, encode_hex(self.palette[i], mode)));
            i = i + 1;
        }
        r
    }
}

} // verus!
