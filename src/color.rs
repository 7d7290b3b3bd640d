//! RGBA samples, their hex form and the distance between two of them.
use vstd::prelude::*;
use crate::text::push_char;
use crate::GridError;

verus! {

/// One pixel or block sample: four 8-bit channels.
#[derive(Clone, Copy, Debug, PartialEq, Eq, Structural)]
pub struct Rgba {
    pub r: u8,
    pub g: u8,
    pub b: u8,
    pub a: u8,
}

/// Whether hex strings carry the alpha channel (`#rrggbbaa`) or not (`#rrggbb`).
#[derive(Clone, Copy, Debug, PartialEq, Eq, Structural)]
pub enum ColorMode {
    Rgba,
    Rgb,
}

pub open spec fn transparent() -> Rgba {
    Rgba { r: 0, g: 0, b: 0, a: 0 }
}

/// The lowercase hex digit of a value below 16.
pub open spec fn hex_char(n: int) -> char {
    if n < 10 {
        (48 + n) as char
    } else {
        (87 + n) as char
    }
}

/// Two lowercase hex digits of a byte, high nibble first.
pub open spec fn byte_hex(v: u8) -> Seq<char> {
    seq![hex_char(v as int / 16), hex_char(v as int % 16)]
}

/// `#rrggbbaa`, whatever the mode.
pub open spec fn hex8(c: Rgba) -> Seq<char> {
    seq!['#'] + byte_hex(c.r) + byte_hex(c.g) + byte_hex(c.b) + byte_hex(c.a)
}

/// `#rrggbb`.
pub open spec fn hex6(c: Rgba) -> Seq<char> {
    seq!['#'] + byte_hex(c.r) + byte_hex(c.g) + byte_hex(c.b)
}

/// The hex string of a sample in a mode. A sample with alpha zero is written
/// `#00000000` in both modes, so that it never meets an opaque black.
pub open spec fn hex_of(c: Rgba, mode: ColorMode) -> Seq<char> {
    if c.a == 0 {
        hex8(transparent())
    } else {
        match mode {
            ColorMode::Rgba => hex8(c),
            ColorMode::Rgb => hex6(c),
        }
    }
}

/// The value of one hex digit, either case.
pub open spec fn hex_val(c: char) -> Option<int> {
    if '0' <= c && c <= '9' {
        Some(c as int - 48)
    } else if 'a' <= c && c <= 'f' {
        Some(c as int - 87)
    } else if 'A' <= c && c <= 'F' {
        Some(c as int - 55)
    } else {
        None
    }
}

/// Whether the characters from `i` to `j` of `s` are all hex digits.
pub open spec fn all_hex(s: Seq<char>, i: int, j: int) -> bool {
    forall|k: int| i <= k < j ==> (#[trigger] hex_val(s[k])).is_some()
}

/// The byte written by the two hex digits at `i` and `i + 1`.
pub open spec fn byte_at(s: Seq<char>, i: int) -> u8 {
    (hex_val(s[i]).unwrap() * 16 + hex_val(s[i + 1]).unwrap()) as u8
}

/// Whether `s` is `#` followed by six or eight hex digits.
pub open spec fn well_formed_hex(s: Seq<char>) -> bool {
    &&& (s.len() == 9 || s.len() == 7)
    &&& s[0] == '#'
    &&& all_hex(s, 1, s.len() as int)
}

/// The sample that a well-formed hex string writes; six digits mean full alpha.
pub open spec fn sample_of_hex(s: Seq<char>) -> Rgba {
    Rgba {
        r: byte_at(s, 1),
        g: byte_at(s, 3),
        b: byte_at(s, 5),
        a: if s.len() == 9 { byte_at(s, 7) } else { 255 },
    }
}

/// The sample in the form that identifies it: alpha zero is transparent black,
/// and without an alpha channel the alpha of a visible sample is dropped.
pub open spec fn canonical(c: Rgba, mode: ColorMode) -> Rgba {
    if c.a == 0 {
        transparent()
    } else {
        match mode {
            ColorMode::Rgba => c,
            ColorMode::Rgb => Rgba { a: 255, ..c },
        }
    }
}

/// Squared Euclidean distance over the channels of the mode.
pub open spec fn dist_sq(c1: Rgba, c2: Rgba, mode: ColorMode) -> int {
    let dr = c1.r - c2.r;
    let dg = c1.g - c2.g;
    let db = c1.b - c2.b;
    let da = c1.a - c2.a;
    dr * dr + dg * dg + db * db + match mode {
        ColorMode::Rgba => da * da,
        ColorMode::Rgb => 0,
    }
}

fn hex_digit(n: u8) -> (c: char)
    requires
        n < 16,
    ensures
        c == hex_char(n as int),
{
    if n < 10 {
        (48 + n) as char
    } else {
        (87 + n) as char
    }
}

fn push_byte(s: &mut String, v: u8)
    ensures
        final(s)@ == old(s)@ + byte_hex(v),
{
    push_char(s, hex_digit(v / 16));
    push_char(s, hex_digit(v % 16));
    assert(final(s)@ =~= old(s)@ + byte_hex(v));
}

/// Writes a sample as a lowercase hex string of the mode.
pub fn encode_hex(c: Rgba, mode: ColorMode) -> (s: String)
    ensures
        s@ == hex_of(c, mode),
{
    let c = if c.a == 0 { Rgba { r: 0, g: 0, b: 0, a: 0 } } else { c };
    let mut s = String::new();
    push_char(&mut s, '#');
    push_byte(&mut s, c.r);
    push_byte(&mut s, c.g);
    push_byte(&mut s, c.b);
    if c.a == 0 || mode == ColorMode::Rgba {
        push_byte(&mut s, c.a);
    }
    assert(s@ =~= hex_of(c, mode));
    s
}

fn hex_value(c: char) -> (r: Option<u8>)
    ensures
        r.is_some() == hex_val(c).is_some(),
        r.is_some() ==> r.unwrap() as int == hex_val(c).unwrap(),
        r.is_some() ==> r.unwrap() < 16,
{
    if '0' <= c && c <= '9' {
        Some((c as u32 - 48) as u8)
    } else if 'a' <= c && c <= 'f' {
        Some((c as u32 - 87) as u8)
    } else if 'A' <= c && c <= 'F' {
        Some((c as u32 - 55) as u8)
    } else {
        None
    }
}

fn byte_from(s: &str, i: usize) -> (r: Option<u8>)
    requires
        i < 8,
        i + 1 < s@.len(),
    ensures
        r.is_some() == (hex_val(s@[i as int]).is_some() && hex_val(s@[i + 1]).is_some()),
        r.is_some() ==> r.unwrap() == byte_at(s@, i as int),
{
    let hi = hex_value(s.get_char(i));
    let lo = hex_value(s.get_char(i + 1));
    match (hi, lo) {
        (Some(h), Some(l)) => Some(h * 16 + l),
        _ => None,
    }
}

/// Reads `#rrggbbaa`, or `#rrggbb` with full alpha; digits of either case.
pub fn hex_to_rgba(hex: &str) -> (r: Result<Rgba, GridError>)
    ensures
        r.is_ok() == well_formed_hex(hex@),
        r.is_ok() ==> r.unwrap() == sample_of_hex(hex@),
        r.is_err() ==> r == Err::<Rgba, GridError>(GridError::FormatError),
{
    let n = hex.unicode_len();
    if (n != 9 && n != 7) || hex.get_char(0) != '#' {
        return Err(GridError::FormatError);
    }
    let mut i: usize = 1;
    while i < n
        invariant
            1 <= i <= n,
            n == hex@.len(),
            all_hex(hex@, 1, i as int),
        decreases n - i,
    {
        if hex_value(hex.get_char(i)).is_none() {
            return Err(GridError::FormatError);
        }
        i = i + 1;
    }
    let r = byte_from(hex, 1).unwrap();
    let g = byte_from(hex, 3).unwrap();
    let b = byte_from(hex, 5).unwrap();
    let a = if n == 9 { byte_from(hex, 7).unwrap() } else { 255 };
    Ok(Rgba { r, g, b, a })
}

/// Squared Euclidean distance over the channels of the mode.
pub fn color_distance_sq(c1: Rgba, c2: Rgba, mode: ColorMode) -> (d: u32)
    ensures
        d as int == dist_sq(c1, c2, mode),
{
    let dr: i32 = c1.r as i32 - c2.r as i32;
    let dg: i32 = c1.g as i32 - c2.g as i32;
    let db: i32 = c1.b as i32 - c2.b as i32;
    let da: i32 = c1.a as i32 - c2.a as i32;
    assert(dr * dr <= 65025 && dg * dg <= 65025 && db * db <= 65025 && da * da <= 65025)
        by (nonlinear_arith)
        requires
            -255 <= dr <= 255,
            -255 <= dg <= 255,
            -255 <= db <= 255,
            -255 <= da <= 255,
    ;
    assert(dr * dr >= 0 && dg * dg >= 0 && db * db >= 0 && da * da >= 0) by (nonlinear_arith);
    let rgb = (dr * dr + dg * dg + db * db) as u32;
    match mode {
        ColorMode::Rgba => rgb + (da * da) as u32,
        ColorMode::Rgb => rgb,
    }
}

/// A hex digit reads back as the value it was written from.
proof fn lemma_hex_char(n: int)
    requires
        0 <= n < 16,
    ensures
        hex_val(hex_char(n)) == Some(n),
{
}

/// A byte written as two hex digits reads back as itself.
proof fn lemma_byte_hex(s: Seq<char>, i: int, v: u8)
    requires
        0 <= i,
        i + 1 < s.len(),
        s.subrange(i, i + 2) == byte_hex(v),
    ensures
        hex_val(s[i]).is_some(),
        hex_val(s[i + 1]).is_some(),
        byte_at(s, i) == v,
{
    assert(s[i] == s.subrange(i, i + 2)[0]);
    assert(s[i + 1] == s.subrange(i, i + 2)[1]);
    lemma_hex_char(v as int / 16);
    lemma_hex_char(v as int % 16);
}

/// Every hex string of a sample is well formed and reads back as the
/// sample's canonical form.
pub proof fn lemma_decode_encode(c: Rgba, mode: ColorMode)
    ensures
        well_formed_hex(hex_of(c, mode)),
        sample_of_hex(hex_of(c, mode)) == canonical(c, mode),
{
    let d = canonical(c, mode);
    let s = hex_of(c, mode);
    assert(s.subrange(1, 3) =~= byte_hex(d.r));
    assert(s.subrange(3, 5) =~= byte_hex(d.g));
    assert(s.subrange(5, 7) =~= byte_hex(d.b));
    lemma_byte_hex(s, 1, d.r);
    lemma_byte_hex(s, 3, d.g);
    lemma_byte_hex(s, 5, d.b);
    if s.len() == 9 {
        assert(s.subrange(7, 9) =~= byte_hex(d.a));
        lemma_byte_hex(s, 7, d.a);
    }
    assert(all_hex(s, 1, s.len() as int)) by {
        assert forall|k: int| 1 <= k < s.len() implies (#[trigger] hex_val(s[k])).is_some() by {
            if k % 2 == 1 {
                lemma_byte_hex(s, k, if k == 1 { d.r } else if k == 3 { d.g } else if k == 5 { d.b } else { d.a });
            } else {
                lemma_byte_hex(s, k - 1, if k == 2 { d.r } else if k == 4 { d.g } else if k == 6 { d.b } else { d.a });
            }
        }
    }
}

} // verus!
