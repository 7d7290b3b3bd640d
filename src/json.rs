//! The JSON text of a document: grid rows one per line, then the color
//! table as an indented object.
use vstd::prelude::*;
use crate::grid::Document;
use crate::text::push_char;

verus! {

/// The decimal digit of a value below 10.
pub open spec fn dec_digit(d: int) -> char {
    (48 + d) as char
}

/// The decimal numeral of `n`, without leading zeros.
pub open spec fn decimal(n: nat) -> Seq<char>
    decreases n,
{
    if n < 10 {
        seq![dec_digit(n as int)]
    } else {
        decimal(n / 10).push(dec_digit((n % 10) as int))
    }
}

/// The numerals of `row` with commas between them.
pub open spec fn join_ids(row: Seq<u32>) -> Seq<char>
    decreases row.len(),
{
    if row.len() == 0 {
        Seq::empty()
    } else if row.len() == 1 {
        decimal(row[0] as nat)
    } else {
        join_ids(row.drop_last()) + seq![','] + decimal(row.last() as nat)
    }
}

/// A compact JSON array of integers.
pub open spec fn row_text(row: Seq<u32>) -> Seq<char> {
    seq!['['] + join_ids(row) + seq![']']
}

/// The JSON string literal of `s`, with the escapes that JSON needs.
pub uninterp spec fn json_quoted(s: Seq<char>) -> Seq<char>;

/// The line of grid row `i`: four spaces, the row, a comma unless it is the
/// last row, and a newline.
pub open spec fn matrix_line(g: Seq<Seq<u32>>, i: int) -> Seq<char> {
    seq![' ', ' ', ' ', ' '] + row_text(g[i]) + (if i + 1 < g.len() { seq![','] } else { Seq::empty() })
        + seq!['\n']
}

/// The lines of the first `k` grid rows.
pub open spec fn matrix_lines(g: Seq<Seq<u32>>, k: int) -> Seq<char>
    decreases k,
{
    if k <= 0 {
        Seq::empty()
    } else {
        matrix_lines(g, k - 1) + matrix_line(g, k - 1)
    }
}

/// One member of the color object: `  "<id>": <hex as a JSON string>`.
pub open spec fn color_member(e: (u32, Seq<char>)) -> Seq<char> {
    seq![' ', ' ', '"'] + decimal(e.0 as nat) + seq!['"', ':', ' '] + json_quoted(e.1)
}

/// The first `k` members of the color object, a comma and a newline between two.
pub open spec fn color_members(t: Seq<(u32, Seq<char>)>, k: int) -> Seq<char>
    decreases k,
{
    if k <= 0 {
        Seq::empty()
    } else if k == 1 {
        color_member(t[0])
    } else {
        color_members(t, k - 1) + seq![',', '\n'] + color_member(t[k - 1])
    }
}

/// The color object: `{}` when empty, else one member per line.
pub open spec fn colors_text(t: Seq<(u32, Seq<char>)>) -> Seq<char> {
    if t.len() == 0 {
        seq!['{', '}']
    } else {
        seq!['{', '\n'] + color_members(t, t.len() as int) + seq!['\n', '}']
    }
}

/// The whole document.
pub open spec fn document_text(g: Seq<Seq<u32>>, t: Seq<(u32, Seq<char>)>) -> Seq<char> {
    "{\n  \"matrix\": [\n"@ + matrix_lines(g, g.len() as int) + "  ],\n  \"colors\": "@ + colors_text(t) + "\n}"@
}

/// Relies on `serde_json::to_string` for a `Vec<u32>`: a compact array of
/// decimal numerals, which cannot fail for integers.
#[verifier::external_body]
fn row_json(row: &Vec<u32>) -> (r: String)
    ensures
        r@ == row_text(row@),
{
    serde_json::to_string(row).unwrap_or_default()
}

/// Relies on `serde_json::to_string` for a `u32`: its decimal numeral.
#[verifier::external_body]
fn id_json(id: u32) -> (r: String)
    ensures
        r@ == decimal(id as nat),
{
    serde_json::to_string(&id).unwrap_or_default()
}

/// Relies on `serde_json::to_string` for a string: the quoted, escaped literal.
#[verifier::external_body]
fn string_json(s: &String) -> (r: String)
    ensures
        r@ == json_quoted(s@),
{
    serde_json::to_string(s).unwrap_or_default()
}

fn push_str(s: &mut String, t: &str)
    ensures
        final(s)@ == old(s)@ + t@,
{
    s.append(t);
}

impl Document {
    /// Renders the document as JSON text.
    pub fn to_json(&self) -> (r: String)
        ensures
            r@ == document_text(self.grid(), self.table()),
    {
        let mut s = String::new();
        push_str(&mut s, "{\n  \"matrix\": [\n");
        let n = self.matrix.len();
        let mut i: usize = 0;
        while i < n
            invariant
                n == self.matrix@.len(),
                i <= n,
                s@ == "{\n  \"matrix\": [\n"@ + matrix_lines(self.grid(), i as int),
            decreases n - i,
        {
            push_str(&mut s, "    ");
            let row = row_json(&self.matrix[i]);
            push_str(&mut s, row.as_str());
            if i + 1 < n {
                push_char(&mut s, ',');
            }
            push_char(&mut s, '\n');
            proof {
                reveal_strlit("    ");
                assert(s@ =~= "{\n  \"matrix\": [\n"@ + matrix_lines(self.grid(), i + 1));
            }
            i = i + 1;
        }
        push_str(&mut s, "  ],\n  \"colors\": ");
        let ghost before = s@;
        let m = self.colors.len();
        if m == 0 {
            push_char(&mut s, '{');
            push_char(&mut s, '}');
            assert(s@ =~= before + colors_text(self.table()));
        } else {
            push_char(&mut s, '{');
            push_char(&mut s, '\n');
            let mut j: usize = 0;
            while j < m
                invariant
                    m == self.colors@.len(),
                    0 < m,
                    j <= m,
                    s@ == before + seq!['{', '\n'] + color_members(self.table(), j as int),
                decreases m - j,
            {
                if j > 0 {
                    push_char(&mut s, ',');
                    push_char(&mut s, '\n');
                }
                push_str(&mut s, "  \"");
                let key = id_json(self.colors[j].0);
                push_str(&mut s, key.as_str());
                push_str(&mut s, "\": ");
                let value = string_json(&self.colors[j].1);
                push_str(&mut s, value.as_str());
                proof {
                    reveal_strlit("  \"");
                    reveal_strlit("\": ");
                    assert(self.table()[j as int] == (self.colors@[j as int].0, self.colors@[j as int].1@));
                    assert(s@ =~= before + seq!['{', '\n'] + color_members(self.table(), j + 1));
                }
                j = j + 1;
            }
            push_char(&mut s, '\n');
            push_char(&mut s, '}');
            assert(s@ =~= before + colors_text(self.table()));
        }
        push_str(&mut s, "\n}");
        s
    }
}

} // verus!
