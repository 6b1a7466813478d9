//! The line grammars of the supported configuration files.
//!
//! Each module reads a text as lines (see [`crate::text::split_lines`]),
//! rewrites the colour literal of each line that its grammar recognises and
//! joins the lines again, so the output has as many lines as the input and
//! every character outside a rewritten literal stays where it was. Word
//! characters, digits and letter case are read as ASCII; white space is
//! Unicode's.
pub mod alacritty;
pub mod kitty;
pub mod termite;
pub mod x;
pub mod xterm;

use crate::color::{
    alpha_text, decimal, digit_char, hex_byte, hex_char, hex_text, point_digits, rgba_text, zeros,
    RGBA,
};
use crate::text::{
    extend_range, is_digit, is_word, join_lines, lemma_split_join, lemma_split_lines, one_line,
    split_lines,
};
use vstd::prelude::*;

verus! {

/// Where a recognised line holds its key and its colour literal.
pub struct LineMatch {
    pub key_start: int,
    pub key_end: int,
    pub value_start: int,
    pub value_end: int,
}

/// `l` with the stretch `[lo, hi)` replaced by `new`.
pub open spec fn splice(l: Seq<char>, lo: int, hi: int, new: Seq<char>) -> Seq<char> {
    l.take(lo) + new + l.skip(hi)
}

/// The key of a recognised line.
pub open spec fn key_of(l: Seq<char>, m: LineMatch) -> Seq<char> {
    l.subrange(m.key_start, m.key_end)
}

/// The colour literal of a recognised line.
pub open spec fn value_of(l: Seq<char>, m: LineMatch) -> Seq<char> {
    l.subrange(m.value_start, m.value_end)
}

/// The `#rrggbb` form of the colour if there is one, else `old`.
pub open spec fn hex_or(c: Option<RGBA>, old: Seq<char>) -> Seq<char> {
    match c {
        Some(c) => hex_text(c),
        None => old,
    }
}

/// The text made of the lines of `t`, each passed through `f`.
pub open spec fn map_lines(t: Seq<char>, f: spec_fn(Seq<char>) -> Seq<char>) -> Seq<char> {
    join_lines(split_lines(t).map_values(f))
}

/// `f` keeps a line a line, and applied twice gives what it gives once.
pub open spec fn settles(f: spec_fn(Seq<char>) -> Seq<char>) -> bool {
    forall|l: Seq<char>| one_line(l) ==> one_line(#[trigger] f(l)) && f(f(l)) == f(l)
}

/// Where `f` keeps lines lines, the lines of the output are the lines of
/// the input, each passed through `f`.
pub proof fn lemma_map_lines(t: Seq<char>, f: spec_fn(Seq<char>) -> Seq<char>)
    requires
        forall|l: Seq<char>| one_line(l) ==> one_line(#[trigger] f(l)),
    ensures
        split_lines(map_lines(t, f)) == split_lines(t).map_values(f),
{
    lemma_split_lines(t);
    let ls = split_lines(t).map_values(f);
    assert forall|i: int| 0 <= i < ls.len() implies one_line(#[trigger] ls[i]) by {
        assert(one_line(split_lines(t)[i]));
    }
    lemma_split_join(ls);
}

/// A line map that settles gives a text map that settles.
pub proof fn lemma_map_lines_settles(t: Seq<char>, f: spec_fn(Seq<char>) -> Seq<char>)
    requires
        settles(f),
    ensures
        map_lines(map_lines(t, f), f) == map_lines(t, f),
{
    lemma_map_lines(t, f);
    lemma_split_lines(t);
    let ls = split_lines(t);
    assert(ls.map_values(f).map_values(f) =~= ls.map_values(f)) by {
        assert forall|i: int| 0 <= i < ls.len() implies #[trigger] f(f(ls[i])) == f(ls[i]) by {
            assert(one_line(ls[i]));
        }
    }
}

/// The hexadecimal form of a colour is `#` and six word characters, on one
/// line.
pub proof fn lemma_hex_text_shape(c: RGBA)
    ensures
        hex_text(c).len() == 7,
        hex_text(c)[0] == '#',
        forall|j: int| 1 <= j < 7 ==> is_word(#[trigger] hex_text(c)[j]),
        one_line(hex_text(c)),
{
    assert forall|n: nat| n < 16 implies is_word(#[trigger] hex_char(n)) && hex_char(n) != '\n' by {
    }
    assert(hex_byte(c.0).len() == 2);
    let t = hex_text(c);
    assert(t[1] == hex_char(c.0 as nat / 16) && t[2] == hex_char(c.0 as nat % 16));
    assert(t[3] == hex_char(c.1 as nat / 16) && t[4] == hex_char(c.1 as nat % 16));
    assert(t[5] == hex_char(c.2 as nat / 16) && t[6] == hex_char(c.2 as nat % 16));
}

/// `c` may stand inside the functional form of a colour.
pub open spec fn in_rgba(c: char) -> bool {
    is_digit(c) || c == '.' || c == '-' || c == ','
}

/// The decimal digits of a number are digits, one at least.
pub proof fn lemma_decimal_digits(n: nat)
    ensures
        decimal(n).len() >= 1,
        forall|j: int| 0 <= j < decimal(n).len() ==> is_digit(#[trigger] decimal(n)[j]),
    decreases n,
{
    assert(forall|m: nat| is_digit(#[trigger] digit_char(m)));
    if n >= 10 {
        lemma_decimal_digits(n / 10);
    }
}

/// The functional form of a colour is `rgba(`, digits, `,`, `.` and `-`,
/// and a closing `)`, on one line.
pub proof fn lemma_rgba_text_shape(c: RGBA)
    ensures
        rgba_text(c).len() >= 6,
        rgba_text(c).take(5) == seq!['r', 'g', 'b', 'a', '('],
        forall|j: int| 5 <= j < rgba_text(c).len() - 1 ==> in_rgba(#[trigger] rgba_text(c)[j]),
        rgba_text(c).last() == ')',
        one_line(rgba_text(c)),
{
    lemma_decimal_digits(c.0 as nat);
    lemma_decimal_digits(c.1 as nat);
    lemma_decimal_digits(c.2 as nat);
    let d = decimal(c.3.mantissa as nat);
    lemma_decimal_digits(c.3.mantissa as nat);
    let p = point_digits(d, c.3.scale as nat);
    assert(forall|j: int| 0 <= j < p.len() ==> in_rgba(#[trigger] p[j])) by {
        assert(forall|j: int| 0 <= j < zeros((c.3.scale - d.len()) as nat).len() ==> #[trigger] zeros((c.3.scale - d.len()) as nat)[j] == '0');
    }
    assert(forall|j: int| 0 <= j < alpha_text(c.3).len() ==> in_rgba(#[trigger] alpha_text(c.3)[j]));
    let t = rgba_text(c);
    assert(t.take(5) =~= seq!['r', 'g', 'b', 'a', '(']);
    assert(forall|j: int| 5 <= j < t.len() - 1 ==> in_rgba(#[trigger] t[j]));
}

/// `l[lo..hi]`, copied.
pub fn copy_range(l: &Vec<char>, lo: usize, hi: usize) -> (r: Vec<char>)
    requires
        lo <= hi <= l@.len(),
    ensures
        r@ == l@.subrange(lo as int, hi as int),
{
    let mut r: Vec<char> = Vec::new();
    extend_range(&mut r, l, lo, hi);
    r
}

/// `l` with `[lo, hi)` replaced by `new`, as [`splice`] says.
pub fn splice_exec(l: &Vec<char>, lo: usize, hi: usize, new: &Vec<char>) -> (r: Vec<char>)
    requires
        lo <= hi <= l@.len(),
    ensures
        r@ == splice(l@, lo as int, hi as int, new@),
{
    let mut r: Vec<char> = Vec::new();
    extend_range(&mut r, l, 0, lo);
    extend_range(&mut r, new, 0, new.len());
    extend_range(&mut r, l, hi, l.len());
    assert(l@.subrange(0, lo as int) == l@.take(lo as int));
    assert(new@.subrange(0, new@.len() as int) == new@);
    assert(l@.subrange(hi as int, l@.len() as int) == l@.skip(hi as int));
    r
}

/// The `#rrggbb` form of the theme's colour for `role`, else `l[lo..hi]`.
pub fn hex_or_exec(theme: &crate::theme::Theme, role: &String, l: &Vec<char>, lo: usize, hi: usize) -> (r: Vec<char>)
    requires
        lo <= hi <= l@.len(),
    ensures
        r@ == hex_or(theme.color_of(role@), l@.subrange(lo as int, hi as int)),
{
    match theme.get(role) {
        Some(c) => crate::text::chars_of(c.to_hex().as_str()),
        None => copy_range(l, lo, hi),
    }
}

} // verus!
