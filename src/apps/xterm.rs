//! XTerm resource files: `XTerm*key: #rrggbb` lines.
//!
//! A colour line is: `XTerm*` in any case, a key (`color` and digits,
//! `foreground` or `background`, in any case), `:`, white space, and `#`
//! with six word characters; anything may follow. Lines of other resource
//! names are not colour lines. The key, as written, is the theme role; the
//! literal becomes the role's `#rrggbb` form, and the line opens with
//! `XTerm*` written in that case.
use super::{
    copy_range, hex_or, hex_or_exec, key_of, lemma_hex_text_shape, lemma_map_lines,
    lemma_map_lines_settles, map_lines, settles, value_of, LineMatch,
};
use crate::text::{
    chars_of, extend_range, fold, in_lexicon, in_lexicon_exec, join_of, lemma_run_agree,
    lemma_run_bound, lines_of, lit_at, lit_at_exec, numbered, numbered_exec, one_line, run,
    run_end, split_lines, string_of, views, words_at, words_at_exec, CharClass,
};
use crate::theme::{AppError, Theme};
use vstd::prelude::*;

verus! {

/// The keys besides `color` and digits.
pub open spec fn color_keys() -> Seq<Seq<char>> {
    seq!["foreground"@, "background"@]
}

fn color_keys_exec() -> (r: Vec<Vec<char>>)
    ensures
        views(r@) == color_keys(),
{
    let r = vec![chars_of("foreground"), chars_of("background")];
    assert(views(r@) =~= color_keys());
    r
}

/// Where line `l` holds its key and literal, if it is a colour line.
pub open spec fn color_line(l: Seq<char>) -> Option<LineMatch> {
    let b = 6 + run(l, 6, CharClass::Word) as int;
    let v = b + 1 + run(l, b + 1, CharClass::Space);
    let key = l.subrange(6, b);
    if lit_at(l, 0, "xterm*"@, true) && (numbered(key, true) || in_lexicon(key, color_keys(), true))
        && b < l.len() && l[b] == ':' && v < l.len() && l[v] == '#' && words_at(l, v + 1, 6) {
        Some(LineMatch { key_start: 6, key_end: b, value_start: v, value_end: v + 7 })
    } else {
        None
    }
}

/// Line `l` opened by `XTerm*` and with its literal set to the theme's
/// colour for its key.
pub open spec fn converted_line(theme: Theme, l: Seq<char>) -> Seq<char> {
    match color_line(l) {
        Some(m) => "XTerm*"@ + l.subrange(6, m.value_start) + hex_or(
            theme.color_of(key_of(l, m)),
            value_of(l, m),
        ) + l.skip(m.value_end),
        None => l,
    }
}

/// [`converted_line`] as a map on lines.
pub open spec fn line_map(theme: Theme) -> spec_fn(Seq<char>) -> Seq<char> {
    |l: Seq<char>| converted_line(theme, l)
}

/// The text `t` with each line converted.
pub open spec fn converted(theme: Theme, t: Seq<char>) -> Seq<char> {
    map_lines(t, line_map(theme))
}

fn convert_line(theme: &Theme, l: &Vec<char>, keys: &Vec<Vec<char>>) -> (r: Vec<char>)
    requires
        views(keys@) == color_keys(),
    ensures
        r@ == converted_line(*theme, l@),
{
    if !lit_at_exec(l, 0, "xterm*", true) {
        return copy_range(l, 0, l.len());
    }
    proof {
        reveal_strlit("xterm*");
    }
    let b = run_end(l, 6, CharClass::Word);
    if !(numbered_exec(l, 6, b, true) || in_lexicon_exec(l, 6, b, keys, true)) || b >= l.len()
        || l[b] != ':' {
        return copy_range(l, 0, l.len());
    }
    let v = run_end(l, b + 1, CharClass::Space);
    if v >= l.len() || l[v] != '#' || !words_at_exec(l, v + 1, 6) {
        return copy_range(l, 0, l.len());
    }
    let role = string_of(&copy_range(l, 6, b));
    let new = hex_or_exec(theme, &role, l, v, v + 7);
    let mut r = chars_of("XTerm*");
    extend_range(&mut r, l, 6, v);
    extend_range(&mut r, &new, 0, new.len());
    extend_range(&mut r, l, v + 7, l.len());
    assert(new@.subrange(0, new@.len() as int) == new@);
    assert(l@.subrange(v + 7, l@.len() as int) == l@.skip(v + 7));
    r
}

/// Sets the colour literal of each colour line of `app_config` to the
/// theme's colour for its key; a key the theme lacks keeps its literal.
pub fn convert_colors(theme: &Theme, app_config: &str) -> (r: Result<String, AppError>)
    ensures
        r matches Ok(s) && s@ == converted(*theme, app_config@),
{
    let text = chars_of(app_config);
    let lines = lines_of(&text);
    let keys = color_keys_exec();
    let mut out: Vec<Vec<char>> = Vec::new();
    for i in 0..lines.len()
        invariant
            out@.len() == i,
            views(keys@) == color_keys(),
            forall|j: int| 0 <= j < i ==> (#[trigger] out@[j])@ == converted_line(*theme, lines@[j]@),
    {
        out.push(convert_line(theme, &lines[i], &keys));
    }
    assert(views(out@) =~= split_lines(text@).map_values(line_map(*theme)));
    Ok(join_of(&out))
}

/// `XTerm*` reads as `xterm*` in any case.
proof fn lemma_prefix()
    ensures
        "XTerm*"@.len() == 6,
        lit_at("XTerm*"@, 0, "xterm*"@, true),
{
    reveal_strlit("XTerm*");
    reveal_strlit("xterm*");
    assert(fold("XTerm*"@.subrange(0, 6), true) =~= "xterm*"@);
}

/// A converted line is recognised as before, with the same key and a
/// literal where it was.
proof fn lemma_reconverted(theme: Theme, l: Seq<char>)
    requires
        color_line(l) is Some,
    ensures
        color_line(converted_line(theme, l)) == color_line(l),
{
    let m = color_line(l)->0;
    let out = converted_line(theme, l);
    let (b, v) = (m.key_end, m.value_start);
    let new = hex_or(theme.color_of(key_of(l, m)), value_of(l, m));
    if let Some(c) = theme.color_of(key_of(l, m)) {
        lemma_hex_text_shape(c);
    }
    lemma_prefix();
    reveal_strlit("xterm*");
    assert(new.len() == 7 && new[0] == '#');
    assert(out.subrange(0, 6) =~= "XTerm*"@);
    assert("XTerm*"@.subrange(0, 6) =~= "XTerm*"@);
    assert(lit_at(out, 0, "xterm*"@, true));
    assert(forall|j: int| 6 <= j < v + 1 ==> out[j] == l[j]);
    lemma_run_bound(l, 6, CharClass::Word);
    lemma_run_bound(l, b + 1, CharClass::Space);
    lemma_run_agree(l, out, 6, CharClass::Word, 6, v + 1);
    lemma_run_agree(l, out, b + 1, CharClass::Space, 6, v + 1);
    assert(out.subrange(6, b) == l.subrange(6, b));
    assert(forall|j: int| 1 <= j < 7 ==> out[v + j] == new[j]);
}

/// Converting a line keeps it one line, and converting it again changes
/// nothing.
proof fn lemma_settles(theme: Theme)
    ensures
        settles(line_map(theme)),
{
    assert forall|l: Seq<char>| one_line(l) implies one_line(#[trigger] line_map(theme)(l))
        && line_map(theme)(line_map(theme)(l)) == line_map(theme)(l) by {
        if let Some(m) = color_line(l) {
            let new = hex_or(theme.color_of(key_of(l, m)), value_of(l, m));
            if let Some(c) = theme.color_of(key_of(l, m)) {
                lemma_hex_text_shape(c);
            }
            lemma_reconverted(theme, l);
            lemma_prefix();
            let out = converted_line(theme, l);
            assert(key_of(out, m) == key_of(l, m));
            assert(value_of(out, m) == new);
            assert(out.subrange(6, m.value_start) == l.subrange(6, m.value_start));
            assert(out.skip(m.value_end) == l.skip(m.value_end));
            assert(one_line(out)) by {
                reveal_strlit("XTerm*");
            }
        }
    }
}

/// Converting a second time with the same theme changes nothing.
pub proof fn lemma_idempotent(theme: Theme, t: Seq<char>)
    ensures
        converted(theme, converted(theme, t)) == converted(theme, t),
{
    lemma_settles(theme);
    lemma_map_lines_settles(t, line_map(theme));
}

/// The output has as many lines as the input, and each line that is not a
/// colour line comes out as it went in.
pub proof fn lemma_other_lines_kept(theme: Theme, t: Seq<char>)
    ensures
        split_lines(converted(theme, t)).len() == split_lines(t).len(),
        forall|i: int|
            0 <= i < split_lines(t).len() && color_line(#[trigger] split_lines(t)[i]) is None
                ==> split_lines(converted(theme, t))[i] == split_lines(t)[i],
{
    lemma_settles(theme);
    lemma_map_lines(t, line_map(theme));
}

/// Each line is converted on its own: a colour line whose key the theme
/// lacks keeps its literal and all that follows the `XTerm*` that opens it,
/// and every other line comes out as [`converted_line`] says.
pub proof fn lemma_missing_role_kept(theme: Theme, t: Seq<char>)
    ensures
        forall|i: int|
            0 <= i < split_lines(t).len() ==> #[trigger] split_lines(converted(theme, t))[i]
                == converted_line(theme, split_lines(t)[i]),
        forall|i: int|
            0 <= i < split_lines(t).len() && (color_line(#[trigger] split_lines(t)[i]) matches Some(
                m,
            ) && theme.color_of(key_of(split_lines(t)[i], m)) is None) ==> split_lines(
                converted(theme, t),
            )[i] == "XTerm*"@ + split_lines(t)[i].skip(6),
{
    lemma_settles(theme);
    lemma_map_lines(t, line_map(theme));
    assert forall|i: int|
        0 <= i < split_lines(t).len() && (color_line(#[trigger] split_lines(t)[i]) matches Some(m)
            && theme.color_of(key_of(split_lines(t)[i], m)) is None) implies split_lines(
        converted(theme, t),
    )[i] == "XTerm*"@ + split_lines(t)[i].skip(6) by {
        let l = split_lines(t)[i];
        let m = color_line(l)->0;
        reveal_strlit("xterm*");
        assert(l.subrange(6, m.value_start) + value_of(l, m) + l.skip(m.value_end) =~= l.skip(6));
    }
}

/// Lines that do not open with `XTerm*`, in any case, come out as they went
/// in.
pub proof fn lemma_other_names_kept(theme: Theme, t: Seq<char>)
    ensures
        forall|i: int|
            0 <= i < split_lines(t).len() && !lit_at(#[trigger] split_lines(t)[i], 0, "xterm*"@, true)
                ==> split_lines(converted(theme, t))[i] == split_lines(t)[i],
{
    lemma_other_lines_kept(theme, t);
}

} // verus!
