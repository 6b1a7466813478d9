//! X resource files: `*.key: #rrggbb` lines.
//!
//! A colour line is: `*`, any one character, a key (`color` and digits,
//! `foreground` or `background`), `:`, white space, and `#` with six word
//! characters; anything may follow. Lines of other resource names, such as
//! `URxvt.foreground`, are not colour lines. The key is the theme role; the
//! literal becomes the role's `#rrggbb` form.
use super::{
    copy_range, hex_or, hex_or_exec, key_of, lemma_hex_text_shape, lemma_map_lines,
    lemma_map_lines_settles, map_lines, settles, splice, splice_exec, value_of, LineMatch,
};
use crate::text::{
    chars_of, in_lexicon, in_lexicon_exec, join_of, lemma_run_agree, lemma_run_bound,
    lines_of, numbered, numbered_exec, one_line, run, run_end, split_lines, string_of, views,
    words_at, words_at_exec, CharClass,
};
use crate::theme::{AppError, Theme};
use vstd::prelude::*;

verus! {

/// The keys besides `color` and digits.
pub open spec fn color_keys() -> Seq<Seq<char>> {
    seq!["foreground"@, "background"@]
}

fn color_keys_exec() -> (r: Vec<Vec<char>>)
    ensures
        views(r@) == color_keys(),
{
    let r = vec![chars_of("foreground"), chars_of("background")];
    assert(views(r@) =~= color_keys());
    r
}

/// Where line `l` holds its key and literal, if it is a colour line.
pub open spec fn color_line(l: Seq<char>) -> Option<LineMatch> {
    let b = 2 + run(l, 2, CharClass::Word) as int;
    let v = b + 1 + run(l, b + 1, CharClass::Space);
    let key = l.subrange(2, b);
    if l.len() > 2 && l[0] == '*' && (numbered(key, false) || in_lexicon(key, color_keys(), false))
        && b < l.len() && l[b] == ':' && v < l.len() && l[v] == '#' && words_at(l, v + 1, 6) {
        Some(LineMatch { key_start: 2, key_end: b, value_start: v, value_end: v + 7 })
    } else {
        None
    }
}

/// Line `l` with its literal set to the theme's colour for its key.
pub open spec fn converted_line(theme: Theme, l: Seq<char>) -> Seq<char> {
    match color_line(l) {
        Some(m) => splice(
            l,
            m.value_start,
            m.value_end,
            hex_or(theme.color_of(key_of(l, m)), value_of(l, m)),
        ),
        None => l,
    }
}

/// [`converted_line`] as a map on lines.
pub open spec fn line_map(theme: Theme) -> spec_fn(Seq<char>) -> Seq<char> {
    |l: Seq<char>| converted_line(theme, l)
}

/// The text `t` with each line converted.
pub open spec fn converted(theme: Theme, t: Seq<char>) -> Seq<char> {
    map_lines(t, line_map(theme))
}

fn convert_line(theme: &Theme, l: &Vec<char>, keys: &Vec<Vec<char>>) -> (r: Vec<char>)
    requires
        views(keys@) == color_keys(),
    ensures
        r@ == converted_line(*theme, l@),
{
    if l.len() <= 2 || l[0] != '*' {
        return copy_range(l, 0, l.len());
    }
    let b = run_end(l, 2, CharClass::Word);
    if !(numbered_exec(l, 2, b, false) || in_lexicon_exec(l, 2, b, keys, false)) || b >= l.len()
        || l[b] != ':' {
        return copy_range(l, 0, l.len());
    }
    let v = run_end(l, b + 1, CharClass::Space);
    if v >= l.len() || l[v] != '#' || !words_at_exec(l, v + 1, 6) {
        return copy_range(l, 0, l.len());
    }
    let role = string_of(&copy_range(l, 2, b));
    let new = hex_or_exec(theme, &role, l, v, v + 7);
    splice_exec(l, v, v + 7, &new)
}

/// Sets the colour literal of each colour line of `app_config` to the
/// theme's colour for its key; a key the theme lacks keeps its literal.
pub fn convert_colors(theme: &Theme, app_config: &str) -> (r: Result<String, AppError>)
    ensures
        r matches Ok(s) && s@ == converted(*theme, app_config@),
{
    let text = chars_of(app_config);
    let lines = lines_of(&text);
    let keys = color_keys_exec();
    let mut out: Vec<Vec<char>> = Vec::new();
    for i in 0..lines.len()
        invariant
            out@.len() == i,
            views(keys@) == color_keys(),
            forall|j: int| 0 <= j < i ==> (#[trigger] out@[j])@ == converted_line(*theme, lines@[j]@),
    {
        out.push(convert_line(theme, &lines[i], &keys));
    }
    assert(views(out@) =~= split_lines(text@).map_values(line_map(*theme)));
    Ok(join_of(&out))
}

/// A converted line is recognised as before, with the same key and a
/// literal where it was.
proof fn lemma_reconverted(theme: Theme, l: Seq<char>)
    requires
        color_line(l) is Some,
    ensures
        color_line(converted_line(theme, l)) == color_line(l),
{
    let m = color_line(l)->0;
    let out = converted_line(theme, l);
    let (b, v) = (m.key_end, m.value_start);
    let new = hex_or(theme.color_of(key_of(l, m)), value_of(l, m));
    if let Some(c) = theme.color_of(key_of(l, m)) {
        lemma_hex_text_shape(c);
    }
    assert(new.len() == 7 && new[0] == '#');
    assert(forall|j: int| 0 <= j < v + 1 ==> out[j] == l[j]);
    lemma_run_bound(l, 2, CharClass::Word);
    lemma_run_bound(l, b + 1, CharClass::Space);
    lemma_run_agree(l, out, 2, CharClass::Word, 0, v + 1);
    lemma_run_agree(l, out, b + 1, CharClass::Space, 0, v + 1);
    assert(out.subrange(2, b) == l.subrange(2, b));
    assert(forall|j: int| 1 <= j < 7 ==> out[v + j] == new[j]);
}

/// Converting a line keeps it one line, and converting it again changes
/// nothing.
proof fn lemma_settles(theme: Theme)
    ensures
        settles(line_map(theme)),
{
    assert forall|l: Seq<char>| one_line(l) implies one_line(#[trigger] line_map(theme)(l))
        && line_map(theme)(line_map(theme)(l)) == line_map(theme)(l) by {
        if let Some(m) = color_line(l) {
            let new = hex_or(theme.color_of(key_of(l, m)), value_of(l, m));
            if let Some(c) = theme.color_of(key_of(l, m)) {
                lemma_hex_text_shape(c);
            }
            lemma_reconverted(theme, l);
            let out = converted_line(theme, l);
            assert(key_of(out, m) == key_of(l, m));
            assert(value_of(out, m) == new);
            assert(splice(out, m.value_start, m.value_end, new) =~= out);
        }
    }
}

/// Converting a second time with the same theme changes nothing.
pub proof fn lemma_idempotent(theme: Theme, t: Seq<char>)
    ensures
        converted(theme, converted(theme, t)) == converted(theme, t),
{
    lemma_settles(theme);
    lemma_map_lines_settles(t, line_map(theme));
}

/// The output has as many lines as the input, and each line that is not a
/// colour line comes out as it went in.
pub proof fn lemma_other_lines_kept(theme: Theme, t: Seq<char>)
    ensures
        split_lines(converted(theme, t)).len() == split_lines(t).len(),
        forall|i: int|
            0 <= i < split_lines(t).len() && color_line(#[trigger] split_lines(t)[i]) is None
                ==> split_lines(converted(theme, t))[i] == split_lines(t)[i],
{
    lemma_settles(theme);
    lemma_map_lines(t, line_map(theme));
}

/// Each line is converted on its own: a colour line whose key the theme
/// lacks comes out as it went in, and every other line comes out as
/// [`converted_line`] says.
pub proof fn lemma_missing_role_kept(theme: Theme, t: Seq<char>)
    ensures
        forall|i: int|
            0 <= i < split_lines(t).len() ==> #[trigger] split_lines(converted(theme, t))[i]
                == converted_line(theme, split_lines(t)[i]),
        forall|i: int|
            0 <= i < split_lines(t).len() && (color_line(#[trigger] split_lines(t)[i]) matches Some(
                m,
            ) && theme.color_of(key_of(split_lines(t)[i], m)) is None) ==> split_lines(
                converted(theme, t),
            )[i] == split_lines(t)[i],
{
    lemma_settles(theme);
    lemma_map_lines(t, line_map(theme));
    assert forall|i: int|
        0 <= i < split_lines(t).len() && (color_line(#[trigger] split_lines(t)[i]) matches Some(m)
            && theme.color_of(key_of(split_lines(t)[i], m)) is None) implies split_lines(
        converted(theme, t),
    )[i] == split_lines(t)[i] by {
        let l = split_lines(t)[i];
        let m = color_line(l)->0;
        assert(splice(l, m.value_start, m.value_end, value_of(l, m)) =~= l);
    }
}

/// Lines that do not open with `*`, those of other resource names among
/// them, come out as they went in.
pub proof fn lemma_other_names_kept(theme: Theme, t: Seq<char>)
    ensures
        forall|i: int|
            0 <= i < split_lines(t).len() && !((#[trigger] split_lines(t)[i]).len() > 0
                && split_lines(t)[i][0] == '*') ==> split_lines(converted(theme, t))[i]
                == split_lines(t)[i],
{
    lemma_other_lines_kept(theme, t);
}

} // verus!
