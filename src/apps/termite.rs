//! Files of `key = value` lines, with values `#rrggbb` or `rgba(...)`.
//!
//! A colour line is: a key (`color` and digits, or one of [`color_keys`],
//! in any case) at the start of the line, white space, `=`, white space,
//! and a literal: `#` with six word characters, or `rgba(` in any case up
//! to the first `)`; anything may follow. The key, as written, is the theme
//! role; the literal becomes the role's `rgba(R,G,B,A)` form, whichever form
//! it had.
use super::{
    copy_range, in_rgba, key_of, lemma_map_lines, lemma_map_lines_settles, lemma_rgba_text_shape,
    map_lines, settles, splice, splice_exec, value_of, LineMatch,
};
use crate::color::{rgba_text, RGBA};
use crate::text::{
    chars_of, fold, in_class, in_lexicon, in_lexicon_exec, join_of, lemma_run_agree,
    lemma_run_bound, lemma_run_split, lines_of, lit_at, lit_at_exec, numbered, numbered_exec,
    one_line, run, run_end, split_lines, string_of, views, words_at, words_at_exec, CharClass,
};
use crate::theme::{AppError, Theme};
use vstd::prelude::*;

verus! {

/// The keys besides `color` and digits.
pub open spec fn color_keys() -> Seq<Seq<char>> {
    seq![
        "foreground"@,
        "background"@,
        "cursor"@,
        "foreground_bold"@,
        "cursor_foreground"@,
        "highlight"@,
    ]
}

fn color_keys_exec() -> (r: Vec<Vec<char>>)
    ensures
        views(r@) == color_keys(),
{
    let r = vec![
        chars_of("foreground"),
        chars_of("background"),
        chars_of("cursor"),
        chars_of("foreground_bold"),
        chars_of("cursor_foreground"),
        chars_of("highlight"),
    ];
    assert(views(r@) =~= color_keys());
    r
}

/// Where the literal that starts at `v` ends, if one does.
pub open spec fn value_end(l: Seq<char>, v: int) -> Option<int> {
    let c = v + 5 + run(l, v + 5, CharClass::NotClose);
    if v < l.len() && l[v] == '#' && words_at(l, v + 1, 6) {
        Some(v + 7)
    } else if lit_at(l, v, "rgba("@, true) && c < l.len() {
        Some(c + 1)
    } else {
        None
    }
}

/// Where line `l` holds its key and literal, if it is a colour line.
pub open spec fn color_line(l: Seq<char>) -> Option<LineMatch> {
    let b = run(l, 0, CharClass::Word) as int;
    let e = b + run(l, b, CharClass::Space);
    let v = e + 1 + run(l, e + 1, CharClass::Space);
    let key = l.subrange(0, b);
    if (numbered(key, true) || in_lexicon(key, color_keys(), true)) && e < l.len() && l[e] == '='
        && value_end(l, v) is Some {
        Some(LineMatch { key_start: 0, key_end: b, value_start: v, value_end: value_end(l, v)->0 })
    } else {
        None
    }
}

/// The functional form of the colour if there is one, else `old`.
pub open spec fn rgba_or(c: Option<RGBA>, old: Seq<char>) -> Seq<char> {
    match c {
        Some(c) => rgba_text(c),
        None => old,
    }
}

/// Line `l` with its literal set to the theme's colour for its key.
pub open spec fn converted_line(theme: Theme, l: Seq<char>) -> Seq<char> {
    match color_line(l) {
        Some(m) => splice(
            l,
            m.value_start,
            m.value_end,
            rgba_or(theme.color_of(key_of(l, m)), value_of(l, m)),
        ),
        None => l,
    }
}

/// [`converted_line`] as a map on lines.
pub open spec fn line_map(theme: Theme) -> spec_fn(Seq<char>) -> Seq<char> {
    |l: Seq<char>| converted_line(theme, l)
}

/// The text `t` with each line converted.
pub open spec fn converted(theme: Theme, t: Seq<char>) -> Seq<char> {
    map_lines(t, line_map(theme))
}

fn value_end_exec(l: &Vec<char>, v: usize) -> (r: Option<usize>)
    requires
        v <= l@.len(),
    ensures
        r matches Some(e) ==> value_end(l@, v as int) == Some(e as int) && v < e <= l@.len(),
        r is None ==> value_end(l@, v as int) is None,
{
    if v < l.len() && l[v] == '#' && words_at_exec(l, v + 1, 6) {
        return Some(v + 7);
    }
    if !lit_at_exec(l, v, "rgba(", true) {
        return None;
    }
    proof {
        reveal_strlit("rgba(");
    }
    let c = run_end(l, v + 5, CharClass::NotClose);
    if c >= l.len() {
        None
    } else {
        Some(c + 1)
    }
}

fn convert_line(theme: &Theme, l: &Vec<char>, keys: &Vec<Vec<char>>) -> (r: Vec<char>)
    requires
        views(keys@) == color_keys(),
    ensures
        r@ == converted_line(*theme, l@),
{
    let b = run_end(l, 0, CharClass::Word);
    let e = run_end(l, b, CharClass::Space);
    if !(numbered_exec(l, 0, b, true) || in_lexicon_exec(l, 0, b, keys, true)) || e >= l.len()
        || l[e] != '=' {
        return copy_range(l, 0, l.len());
    }
    let v = run_end(l, e + 1, CharClass::Space);
    let ve = match value_end_exec(l, v) {
        Some(ve) => ve,
        None => {
            return copy_range(l, 0, l.len());
        },
    };
    let role = string_of(&copy_range(l, 0, b));
    let new = match theme.get(&role) {
        Some(c) => chars_of(c.to_rgba().as_str()),
        None => copy_range(l, v, ve),
    };
    splice_exec(l, v, ve, &new)
}

/// Sets the colour literal of each colour line of `app_config` to the
/// theme's colour for its key; a key the theme lacks keeps its literal.
pub fn convert_colors(theme: &Theme, app_config: &str) -> (r: Result<String, AppError>)
    ensures
        r matches Ok(s) && s@ == converted(*theme, app_config@),
{
    let text = chars_of(app_config);
    let lines = lines_of(&text);
    let keys = color_keys_exec();
    let mut out: Vec<Vec<char>> = Vec::new();
    for i in 0..lines.len()
        invariant
            out@.len() == i,
            views(keys@) == color_keys(),
            forall|j: int| 0 <= j < i ==> (#[trigger] out@[j])@ == converted_line(*theme, lines@[j]@),
    {
        out.push(convert_line(theme, &lines[i], &keys));
    }
    assert(views(out@) =~= split_lines(text@).map_values(line_map(*theme)));
    Ok(join_of(&out))
}

/// A converted line is recognised as before, with the same key and a
/// literal where it was.
proof fn lemma_reconverted(theme: Theme, l: Seq<char>)
    requires
        color_line(l) is Some,
        theme.color_of(key_of(l, color_line(l)->0)) is Some,
    ensures
        color_line(converted_line(theme, l)) == Some(
            LineMatch {
                value_end: color_line(l)->0.value_start + rgba_text(
                    theme.color_of(key_of(l, color_line(l)->0))->0,
                ).len(),
                ..color_line(l)->0
            },
        ),
{
    let m = color_line(l)->0;
    let out = converted_line(theme, l);
    let (b, v) = (m.key_end, m.value_start);
    let e = b + run(l, b, CharClass::Space);
    let c = theme.color_of(key_of(l, m))->0;
    let new = rgba_text(c);
    lemma_rgba_text_shape(c);
    reveal_strlit("rgba(");
    assert(forall|j: int| 0 <= j < v ==> out[j] == l[j]);
    assert(forall|j: int| 0 <= j < new.len() ==> out[v + j] == new[j]);
    lemma_run_bound(l, 0, CharClass::Word);
    lemma_run_bound(l, b, CharClass::Space);
    lemma_run_bound(l, e + 1, CharClass::Space);
    lemma_run_agree(l, out, 0, CharClass::Word, 0, v);
    lemma_run_agree(l, out, b, CharClass::Space, 0, v);
    lemma_run_split(out, e + 1, v, CharClass::Space);
    assert(out[v] == 'r');
    assert(run(out, v, CharClass::Space) == 0);
    assert(out.subrange(0, b) == l.subrange(0, b));
    assert(out[v] != '#');
    assert(out.subrange(v, v + 5) =~= new.take(5));
    assert(fold(out.subrange(v, v + 5), true) =~= "rgba("@);
    assert(forall|j: int| v + 5 <= j < v + new.len() - 1 ==> in_class(#[trigger] out[j], CharClass::NotClose)) by {
        assert(forall|j: int| 5 <= j < new.len() - 1 ==> in_rgba(#[trigger] new[j]));
    }
    lemma_run_split(out, v + 5, v + new.len() - 1, CharClass::NotClose);
    assert(out[v + new.len() - 1] == ')');
}

/// Converting a line keeps it one line, and converting it again changes
/// nothing.
proof fn lemma_settles(theme: Theme)
    ensures
        settles(line_map(theme)),
{
    assert forall|l: Seq<char>| one_line(l) implies one_line(#[trigger] line_map(theme)(l))
        && line_map(theme)(line_map(theme)(l)) == line_map(theme)(l) by {
        if let Some(m) = color_line(l) {
            let out = converted_line(theme, l);
            if let Some(c) = theme.color_of(key_of(l, m)) {
                let new = rgba_text(c);
                lemma_rgba_text_shape(c);
                lemma_reconverted(theme, l);
                let m2 = color_line(out)->0;
                assert(key_of(out, m2) == key_of(l, m));
                assert(value_of(out, m2) =~= new);
                assert(splice(out, m2.value_start, m2.value_end, new) =~= out);
            } else {
                assert(splice(l, m.value_start, m.value_end, value_of(l, m)) =~= l);
            }
        }
    }
}

/// Converting a second time with the same theme changes nothing.
pub proof fn lemma_idempotent(theme: Theme, t: Seq<char>)
    ensures
        converted(theme, converted(theme, t)) == converted(theme, t),
{
    lemma_settles(theme);
    lemma_map_lines_settles(t, line_map(theme));
}

/// The output has as many lines as the input, and each line that is not a
/// colour line comes out as it went in.
pub proof fn lemma_other_lines_kept(theme: Theme, t: Seq<char>)
    ensures
        split_lines(converted(theme, t)).len() == split_lines(t).len(),
        forall|i: int|
            0 <= i < split_lines(t).len() && color_line(#[trigger] split_lines(t)[i]) is None
                ==> split_lines(converted(theme, t))[i] == split_lines(t)[i],
{
    lemma_settles(theme);
    lemma_map_lines(t, line_map(theme));
}

/// Each line is converted on its own: a colour line whose key the theme
/// lacks comes out as it went in, and every other line comes out as
/// [`converted_line`] says.
pub proof fn lemma_missing_role_kept(theme: Theme, t: Seq<char>)
    ensures
        forall|i: int|
            0 <= i < split_lines(t).len() ==> #[trigger] split_lines(converted(theme, t))[i]
                == converted_line(theme, split_lines(t)[i]),
        forall|i: int|
            0 <= i < split_lines(t).len() && (color_line(#[trigger] split_lines(t)[i]) matches Some(
                m,
            ) && theme.color_of(key_of(split_lines(t)[i], m)) is None) ==> split_lines(
                converted(theme, t),
            )[i] == split_lines(t)[i],
{
    lemma_settles(theme);
    lemma_map_lines(t, line_map(theme));
    assert forall|i: int|
        0 <= i < split_lines(t).len() && (color_line(#[trigger] split_lines(t)[i]) matches Some(m)
            && theme.color_of(key_of(split_lines(t)[i], m)) is None) implies split_lines(
        converted(theme, t),
    )[i] == split_lines(t)[i] by {
        let l = split_lines(t)[i];
        let m = color_line(l)->0;
        assert(splice(l, m.value_start, m.value_end, value_of(l, m)) =~= l);
    }
}

} // verus!
