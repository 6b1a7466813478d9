//! YAML colour blocks: `name: '0xRRGGBB'` lines under `normal:` and
//! `bright:` headings.
//!
//! A colour line is: white space, a colour name (one of [`color_names`]),
//! `:`, white space, a quote (`'` or `"`), `0x`, six word characters and a
//! quote; anything may follow. A line whose text after its leading white
//! space opens with `bright:` switches to bright mode, one that opens with
//! `normal:` back to normal mode; the text starts in normal mode. The name
//! and the mode give the theme role (see [`theme_role`]); the six characters
//! become the role's colour in lower-case hexadecimal.
use super::{
    copy_range, key_of, lemma_hex_text_shape, splice, splice_exec, value_of, LineMatch,
};
use crate::color::{hex_text, RGBA};
use crate::text::{
    chars_of, in_class, in_lexicon, in_lexicon_exec, is_word, join_lines, join_of,
    lemma_run_agree, lemma_run_bound, lemma_run_split, lemma_split_join, lemma_split_lines,
    lines_of, lit_at, lit_at_exec, one_line, run, run_end, same_as, split_lines, string_of,
    views, words_at, words_at_exec, CharClass,
};
use crate::theme::{AppError, Theme};
use vstd::prelude::*;

verus! {

/// Whether colour names stand for the normal or the bright colours.
#[derive(Clone, Copy, Debug, PartialEq, Eq)]
pub enum Mode {
    Bright,
    Normal,
}

/// The colour names of a colour line.
pub open spec fn color_names() -> Seq<Seq<char>> {
    seq![
        "black"@,
        "red"@,
        "green"@,
        "yellow"@,
        "blue"@,
        "magenta"@,
        "cyan"@,
        "white"@,
        "foreground"@,
        "background"@,
        "cursor"@,
        "text"@,
    ]
}

fn color_names_exec() -> (r: Vec<Vec<char>>)
    ensures
        views(r@) == color_names(),
{
    let r = vec![
        chars_of("black"),
        chars_of("red"),
        chars_of("green"),
        chars_of("yellow"),
        chars_of("blue"),
        chars_of("magenta"),
        chars_of("cyan"),
        chars_of("white"),
        chars_of("foreground"),
        chars_of("background"),
        chars_of("cursor"),
        chars_of("text"),
    ];
    assert(views(r@) =~= color_names());
    r
}

/// The theme role of colour name `name`: the eight hues from `black` to
/// `white` are `color0` to `color7` in normal mode and `color8` to
/// `color15` in bright mode; `foreground`, `background`, `text` and
/// `cursor` are roles of their own name in both; any other name is
/// `color0`.
pub open spec fn theme_role(name: Seq<char>, mode: Mode) -> Seq<char> {
    let bright = mode == Mode::Bright;
    if name == "black"@ {
        if bright { "color8"@ } else { "color0"@ }
    } else if name == "red"@ {
        if bright { "color9"@ } else { "color1"@ }
    } else if name == "green"@ {
        if bright { "color10"@ } else { "color2"@ }
    } else if name == "yellow"@ {
        if bright { "color11"@ } else { "color3"@ }
    } else if name == "blue"@ {
        if bright { "color12"@ } else { "color4"@ }
    } else if name == "magenta"@ {
        if bright { "color13"@ } else { "color5"@ }
    } else if name == "cyan"@ {
        if bright { "color14"@ } else { "color6"@ }
    } else if name == "white"@ {
        if bright { "color15"@ } else { "color7"@ }
    } else if name == "foreground"@ {
        "foreground"@
    } else if name == "background"@ {
        "background"@
    } else if name == "text"@ {
        "text"@
    } else if name == "cursor"@ {
        "cursor"@
    } else {
        "color0"@
    }
}

fn is_lit(c: &Vec<char>, lit: &str) -> (r: bool)
    ensures
        r == (c@ == lit@),
{
    assert(c@.subrange(0, c@.len() as int) == c@);
    same_as(c, 0, c.len(), &chars_of(lit), false)
}

/// The theme role of colour name `color` in mode `mode`, as [`theme_role`]
/// says.
pub fn get_theme_color(color: &str, mode: &Mode) -> (r: &'static str)
    ensures
        r@ == theme_role(color@, *mode),
{
    let c = chars_of(color);
    let bright = match mode {
        Mode::Bright => true,
        Mode::Normal => false,
    };
    if is_lit(&c, "black") {
        if bright { "color8" } else { "color0" }
    } else if is_lit(&c, "red") {
        if bright { "color9" } else { "color1" }
    } else if is_lit(&c, "green") {
        if bright { "color10" } else { "color2" }
    } else if is_lit(&c, "yellow") {
        if bright { "color11" } else { "color3" }
    } else if is_lit(&c, "blue") {
        if bright { "color12" } else { "color4" }
    } else if is_lit(&c, "magenta") {
        if bright { "color13" } else { "color5" }
    } else if is_lit(&c, "cyan") {
        if bright { "color14" } else { "color6" }
    } else if is_lit(&c, "white") {
        if bright { "color15" } else { "color7" }
    } else if is_lit(&c, "foreground") {
        "foreground"
    } else if is_lit(&c, "background") {
        "background"
    } else if is_lit(&c, "text") {
        "text"
    } else if is_lit(&c, "cursor") {
        "cursor"
    } else {
        "color0"
    }
}

/// The mode that line `l` switches to, if it is a heading.
pub open spec fn heading(l: Seq<char>) -> Option<Mode> {
    let a = run(l, 0, CharClass::Space) as int;
    if lit_at(l, a, "bright:"@, false) {
        Some(Mode::Bright)
    } else if lit_at(l, a, "normal:"@, false) {
        Some(Mode::Normal)
    } else {
        None
    }
}

/// The mode after line `l`, read in mode `mode`.
pub open spec fn next_mode(mode: Mode, l: Seq<char>) -> Mode {
    match heading(l) {
        Some(h) => h,
        None => mode,
    }
}

/// The mode after the first `n` lines of `ls`.
pub open spec fn mode_at(ls: Seq<Seq<char>>, n: int) -> Mode
    decreases n,
{
    if n <= 0 {
        Mode::Normal
    } else {
        next_mode(mode_at(ls, n - 1), ls[n - 1])
    }
}

/// `c` is a quote.
pub open spec fn is_quote(c: char) -> bool {
    c == '\'' || c == '"'
}

/// Where line `l` holds its colour name and the six characters of its
/// literal, if it is a colour line.
pub open spec fn color_line(l: Seq<char>) -> Option<LineMatch> {
    let a = run(l, 0, CharClass::Space) as int;
    let b = a + run(l, a, CharClass::Word);
    let c = b + 1 + run(l, b + 1, CharClass::Space);
    if in_lexicon(l.subrange(a, b), color_names(), false) && b < l.len() && l[b] == ':' && c + 9
        < l.len() && is_quote(l[c]) && l[c + 1] == '0' && l[c + 2] == 'x' && words_at(l, c + 3, 6)
        && is_quote(l[c + 9]) {
        Some(LineMatch { key_start: a, key_end: b, value_start: c + 3, value_end: c + 9 })
    } else {
        None
    }
}

/// The six hexadecimal digits of the colour if there is one, else `old`.
pub open spec fn digits_or(c: Option<RGBA>, old: Seq<char>) -> Seq<char> {
    match c {
        Some(c) => hex_text(c).skip(1),
        None => old,
    }
}

/// Line `l`, read in mode `mode`, with its six characters set to the
/// theme's colour for the role of its name.
pub open spec fn converted_line(theme: Theme, mode: Mode, l: Seq<char>) -> Seq<char> {
    match color_line(l) {
        Some(m) => splice(
            l,
            m.value_start,
            m.value_end,
            digits_or(theme.color_of(theme_role(key_of(l, m), mode)), value_of(l, m)),
        ),
        None => l,
    }
}

/// The lines `ls`, each converted in the mode it is read in.
pub open spec fn converted_lines(theme: Theme, ls: Seq<Seq<char>>) -> Seq<Seq<char>> {
    Seq::new(ls.len(), |i: int| converted_line(theme, mode_at(ls, i + 1), ls[i]))
}

/// The text `t` with each line converted.
pub open spec fn converted(theme: Theme, t: Seq<char>) -> Seq<char> {
    join_lines(converted_lines(theme, split_lines(t)))
}

fn heading_exec(l: &Vec<char>) -> (r: Option<Mode>)
    ensures
        r == heading(l@),
{
    let a = run_end(l, 0, CharClass::Space);
    if lit_at_exec(l, a, "bright:", false) {
        Some(Mode::Bright)
    } else if lit_at_exec(l, a, "normal:", false) {
        Some(Mode::Normal)
    } else {
        None
    }
}

fn convert_line(theme: &Theme, mode: Mode, l: &Vec<char>, names: &Vec<Vec<char>>) -> (r: Vec<char>)
    requires
        views(names@) == color_names(),
    ensures
        r@ == converted_line(*theme, mode, l@),
{
    let a = run_end(l, 0, CharClass::Space);
    let b = run_end(l, a, CharClass::Word);
    if !in_lexicon_exec(l, a, b, names, false) || b >= l.len() || l[b] != ':' {
        return copy_range(l, 0, l.len());
    }
    let c = run_end(l, b + 1, CharClass::Space);
    if c >= l.len() || l.len() - c <= 9 || !(l[c] == '\'' || l[c] == '"') || l[c + 1] != '0'
        || l[c + 2] != 'x' || !words_at_exec(l, c + 3, 6) || !(l[c + 9] == '\'' || l[c + 9]
        == '"') {
        return copy_range(l, 0, l.len());
    }
    let name = string_of(&copy_range(l, a, b));
    let role = get_theme_color(name.as_str(), &mode).to_owned();
    let new = match theme.get(&role) {
        Some(col) => {
            let hex = chars_of(col.to_hex().as_str());
            proof {
                lemma_hex_text_shape(col);
            }
            assert(hex@.subrange(1, 7) == hex@.skip(1));
            copy_range(&hex, 1, 7)
        },
        None => copy_range(l, c + 3, c + 9),
    };
    splice_exec(l, c + 3, c + 9, &new)
}

/// Sets the six characters of each colour line of `app_config` to the
/// theme's colour for the role of its name in the mode it is read in; a
/// role the theme lacks keeps its characters.
pub fn convert_colors(theme: &Theme, app_config: &str) -> (r: Result<String, AppError>)
    ensures
        r matches Ok(s) && s@ == converted(*theme, app_config@),
{
    let text = chars_of(app_config);
    let lines = lines_of(&text);
    let names = color_names_exec();
    let ghost ls = views(lines@);
    let mut mode = Mode::Normal;
    let mut out: Vec<Vec<char>> = Vec::new();
    for i in 0..lines.len()
        invariant
            ls == views(lines@),
            out@.len() == i,
            mode == mode_at(ls, i as int),
            views(names@) == color_names(),
            forall|j: int|
                0 <= j < i ==> (#[trigger] out@[j])@ == converted_line(
                    *theme,
                    mode_at(ls, j + 1),
                    ls[j],
                ),
    {
        match heading_exec(&lines[i]) {
            Some(h) => {
                mode = h;
            },
            None => {},
        }
        assert(mode == mode_at(ls, i + 1));
        out.push(convert_line(theme, mode, &lines[i], &names));
    }
    assert(views(out@) =~= converted_lines(*theme, split_lines(text@)));
    Ok(join_of(&out))
}

/// No colour line is a heading: a heading's first word, `bright` or
/// `normal`, is no colour name.
proof fn lemma_not_heading(l: Seq<char>)
    requires
        color_line(l) is Some,
    ensures
        heading(l) is None,
{
    let a = run(l, 0, CharClass::Space) as int;
    reveal_strlit("bright:");
    reveal_strlit("normal:");
    reveal_strlit("black");
    reveal_strlit("red");
    reveal_strlit("green");
    reveal_strlit("yellow");
    reveal_strlit("blue");
    reveal_strlit("magenta");
    reveal_strlit("cyan");
    reveal_strlit("white");
    reveal_strlit("foreground");
    reveal_strlit("background");
    reveal_strlit("cursor");
    reveal_strlit("text");
    lemma_run_bound(l, 0, CharClass::Space);
    if lit_at(l, a, "bright:"@, false) || lit_at(l, a, "normal:"@, false) {
        let w = if lit_at(l, a, "bright:"@, false) { "bright:"@ } else { "normal:"@ };
        assert(forall|j: int| 0 <= j < 7 ==> l[a + j] == w[j]);
        assert(forall|j: int| 0 <= j < 6 ==> is_word(#[trigger] w[j]));
        assert forall|j: int| a <= j < a + 6 implies in_class(#[trigger] l[j], CharClass::Word) by {
            assert(l[j] == w[j - a]);
        }
        assert(w[6] == ':');
        assert(l[a + 6] == w[6]);
        lemma_run_split(l, a, a + 6, CharClass::Word);
        assert(run(l, a + 6, CharClass::Word) == 0);
        let name = l.subrange(a, a + 6);
        assert(name =~= w.take(6));
        assert(!color_names().contains(name)) by {
            if color_names().contains(name) {
                let i = choose|i: int| 0 <= i < color_names().len() && color_names()[i] == name;
                assert(color_names()[i].len() == 6);
                assert(color_names()[i][0] == name[0]);
            }
        }
    }
}

/// A converted line is recognised as before, with the same name and six
/// characters where they were.
proof fn lemma_reconverted(theme: Theme, mode: Mode, l: Seq<char>)
    requires
        color_line(l) is Some,
    ensures
        color_line(converted_line(theme, mode, l)) == color_line(l),
{
    let m = color_line(l)->0;
    let out = converted_line(theme, mode, l);
    let (a, b, v) = (m.key_start, m.key_end, m.value_start);
    let new = digits_or(theme.color_of(theme_role(key_of(l, m), mode)), value_of(l, m));
    if let Some(c) = theme.color_of(theme_role(key_of(l, m), mode)) {
        lemma_hex_text_shape(c);
        assert(forall|j: int| 0 <= j < 6 ==> new[j] == hex_text(c)[j + 1]);
    }
    assert(new.len() == 6);
    assert(forall|j: int| 0 <= j < v ==> out[j] == l[j]);
    assert(forall|j: int| 0 <= j < 6 ==> out[v + j] == new[j]);
    assert(out[v + 6] == l[v + 6]);
    lemma_run_bound(l, 0, CharClass::Space);
    lemma_run_bound(l, a, CharClass::Word);
    lemma_run_bound(l, b + 1, CharClass::Space);
    lemma_run_agree(l, out, 0, CharClass::Space, 0, v);
    lemma_run_agree(l, out, a, CharClass::Word, 0, v);
    lemma_run_agree(l, out, b + 1, CharClass::Space, 0, v);
    assert(out.subrange(a, b) == l.subrange(a, b));
}

/// Converting a line in a given mode keeps it one line and keeps whether
/// and how it is a heading, and converting it again in that mode changes
/// nothing.
proof fn lemma_line_settles(theme: Theme, mode: Mode, l: Seq<char>)
    requires
        one_line(l),
    ensures
        one_line(converted_line(theme, mode, l)),
        heading(converted_line(theme, mode, l)) == heading(l),
        converted_line(theme, mode, converted_line(theme, mode, l)) == converted_line(theme, mode, l),
{
    if let Some(m) = color_line(l) {
        let out = converted_line(theme, mode, l);
        let new = digits_or(theme.color_of(theme_role(key_of(l, m), mode)), value_of(l, m));
        if let Some(c) = theme.color_of(theme_role(key_of(l, m), mode)) {
            lemma_hex_text_shape(c);
        }
        lemma_reconverted(theme, mode, l);
        lemma_not_heading(l);
        lemma_not_heading(out);
        assert(key_of(out, m) == key_of(l, m));
        assert(value_of(out, m) =~= new);
        assert(splice(out, m.value_start, m.value_end, new) =~= out);
    }
}

/// Converted lines switch modes where the lines did.
proof fn lemma_modes_kept(theme: Theme, ls: Seq<Seq<char>>, n: int)
    requires
        0 <= n <= ls.len(),
        forall|i: int| 0 <= i < ls.len() ==> one_line(#[trigger] ls[i]),
    ensures
        mode_at(converted_lines(theme, ls), n) == mode_at(ls, n),
    decreases n,
{
    if n > 0 {
        lemma_modes_kept(theme, ls, n - 1);
        lemma_line_settles(theme, mode_at(ls, n), ls[n - 1]);
    }
}

/// The lines of the output are the input's, each converted in the mode it
/// is read in.
proof fn lemma_output_lines(theme: Theme, t: Seq<char>)
    ensures
        split_lines(converted(theme, t)) == converted_lines(theme, split_lines(t)),
        forall|i: int| 0 <= i < split_lines(t).len() ==> one_line(#[trigger] split_lines(t)[i]),
{
    let ls = split_lines(t);
    lemma_split_lines(t);
    let os = converted_lines(theme, ls);
    assert forall|i: int| 0 <= i < os.len() implies one_line(#[trigger] os[i]) by {
        assert(one_line(ls[i]));
        lemma_line_settles(theme, mode_at(ls, i + 1), ls[i]);
    }
    lemma_split_join(os);
}

/// Converting a second time with the same theme changes nothing.
pub proof fn lemma_idempotent(theme: Theme, t: Seq<char>)
    ensures
        converted(theme, converted(theme, t)) == converted(theme, t),
{
    let ls = split_lines(t);
    lemma_output_lines(theme, t);
    let os = converted_lines(theme, ls);
    assert(converted_lines(theme, os) =~= os) by {
        assert forall|i: int| 0 <= i < os.len() implies #[trigger] converted_line(
            theme,
            mode_at(os, i + 1),
            os[i],
        ) == os[i] by {
            lemma_modes_kept(theme, ls, i + 1);
            lemma_line_settles(theme, mode_at(ls, i + 1), ls[i]);
        }
    }
}

/// The output has as many lines as the input, and each line that is not a
/// colour line comes out as it went in.
pub proof fn lemma_other_lines_kept(theme: Theme, t: Seq<char>)
    ensures
        split_lines(converted(theme, t)).len() == split_lines(t).len(),
        forall|i: int|
            0 <= i < split_lines(t).len() && color_line(#[trigger] split_lines(t)[i]) is None
                ==> split_lines(converted(theme, t))[i] == split_lines(t)[i],
{
    lemma_output_lines(theme, t);
}

/// Each line is converted on its own, in the mode it is read in: a colour
/// line whose role the theme lacks comes out as it went in, and every other
/// line comes out as [`converted_line`] says.
pub proof fn lemma_missing_role_kept(theme: Theme, t: Seq<char>)
    ensures
        forall|i: int|
            0 <= i < split_lines(t).len() ==> #[trigger] split_lines(converted(theme, t))[i]
                == converted_line(theme, mode_at(split_lines(t), i + 1), split_lines(t)[i]),
        forall|i: int|
            0 <= i < split_lines(t).len() && (color_line(#[trigger] split_lines(t)[i]) matches Some(
                m,
            ) && theme.color_of(
                theme_role(key_of(split_lines(t)[i], m), mode_at(split_lines(t), i + 1)),
            ) is None) ==> split_lines(converted(theme, t))[i] == split_lines(t)[i],
{
    lemma_output_lines(theme, t);
    assert forall|i: int|
        0 <= i < split_lines(t).len() && (color_line(#[trigger] split_lines(t)[i]) matches Some(m)
            && theme.color_of(
            theme_role(key_of(split_lines(t)[i], m), mode_at(split_lines(t), i + 1)),
        ) is None) implies split_lines(converted(theme, t))[i] == split_lines(t)[i] by {
        let l = split_lines(t)[i];
        let m = color_line(l)->0;
        assert(splice(l, m.value_start, m.value_end, value_of(l, m)) =~= l);
    }
}

/// A line is read in the mode of the last heading at or above it, and in
/// normal mode where there is none; in bright mode `black` is `color8`, in
/// normal mode `color0`.
pub proof fn lemma_mode_of_line(ls: Seq<Seq<char>>, i: int)
    requires
        0 <= i < ls.len(),
    ensures
        (forall|j: int| 0 <= j <= i ==> heading(#[trigger] ls[j]) is None) ==> mode_at(ls, i + 1)
            == Mode::Normal,
        forall|j: int|
            0 <= j <= i && heading(#[trigger] ls[j]) is Some && (forall|k: int|
                j < k <= i ==> heading(#[trigger] ls[k]) is None) ==> mode_at(ls, i + 1) == heading(
                ls[j],
            )->0,
        theme_role("black"@, Mode::Bright) == "color8"@,
        theme_role("black"@, Mode::Normal) == "color0"@,
    decreases i,
{
    if i > 0 {
        lemma_mode_of_line(ls, i - 1);
    }
    if forall|j: int| 0 <= j <= i ==> heading(#[trigger] ls[j]) is None {
        if i > 0 {
            assert(forall|j: int| 0 <= j <= i - 1 ==> heading(#[trigger] ls[j]) is None);
        }
        assert(heading(ls[i]) is None);
        assert(mode_at(ls, i) == Mode::Normal);
    }
    assert forall|j: int|
        0 <= j <= i && heading(#[trigger] ls[j]) is Some && (forall|k: int|
            j < k <= i ==> heading(#[trigger] ls[k]) is None) implies mode_at(ls, i + 1) == heading(
        ls[j],
    )->0 by {
        if j < i {
            assert(heading(ls[i]) is None);
        }
    }
}

} // verus!
