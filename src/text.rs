//! Character-level helpers shared by the line grammars: the split of a text
//! into lines, and small scanners over a line.
use vstd::prelude::*;

verus! {

/// `c` is a decimal digit.
pub open spec fn is_digit(c: char) -> bool {
    '0' <= c && c <= '9'
}

/// `c` is white space in the sense of Unicode's `White_Space` property.
pub open spec fn is_space(c: char) -> bool {
    ('\u{9}' <= c && c <= '\u{d}') || c == ' ' || c == '\u{85}' || c == '\u{a0}' || c
        == '\u{1680}' || ('\u{2000}' <= c && c <= '\u{200a}') || c == '\u{2028}' || c
        == '\u{2029}' || c == '\u{202f}' || c == '\u{205f}' || c == '\u{3000}'
}

/// `c` is an ASCII letter, an ASCII digit or `_`.
pub open spec fn is_word(c: char) -> bool {
    ('a' <= c && c <= 'z') || ('A' <= c && c <= 'Z') || is_digit(c) || c == '_'
}

/// The classes of characters that the line grammars skip over.
pub enum CharClass {
    Space,
    Digit,
    Word,
    NotClose,
}

/// `c` belongs to class `k`; `NotClose` is every character but `)`.
pub open spec fn in_class(c: char, k: CharClass) -> bool {
    match k {
        CharClass::Space => is_space(c),
        CharClass::Digit => is_digit(c),
        CharClass::Word => is_word(c),
        CharClass::NotClose => c != ')',
    }
}

/// The number of characters of class `k` in a row in `s` from index `i` on.
pub open spec fn run(s: Seq<char>, i: int, k: CharClass) -> nat
    decreases s.len() - i,
{
    if 0 <= i < s.len() && in_class(s[i], k) {
        1 + run(s, i + 1, k)
    } else {
        0
    }
}

/// A run stops at the end of `s` at the latest, and the character it stops
/// at is not of its class.
pub proof fn lemma_run_bound(s: Seq<char>, i: int, k: CharClass)
    requires
        0 <= i <= s.len(),
    ensures
        i + run(s, i, k) <= s.len(),
        i + run(s, i, k) < s.len() ==> !in_class(s[i + run(s, i, k)], k),
        forall|j: int| i <= j < i + run(s, i, k) ==> in_class(#[trigger] s[j], k),
    decreases s.len() - i,
{
    if i < s.len() {
        lemma_run_bound(s, i + 1, k);
    }
}

/// A run from `a` to `b` followed by the run from `b` make the run from `a`.
pub proof fn lemma_run_split(s: Seq<char>, a: int, b: int, k: CharClass)
    requires
        0 <= a <= b <= s.len(),
        forall|j: int| a <= j < b ==> in_class(#[trigger] s[j], k),
    ensures
        run(s, a, k) == (b - a) + run(s, b, k),
    decreases b - a,
{
    if a < b {
        lemma_run_split(s, a + 1, b, k);
    }
}

/// Two texts that agree on a stretch that holds a run and the character it
/// stops at have that run in common.
pub proof fn lemma_run_agree(s1: Seq<char>, s2: Seq<char>, i: int, k: CharClass, lo: int, p: int)
    requires
        0 <= lo <= i,
        i + run(s1, i, k) < p,
        p <= s1.len(),
        p <= s2.len(),
        forall|j: int| lo <= j < p ==> s1[j] == s2[j],
    ensures
        run(s2, i, k) == run(s1, i, k),
    decreases s1.len() - i,
{
    if i < s1.len() && in_class(s1[i], k) {
        lemma_run_agree(s1, s2, i + 1, k, lo, p);
    }
}

/// The character class test, run.
pub fn in_class_exec(c: char, k: &CharClass) -> (r: bool)
    ensures
        r == in_class(c, *k),
{
    match k {
        CharClass::Space => c == ' ' || ('\u{9}' <= c && c <= '\u{d}') || c == '\u{85}' || c
            == '\u{a0}' || c == '\u{1680}' || ('\u{2000}' <= c && c <= '\u{200a}') || c
            == '\u{2028}' || c == '\u{2029}' || c == '\u{202f}' || c == '\u{205f}' || c
            == '\u{3000}',
        CharClass::Digit => '0' <= c && c <= '9',
        CharClass::Word => ('a' <= c && c <= 'z') || ('A' <= c && c <= 'Z') || ('0' <= c && c
            <= '9') || c == '_',
        CharClass::NotClose => c != ')',
    }
}

/// The index where the run of class `k` from `i` stops.
pub fn run_end(s: &Vec<char>, i: usize, k: CharClass) -> (r: usize)
    requires
        i <= s@.len(),
    ensures
        r == i + run(s@, i as int, k),
        r <= s@.len(),
{
    proof {
        lemma_run_bound(s@, i as int, k);
    }
    let mut j: usize = i;
    while j < s.len() && in_class_exec(s[j], &k)
        invariant
            i <= j <= s@.len(),
            i + run(s@, i as int, k) <= s@.len(),
            forall|m: int| i <= m < j ==> in_class(#[trigger] s@[m], k),
        decreases s@.len() - j,
    {
        j += 1;
    }
    proof {
        lemma_run_split(s@, i as int, j as int, k);
    }
    j
}

/// Appends `v[lo..hi]` to `out`.
pub fn extend_range(out: &mut Vec<char>, v: &Vec<char>, lo: usize, hi: usize)
    requires
        lo <= hi <= v@.len(),
    ensures
        final(out)@ == old(out)@ + v@.subrange(lo as int, hi as int),
{
    let mut i: usize = lo;
    while i < hi
        invariant
            lo <= i <= hi <= v@.len(),
            out@ == old(out)@ + v@.subrange(lo as int, i as int),
        decreases hi - i,
    {
        out.push(v[i]);
        i += 1;
        assert(v@.subrange(lo as int, i as int) == v@.subrange(lo as int, i - 1).push(v@[i - 1]));
    }
}

/// Relies on `String::push`: appends one character.
#[verifier::external_body]
pub fn push_char(s: &mut String, c: char)
    ensures
        final(s)@ == old(s)@.push(c),
{
    s.push(c)
}

/// The characters of `s`, in order.
pub fn chars_of(s: &str) -> (r: Vec<char>)
    ensures
        r@ == s@,
{
    let mut r: Vec<char> = Vec::new();
    for c in it: s.chars()
        invariant
            r@ == it.seq().take(it.index() as int),
    {
        r.push(c);
    }
    r
}

/// Appends the characters of `cs` to `s`.
pub fn push_chars(s: &mut String, cs: &Vec<char>)
    ensures
        final(s)@ == old(s)@ + cs@,
{
    let mut i: usize = 0;
    while i < cs.len()
        invariant
            i <= cs@.len(),
            s@ == old(s)@ + cs@.take(i as int),
        decreases cs@.len() - i,
    {
        push_char(s, cs[i]);
        i += 1;
        assert(cs@.take(i as int) == cs@.take(i - 1).push(cs@[i - 1]));
    }
    assert(cs@.take(i as int) == cs@);
}

/// A string holding the characters of `cs`.
pub fn string_of(cs: &Vec<char>) -> (r: String)
    ensures
        r@ == cs@,
{
    let mut r = String::new();
    push_chars(&mut r, cs);
    r
}

/// The lines of `s`: the pieces between `\n` characters, the first before
/// any and the last after all of them. A text always has at least one line.
pub open spec fn split_lines(s: Seq<char>) -> Seq<Seq<char>>
    decreases s.len(),
{
    if s.len() == 0 {
        seq![Seq::empty()]
    } else {
        let pre = split_lines(s.drop_last());
        if s.last() == '\n' {
            pre.push(Seq::empty())
        } else {
            pre.update(pre.len() - 1, pre.last().push(s.last()))
        }
    }
}

/// The lines `ls` joined with `\n` between each two.
pub open spec fn join_lines(ls: Seq<Seq<char>>) -> Seq<char>
    decreases ls.len(),
{
    if ls.len() == 0 {
        Seq::empty()
    } else if ls.len() == 1 {
        ls[0]
    } else {
        join_lines(ls.drop_last()) + seq!['\n'] + ls.last()
    }
}

/// `s` holds no `\n`.
pub open spec fn one_line(s: Seq<char>) -> bool {
    forall|i: int| 0 <= i < s.len() ==> s[i] != '\n'
}

/// A text has at least one line, and none of its lines holds a `\n`.
pub proof fn lemma_split_lines(s: Seq<char>)
    ensures
        split_lines(s).len() >= 1,
        forall|i: int| 0 <= i < split_lines(s).len() ==> one_line(#[trigger] split_lines(s)[i]),
    decreases s.len(),
{
    if s.len() > 0 {
        lemma_split_lines(s.drop_last());
    }
}

/// A text without `\n` is one line.
pub proof fn lemma_split_one_line(b: Seq<char>)
    requires
        one_line(b),
    ensures
        split_lines(b) == seq![b],
    decreases b.len(),
{
    if b.len() > 0 {
        assert(one_line(b.drop_last()));
        lemma_split_one_line(b.drop_last());
        assert(b.last() != '\n');
        assert(b.drop_last().push(b.last()) =~= b);
        assert(seq![b.drop_last()].update(0, b) =~= seq![b]);
    } else {
        assert(b =~= Seq::empty());
    }
}

/// A `\n` followed by a text without one adds that text as a last line.
pub proof fn lemma_split_append_line(a: Seq<char>, b: Seq<char>)
    requires
        one_line(b),
    ensures
        split_lines(a + seq!['\n'] + b) == split_lines(a).push(b),
    decreases b.len(),
{
    let x = a + seq!['\n'] + b;
    if b.len() == 0 {
        assert(x.drop_last() =~= a);
        assert(x.last() == '\n');
        assert(b =~= Seq::empty());
    } else {
        assert(one_line(b.drop_last()));
        assert(b.last() != '\n');
        lemma_split_append_line(a, b.drop_last());
        assert(x.drop_last() =~= a + seq!['\n'] + b.drop_last());
        assert(x.last() == b.last());
        assert(b.drop_last().push(b.last()) =~= b);
        let pre = split_lines(a).push(b.drop_last());
        assert(pre.update(pre.len() - 1, pre.last().push(b.last())) =~= split_lines(a).push(b));
    }
}

/// Splitting lines that were joined gives them back.
pub proof fn lemma_split_join(ls: Seq<Seq<char>>)
    requires
        ls.len() >= 1,
        forall|i: int| 0 <= i < ls.len() ==> one_line(#[trigger] ls[i]),
    ensures
        split_lines(join_lines(ls)) == ls,
    decreases ls.len(),
{
    if ls.len() == 1 {
        lemma_split_one_line(ls[0]);
        assert(ls == seq![ls[0]]);
    } else {
        lemma_split_join(ls.drop_last());
        assert(one_line(ls[ls.len() - 1]));
        lemma_split_append_line(join_lines(ls.drop_last()), ls.last());
        assert(ls.drop_last().push(ls.last()) == ls);
    }
}

/// The texts that the vectors of `ls` hold.
pub open spec fn views(ls: Seq<Vec<char>>) -> Seq<Seq<char>> {
    ls.map_values(|l: Vec<char>| l@)
}

/// The lines of `t`, as [`split_lines`] says.
pub fn lines_of(t: &Vec<char>) -> (r: Vec<Vec<char>>)
    ensures
        views(r@) == split_lines(t@),
{
    let mut lines: Vec<Vec<char>> = Vec::new();
    let mut cur: Vec<char> = Vec::new();
    let mut i: usize = 0;
    assert(t@.take(0) == Seq::<char>::empty());
    while i < t.len()
        invariant
            i <= t@.len(),
            views(lines@).push(cur@) == split_lines(t@.take(i as int)),
        decreases t@.len() - i,
    {
        let c = t[i];
        assert(t@.take(i + 1).drop_last() == t@.take(i as int));
        let ghost pre = views(lines@).push(cur@);
        if c == '\n' {
            lines.push(cur);
            cur = Vec::new();
            assert(views(lines@) =~= pre);
            assert(views(lines@).push(cur@) =~= pre.push(Seq::empty()));
        } else {
            let ghost old_lines = views(lines@);
            cur.push(c);
            assert(views(lines@) == old_lines);
            assert(views(lines@).push(cur@) =~= pre.update(pre.len() - 1, pre.last().push(c)));
        }
        i += 1;
    }
    assert(t@.take(i as int) == t@);
    let ghost last = views(lines@).push(cur@);
    lines.push(cur);
    assert(views(lines@) =~= last);
    lines
}

/// The lines `ls` joined with `\n`, as [`join_lines`] says.
pub fn join_of(ls: &Vec<Vec<char>>) -> (r: String)
    ensures
        r@ == join_lines(views(ls@)),
{
    let mut out = String::new();
    let mut i: usize = 0;
    while i < ls.len()
        invariant
            i <= ls@.len(),
            out@ == join_lines(views(ls@).take(i as int)),
        decreases ls@.len() - i,
    {
        let ghost before = views(ls@).take(i as int);
        assert(views(ls@).take(i + 1).drop_last() =~= before);
        if i > 0 {
            push_char(&mut out, '\n');
        }
        push_chars(&mut out, &ls[i]);
        i += 1;
        assert(views(ls@).take(i as int).last() == ls[i - 1]@);
    }
    assert(views(ls@).take(i as int) == views(ls@));
    out
}

/// `c` in lower case, for ASCII letters; any other character as it is.
pub open spec fn lower(c: char) -> char {
    if 'A' <= c && c <= 'Z' {
        ((c as u8) + 32) as char
    } else {
        c
    }
}

/// `s` with ASCII letters in lower case when `ci` holds, else `s` itself.
pub open spec fn fold(s: Seq<char>, ci: bool) -> Seq<char> {
    if ci {
        s.map_values(|c: char| lower(c))
    } else {
        s
    }
}

/// `lit` stands in `s` at index `i`; when `ci` holds, ASCII letters of `s`
/// are read in lower case (`lit` is then written in lower case).
pub open spec fn lit_at(s: Seq<char>, i: int, lit: Seq<char>, ci: bool) -> bool {
    0 <= i && i + lit.len() <= s.len() && fold(s.subrange(i, i + lit.len()), ci) == lit
}

/// The `n` characters of `s` from index `i` on are word characters.
pub open spec fn words_at(s: Seq<char>, i: int, n: int) -> bool {
    0 <= i && i + n <= s.len() && forall|j: int| i <= j < i + n ==> is_word(#[trigger] s[j])
}

/// `key` is `color` and one or more digits (`color` of any case when `ci`
/// holds).
pub open spec fn numbered(key: Seq<char>, ci: bool) -> bool {
    key.len() > 5 && fold(key.take(5), ci) == "color"@ && forall|j: int|
        5 <= j < key.len() ==> is_digit(#[trigger] key[j])
}

/// `key` is one of `words` (read in lower case when `ci` holds).
pub open spec fn in_lexicon(key: Seq<char>, words: Seq<Seq<char>>, ci: bool) -> bool {
    words.contains(fold(key, ci))
}

/// Whether `s[lo..hi]`, read as [`fold`] says, is `lit`.
pub fn same_as(s: &Vec<char>, lo: usize, hi: usize, lit: &Vec<char>, ci: bool) -> (r: bool)
    requires
        lo <= hi <= s@.len(),
    ensures
        r == (fold(s@.subrange(lo as int, hi as int), ci) == lit@),
{
    if hi - lo != lit.len() {
        assert(fold(s@.subrange(lo as int, hi as int), ci).len() != lit@.len());
        return false;
    }
    let mut j: usize = 0;
    while j < lit.len()
        invariant
            hi - lo == lit@.len(),
            lo <= hi <= s@.len(),
            j <= lit@.len(),
            forall|m: int| 0 <= m < j ==> #[trigger] fold(s@.subrange(lo as int, hi as int), ci)[m] == lit@[m],
        decreases lit@.len() - j,
    {
        let c = s[lo + j];
        let d = if ci && 'A' <= c && c <= 'Z' {
            ((c as u8) + 32) as char
        } else {
            c
        };
        if d != lit[j] {
            assert(fold(s@.subrange(lo as int, hi as int), ci)[j as int] != lit@[j as int]);
            return false;
        }
        j += 1;
    }
    assert(fold(s@.subrange(lo as int, hi as int), ci) =~= lit@);
    true
}

/// Whether `lit` stands in `s` at `i`, as [`lit_at`] says.
pub fn lit_at_exec(s: &Vec<char>, i: usize, lit: &str, ci: bool) -> (r: bool)
    ensures
        r == lit_at(s@, i as int, lit@, ci),
{
    let l = chars_of(lit);
    if l.len() > s.len() || i > s.len() - l.len() {
        return false;
    }
    same_as(s, i, i + l.len(), &l, ci)
}

/// Whether `n` word characters follow in `s` from `i` on.
pub fn words_at_exec(s: &Vec<char>, i: usize, n: usize) -> (r: bool)
    ensures
        r == words_at(s@, i as int, n as int),
{
    if n > s.len() || i > s.len() - n {
        return false;
    }
    let e = run_end(s, i, CharClass::Word);
    proof {
        lemma_run_bound(s@, i as int, CharClass::Word);
    }
    e >= i + n
}

/// Whether `s[lo..hi]` is `color` and digits, as [`numbered`] says.
pub fn numbered_exec(s: &Vec<char>, lo: usize, hi: usize, ci: bool) -> (r: bool)
    requires
        lo <= hi <= s@.len(),
    ensures
        r == numbered(s@.subrange(lo as int, hi as int), ci),
{
    let ghost key = s@.subrange(lo as int, hi as int);
    proof {
        reveal_strlit("color");
    }
    if hi - lo <= 5 {
        return false;
    }
    assert(key.take(5) == s@.subrange(lo as int, lo + 5));
    if !lit_at_exec(s, lo, "color", ci) {
        return false;
    }
    let e = run_end(s, lo + 5, CharClass::Digit);
    proof {
        lemma_run_bound(s@, lo + 5, CharClass::Digit);
        if e < hi {
            assert(!is_digit(key[e - lo]));
        } else {
            assert forall|j: int| 5 <= j < key.len() implies is_digit(#[trigger] key[j]) by {
                assert(key[j] == s@[lo + j]);
            }
        }
    }
    e >= hi
}

/// Whether `s[lo..hi]` is one of `words`, as [`in_lexicon`] says.
pub fn in_lexicon_exec(s: &Vec<char>, lo: usize, hi: usize, words: &Vec<Vec<char>>, ci: bool) -> (r: bool)
    requires
        lo <= hi <= s@.len(),
    ensures
        r == in_lexicon(s@.subrange(lo as int, hi as int), views(words@), ci),
{
    let ghost key = fold(s@.subrange(lo as int, hi as int), ci);
    let mut k: usize = 0;
    while k < words.len()
        invariant
            k <= words@.len(),
            lo <= hi <= s@.len(),
            key == fold(s@.subrange(lo as int, hi as int), ci),
            forall|m: int| 0 <= m < k ==> views(words@)[m] != key,
        decreases words@.len() - k,
    {
        assert(views(words@)[k as int] == words@[k as int]@);
        if same_as(s, lo, hi, &words[k], ci) {
            assert(views(words@)[k as int] == key);
            return true;
        }
        k += 1;
    }
    false
}

} // verus!
