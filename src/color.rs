//! Colour values and their textual forms.
use crate::text::{extend_range, is_digit, lemma_run_bound, lemma_run_split, run, CharClass};
use crate::theme::AppError;
use vstd::prelude::*;

verus! {

/// A signed decimal number `mantissa / 10^scale`, negated when `negative`.
///
/// It holds the opacity of a colour exactly as written in decimal, so that
/// the rendered form gives back the digits it was read from.
#[derive(Clone, Copy, Debug, PartialEq, Eq)]
pub struct Alpha {
    pub negative: bool,
    pub mantissa: u64,
    pub scale: u8,
}

/// A colour: red, green and blue channels and an opacity.
#[derive(Clone, Copy, Debug, PartialEq, Eq)]
pub struct RGBA(pub u8, pub u8, pub u8, pub Alpha);

/// What a theme catalogue may give for a colour: a `#RRGGBB` string, or the
/// four channels.
pub enum ColorEntry {
    Hex(String),
    Channels(u8, u8, u8, Alpha),
}

/// Full opacity, the value of a colour given in hexadecimal.
pub open spec fn opaque() -> Alpha {
    Alpha { negative: false, mantissa: 1, scale: 0 }
}

/// The character of a hexadecimal digit below sixteen, in lower case.
pub open spec fn hex_char(n: nat) -> char {
    if n < 10 {
        (n + 48) as char
    } else {
        (n + 87) as char
    }
}

/// Two lower-case hexadecimal digits, zero padded.
pub open spec fn hex_byte(b: u8) -> Seq<char> {
    seq![hex_char(b as nat / 16), hex_char(b as nat % 16)]
}

/// The character of a decimal digit.
pub open spec fn digit_char(n: nat) -> char {
    (n % 10 + 48) as char
}

/// The decimal digits of `n`, without padding.
pub open spec fn decimal(n: nat) -> Seq<char>
    decreases n,
{
    if n < 10 {
        seq![digit_char(n)]
    } else {
        decimal(n / 10).push(digit_char(n % 10))
    }
}

fn hex_digit(n: u8) -> (c: char)
    requires
        n < 16,
    ensures
        c == hex_char(n as nat),
{
    if n < 10 {
        (n + 48) as char
    } else {
        (n + 87) as char
    }
}

fn push_decimal(out: &mut Vec<char>, n: u64)
    ensures
        final(out)@ == old(out)@ + decimal(n as nat),
    decreases n,
{
    if n >= 10 {
        push_decimal(out, n / 10);
    }
    out.push(((n % 10) as u8 + 48) as char);
}

/// `n` zero characters.
pub open spec fn zeros(n: nat) -> Seq<char> {
    Seq::new(n, |i: int| '0')
}

/// The digits `d` with a `.` placed `s` digits from the right, a `0` in
/// front of the `.` and zeros after it where the digits are too few.
pub open spec fn point_digits(d: Seq<char>, s: nat) -> Seq<char> {
    if s == 0 {
        d
    } else if d.len() <= s {
        seq!['0', '.'] + zeros((s - d.len()) as nat) + d
    } else {
        d.take(d.len() - s) + seq!['.'] + d.skip(d.len() - s)
    }
}

/// The decimal form of an opacity: a `-` when negative, then the digits of
/// the mantissa with a `.` placed `scale` digits from the right, a `0` in
/// front of the `.` and zeros after it where the digits are too few.
pub open spec fn alpha_text(a: Alpha) -> Seq<char> {
    let body = point_digits(decimal(a.mantissa as nat), a.scale as nat);
    if a.negative {
        seq!['-'] + body
    } else {
        body
    }
}

/// `#` and two lower-case hexadecimal digits for each of red, green, blue.
pub open spec fn hex_text(c: RGBA) -> Seq<char> {
    seq!['#'] + hex_byte(c.0) + hex_byte(c.1) + hex_byte(c.2)
}

/// `rgba(R,G,B,A)`, channels in decimal, the opacity as [`alpha_text`].
pub open spec fn rgba_text(c: RGBA) -> Seq<char> {
    seq!['r', 'g', 'b', 'a', '('] + decimal(c.0 as nat) + seq![','] + decimal(c.1 as nat)
        + seq![','] + decimal(c.2 as nat) + seq![','] + alpha_text(c.3) + seq![')']
}

/// The value of a hexadecimal digit of either case.
pub open spec fn hex_value(c: char) -> Option<nat> {
    if '0' <= c && c <= '9' {
        Some((c as nat - 48) as nat)
    } else if 'a' <= c && c <= 'f' {
        Some((c as nat - 87) as nat)
    } else if 'A' <= c && c <= 'F' {
        Some((c as nat - 55) as nat)
    } else {
        None
    }
}

/// The byte written by the hexadecimal digits `hi` and `lo`.
pub open spec fn hex_pair(hi: char, lo: char) -> u8 {
    (hex_value(hi)->0 * 16 + hex_value(lo)->0) as u8
}

/// `s` is `#` followed by six hexadecimal digits.
pub open spec fn is_hex_color(s: Seq<char>) -> bool {
    &&& s.len() == 7
    &&& s[0] == '#'
    &&& forall|i: int| 1 <= i < 7 ==> (#[trigger] hex_value(s[i])) is Some
}

/// The opaque colour that a `#RRGGBB` string names.
pub open spec fn hex_color(s: Seq<char>) -> RGBA {
    RGBA(hex_pair(s[1], s[2]), hex_pair(s[3], s[4]), hex_pair(s[5], s[6]), opaque())
}

/// The message of the error given for a malformed hexadecimal colour.
pub open spec fn hex_format_message() -> Seq<char> {
    "Hex color string must be of format #ABCDEF"@
}

/// The colour a catalogue entry stands for, if it is well formed.
pub open spec fn entry_color(e: ColorEntry) -> Option<RGBA> {
    match e {
        ColorEntry::Hex(s) => if is_hex_color(s@) {
            Some(hex_color(s@))
        } else {
            None
        },
        ColorEntry::Channels(r, g, b, a) => Some(RGBA(r, g, b, a)),
    }
}

/// The number written by a run of decimal digits.
pub open spec fn digits_value(s: Seq<char>) -> nat
    decreases s.len(),
{
    if s.len() == 0 {
        0
    } else {
        digits_value(s.drop_last()) * 10 + (s.last() as nat - 48) as nat
    }
}

/// The opacity written `s`: an optional `-`, one or more digits, and
/// optionally a `.` and one or more digits; none where `s` has another
/// shape, where the digits make a number of more than 64 bits, or where more
/// than 255 digits follow the `.`.
pub open spec fn alpha_of(s: Seq<char>) -> Option<Alpha> {
    let negative = s.len() > 0 && s[0] == '-';
    let st: int = if negative { 1 } else { 0 };
    let e = st + run(s, st, CharClass::Digit);
    let frac = s.skip(e + 1);
    if e == st {
        None
    } else if e == s.len() {
        let m = digits_value(s.subrange(st, e));
        if m <= u64::MAX {
            Some(Alpha { negative, mantissa: m as u64, scale: 0 })
        } else {
            None
        }
    } else if s[e] == '.' && frac.len() > 0 && run(s, e + 1, CharClass::Digit) == frac.len() {
        let m = digits_value(s.subrange(st, e) + frac);
        if m <= u64::MAX && frac.len() <= 255 {
            Some(Alpha { negative, mantissa: m as u64, scale: frac.len() as u8 })
        } else {
            None
        }
    } else {
        None
    }
}

/// A longer run of digits writes a number at least as large.
proof fn lemma_digits_value_grows(a: Seq<char>, b: Seq<char>)
    ensures
        digits_value(a) <= digits_value(a + b),
    decreases b.len(),
{
    if b.len() > 0 {
        lemma_digits_value_grows(a, b.drop_last());
        assert((a + b).drop_last() == a + b.drop_last());
    }
}

/// Appends to `acc`, the value of the digits `head`, the digits of `s` from
/// `i` on while they last. Gives the index where they stop and the value of
/// `head` and the digits read, or `None` when that value passes 64 bits.
fn read_digits(s: &Vec<char>, i: usize, acc: u64, head: Ghost<Seq<char>>) -> (r: Option<(usize, u64)>)
    requires
        i <= s@.len(),
        acc == digits_value(head@),
    ensures
        i + run(s@, i as int, CharClass::Digit) <= s@.len(),
        ({
            let e = i + run(s@, i as int, CharClass::Digit);
            match r {
                Some((j, m)) => j == e && m == digits_value(head@ + s@.subrange(i as int, e)),
                None => digits_value(head@ + s@.subrange(i as int, e)) > u64::MAX,
            }
        }),
{
    proof {
        lemma_run_bound(s@, i as int, CharClass::Digit);
    }
    let mut j: usize = i;
    let mut m: u64 = acc;
    while j < s.len() && '0' <= s[j] && s[j] <= '9'
        invariant
            i <= j <= s@.len(),
            i + run(s@, i as int, CharClass::Digit) <= s@.len(),
            forall|k: int| i <= k < j ==> is_digit(#[trigger] s@[k]),
            m == digits_value(head@ + s@.subrange(i as int, j as int)),
        decreases s@.len() - j,
    {
        let ghost prev = head@ + s@.subrange(i as int, j as int);
        assert(head@ + s@.subrange(i as int, j + 1) == prev.push(s@[j as int]));
        assert(prev.push(s@[j as int]).drop_last() == prev);
        let d = (s[j] as u32 - 48) as u64;
        assert(digits_value(prev.push(s@[j as int])) == m * 10 + d);
        if m > (u64::MAX - d) / 10 {
            assert(m * 10 + d > u64::MAX) by (nonlinear_arith)
                requires
                    m > (u64::MAX - d) / 10,
                    d <= 9,
            ;
            proof {
                lemma_digit_tail(s@, i as int, j as int, head@);
            }
            return None;
        }
        assert(m * 10 + d <= u64::MAX) by (nonlinear_arith)
            requires
                m <= (u64::MAX - d) / 10,
                d <= 9,
        ;
        m = m * 10 + d;
        j += 1;
    }
    proof {
        lemma_run_split(s@, i as int, j as int, CharClass::Digit);
    }
    Some((j, m))
}

/// Once the digits read so far write a number past 64 bits, so do all the
/// digits of the run.
proof fn lemma_digit_tail(s: Seq<char>, i: int, j: int, head: Seq<char>)
    requires
        0 <= i <= j < s.len(),
        forall|k: int| i <= k <= j ==> is_digit(#[trigger] s[k]),
        digits_value(head + s.subrange(i, j + 1)) > u64::MAX,
    ensures
        digits_value(head + s.subrange(i, i + run(s, i, CharClass::Digit))) > u64::MAX,
{
    lemma_run_split(s, i, j + 1, CharClass::Digit);
    lemma_run_bound(s, i, CharClass::Digit);
    let e = i + run(s, i, CharClass::Digit);
    lemma_digits_value_grows(head + s.subrange(i, j + 1), s.subrange(j + 1, e));
    assert(head + s.subrange(i, j + 1) + s.subrange(j + 1, e) =~= head + s.subrange(i, e));
}

impl Alpha {
    /// Full opacity.
    pub fn opaque() -> (a: Alpha)
        ensures
            a == opaque(),
    {
        Alpha { negative: false, mantissa: 1, scale: 0 }
    }

    /// Reads an opacity written in decimal, as [`alpha_of`] says.
    pub fn parse(text: &str) -> (r: Option<Alpha>)
        ensures
            r == alpha_of(text@),
    {
        let s = crate::text::chars_of(text);
        let negative = s.len() > 0 && s[0] == '-';
        let st: usize = if negative { 1 } else { 0 };
        let ghost empty = Seq::<char>::empty();
        assert(empty + s@.subrange(st as int, st as int) == empty);
        match read_digits(&s, st, 0, Ghost(empty)) {
            None => {
                proof {
                    let e = st + run(s@, st as int, CharClass::Digit);
                    assert(empty + s@.subrange(st as int, e) == s@.subrange(st as int, e));
                    lemma_digits_value_grows(s@.subrange(st as int, e), s@.skip(e + 1));
                }
                assert(alpha_of(s@) is None);
                None
            },
            Some((e, m)) => {
                assert(empty + s@.subrange(st as int, e as int) == s@.subrange(st as int, e as int));
                if e == st {
                    None
                } else if e == s.len() {
                    Some(Alpha { negative, mantissa: m, scale: 0 })
                } else if s[e] != '.' || e + 1 == s.len() {
                    assert(alpha_of(s@) is None);
                    None
                } else {
                    let ghost int_part = s@.subrange(st as int, e as int);
                    assert(int_part + s@.subrange(e + 1, e + 1) == int_part);
                    match read_digits(&s, e + 1, m, Ghost(int_part)) {
                        None => {
                            proof {
                                let f = e + 1 + run(s@, e + 1, CharClass::Digit);
                                if f == s@.len() {
                                    assert(s@.subrange(e + 1, f) == s@.skip(e + 1));
                                }
                            }
                            assert(alpha_of(s@) is None);
                            None
                        },
                        Some((f, m2)) => {
                            if f != s.len() || f - (e + 1) > 255 {
                                assert(s@.skip(e + 1).len() == s@.len() - (e + 1));
                                assert(alpha_of(s@) is None);
                                None
                            } else {
                                assert(s@.subrange(e + 1, f as int) == s@.skip(e + 1));
                                Some(Alpha { negative, mantissa: m2, scale: (f - (e + 1)) as u8 })
                            }
                        },
                    }
                }
            },
        }
    }

    fn push_text(&self, out: &mut Vec<char>)
        ensures
            final(out)@ == old(out)@ + alpha_text(*self),
    {
        if self.negative {
            out.push('-');
        }
        let mut d: Vec<char> = Vec::new();
        push_decimal(&mut d, self.mantissa);
        assert(d@ == decimal(self.mantissa as nat));
        push_point_digits(out, &d, self.scale as usize);
    }
}

fn push_point_digits(out: &mut Vec<char>, d: &Vec<char>, s: usize)
    ensures
        final(out)@ == old(out)@ + point_digits(d@, s as nat),
{
    assert(d@.subrange(0, d@.len() as int) == d@);
    if s == 0 {
        extend_range(out, d, 0, d.len());
    } else if d.len() <= s {
        out.push('0');
        out.push('.');
        let mut k: usize = d.len();
        while k < s
            invariant
                d@.len() <= k <= s,
                out@ == old(out)@ + seq!['0', '.'] + zeros((k - d@.len()) as nat),
            decreases s - k,
        {
            out.push('0');
            k += 1;
            assert(zeros((k - d@.len()) as nat) == zeros((k - 1 - d@.len()) as nat).push('0'));
        }
        extend_range(out, d, 0, d.len());
    } else {
        let cut = d.len() - s;
        extend_range(out, d, 0, cut);
        out.push('.');
        extend_range(out, d, cut, d.len());
        assert(d@.subrange(0, cut as int) == d@.take(cut as int));
        assert(d@.subrange(cut as int, d@.len() as int) == d@.skip(cut as int));
    }
}

fn push_hex_byte(out: &mut Vec<char>, b: u8)
    ensures
        final(out)@ == old(out)@ + hex_byte(b),
{
    out.push(hex_digit(b / 16));
    out.push(hex_digit(b % 16));
}

fn hex_digit_value(c: char) -> (r: Option<u8>)
    ensures
        r is Some == hex_value(c) is Some,
        r is Some ==> r->0 as nat == hex_value(c)->0,
{
    if '0' <= c && c <= '9' {
        Some((c as u32 - 48) as u8)
    } else if 'a' <= c && c <= 'f' {
        Some((c as u32 - 87) as u8)
    } else if 'A' <= c && c <= 'F' {
        Some((c as u32 - 55) as u8)
    } else {
        None
    }
}

impl RGBA {
    /// The channels in the form `#rrggbb`, lower case; the opacity is left
    /// out.
    pub fn to_hex(&self) -> (r: String)
        ensures
            r@ == hex_text(*self),
    {
        let mut out: Vec<char> = Vec::new();
        out.push('#');
        push_hex_byte(&mut out, self.0);
        push_hex_byte(&mut out, self.1);
        push_hex_byte(&mut out, self.2);
        crate::text::string_of(&out)
    }

    /// The colour in the form `rgba(R,G,B,A)`.
    pub fn to_rgba(&self) -> (r: String)
        ensures
            r@ == rgba_text(*self),
    {
        let mut out: Vec<char> = Vec::new();
        out.push('r');
        out.push('g');
        out.push('b');
        out.push('a');
        out.push('(');
        push_decimal(&mut out, self.0 as u64);
        out.push(',');
        push_decimal(&mut out, self.1 as u64);
        out.push(',');
        push_decimal(&mut out, self.2 as u64);
        out.push(',');
        self.3.push_text(&mut out);
        out.push(')');
        assert(out@ =~= rgba_text(*self));
        crate::text::string_of(&out)
    }

    /// Reads a colour written `#RRGGBB`, digits of either case, as fully
    /// opaque; any other text is an error.
    pub fn from_hex(s: &str) -> (r: Result<RGBA, AppError>)
        ensures
            r is Ok <==> is_hex_color(s@),
            r is Ok ==> r->Ok_0 == hex_color(s@),
            r matches Err(AppError::ConversionError { msg }) ==> msg@ == hex_format_message(),
    {
        let cs = crate::text::chars_of(s);
        if cs.len() != 7 || cs[0] != '#' {
            return Err(hex_format_error());
        }
        let mut vals: Vec<u8> = Vec::new();
        let mut i: usize = 1;
        while i < 7
            invariant
                1 <= i <= 7,
                cs@ == s@,
                cs@.len() == 7,
                vals@.len() == i - 1,
                forall|k: int| 1 <= k < i ==> (#[trigger] hex_value(cs@[k])) is Some,
                forall|k: int| 1 <= k < i ==> vals@[k - 1] as nat == hex_value(#[trigger] cs@[k])->0,
            decreases 7 - i,
        {
            match hex_digit_value(cs[i]) {
                Some(v) => vals.push(v),
                None => {
                    return Err(hex_format_error());
                },
            }
            i += 1;
        }
        proof {
            assert(hex_value(cs@[1]) is Some && hex_value(cs@[2]) is Some);
            assert(hex_value(cs@[3]) is Some && hex_value(cs@[4]) is Some);
            assert(hex_value(cs@[5]) is Some && hex_value(cs@[6]) is Some);
        }
        Ok(RGBA(
            vals[0] * 16 + vals[1],
            vals[2] * 16 + vals[3],
            vals[4] * 16 + vals[5],
            Alpha::opaque(),
        ))
    }

    /// The colour a catalogue entry stands for; an error for a string that
    /// is not `#RRGGBB`.
    pub fn from_entry(e: ColorEntry) -> (r: Result<RGBA, AppError>)
        ensures
            r is Ok <==> entry_color(e) is Some,
            r is Ok ==> r->Ok_0 == entry_color(e)->0,
    {
        match e {
            ColorEntry::Hex(s) => RGBA::from_hex(s.as_str()),
            ColorEntry::Channels(r, g, b, a) => Ok(RGBA(r, g, b, a)),
        }
    }
}

fn hex_format_error() -> (e: AppError)
    ensures
        e matches AppError::ConversionError { msg } && msg@ == hex_format_message(),
{
    let msg = "Hex color string must be of format #ABCDEF".to_owned();
    proof {
        reveal_strlit("Hex color string must be of format #ABCDEF");
    }
    AppError::ConversionError { msg }
}

} // verus!
