//! Backslash escapes of single characters.

use vstd::prelude::*;

use crate::text::char_from_u32;
use crate::parsing_spec::spec_file::escape_default_text;
use crate::parsing_spec::spec_file::hex_char;
use crate::parsing_spec::spec_file::hex_text;
use crate::parsing_spec::spec_file::push_escaped;
use crate::text::hex_digit_value;
use crate::text::hex_value;

verus! {

/// A character to be shown with backslash escapes.
#[derive(Debug, Clone, Copy, PartialEq, Eq, Structural)]
pub struct Escaped {
    pub ch: char,
}

/// Why an escape sequence was rejected.
#[derive(Debug, Clone, Copy, PartialEq, Eq, Structural)]
pub enum InvalidEscape {
    /// The input ended right after the backslash.
    Eof,
    /// A malformed `u{...}` code point.
    MalformedCodePoint,
    /// An unknown escape character.
    Unknown(char),
    /// A code point that is not a Unicode scalar value.
    BadCodePoint(u32),
}

/// The byte written as two hexadecimal digits at `i`, if there are two.
pub open spec fn hex_pair(s: Seq<char>, i: int) -> Option<int> {
    if 0 <= i && i + 1 < s.len() && hex_value(s[i]) is Some && hex_value(s[i + 1]) is Some {
        Some(16 * hex_value(s[i])->0 + hex_value(s[i + 1])->0)
    } else {
        None
    }
}

/// Whether `v` is a Unicode scalar value.
pub open spec fn is_scalar(v: int) -> bool {
    (0 <= v < 0xD800) || (0xE000 <= v <= 0x10FFFF)
}

/// What [`Escaped::unescape`] reads from `s` (the text after a backslash):
/// the number of characters consumed and the code of the character
/// denoted, or the error.
///
/// A space, backslash or quote stands for itself; `t`, `r`, `n` for tab,
/// carriage return and newline; `u{..}` for the code point written as one,
/// two or three pairs of hexadecimal digits (as many as there are).
pub open spec fn unescape_spec(s: Seq<char>) -> Result<(int, int), InvalidEscape> {
    if s.len() == 0 {
        Err(InvalidEscape::Eof)
    } else {
        let c = s[0];
        if c == ' ' || c == '\\' || c == '\'' || c == '"' {
            Ok((1, c as int))
        } else if c == 't' {
            Ok((1, 9))
        } else if c == 'r' {
            Ok((1, 13))
        } else if c == 'n' {
            Ok((1, 10))
        } else if c == 'u' {
            if s.len() < 2 || s[1] != '{' {
                Err(InvalidEscape::MalformedCodePoint)
            } else {
                match hex_pair(s, 2) {
                    None => Err(InvalidEscape::MalformedCodePoint),
                    Some(b0) => {
                        let (code, p) = match hex_pair(s, 4) {
                            None => (b0, 4int),
                            Some(b1) => match hex_pair(s, 6) {
                                None => (b0 * 256 + b1, 6int),
                                Some(b2) => (b0 * 65536 + b1 * 256 + b2, 8int),
                            },
                        };
                        if p >= s.len() || s[p] != '}' {
                            Err(InvalidEscape::MalformedCodePoint)
                        } else if is_scalar(code) {
                            Ok((p + 1, code))
                        } else {
                            Err(InvalidEscape::BadCodePoint(code as u32))
                        }
                    },
                }
            }
        } else {
            Err(InvalidEscape::Unknown(c))
        }
    }
}

/// Reads two hexadecimal digits at `i`.
fn parse_hex_digit_pair(chars: &Vec<char>, i: usize) -> (r: Option<u32>)
    ensures
        match hex_pair(chars@, i as int) {
            Some(v) => r matches Some(x) && x as int == v,
            None => r is None,
        },
{
    if i < chars.len() && chars.len() - i >= 2 {
        match (hex_digit_value(chars[i]), hex_digit_value(chars[i + 1])) {
            (Some(upper), Some(lower)) => {
                proof {
                    assert(upper < 16 && lower < 16) by {
                        assert(hex_value(chars@[i as int]) is Some);
                    }
                }
                Some(upper * 16 + lower)
            },
            _ => None,
        }
    } else {
        None
    }
}

/// A character shown as a backslash and one more character is read back
/// from that character.
pub proof fn lemma_short_escape_round_trip(c: char)
    requires
        escape_default_text(c).len() == 2,
    ensures
        escape_default_text(c)[0] == '\\',
        unescape_spec(escape_default_text(c).drop_first()) == Ok::<(int, int), InvalidEscape>((1, c as int)),
{
    let t = escape_default_text(c);
    if !(c == '\t' || c == '\r' || c == '\n' || c == '\\' || c == '\'' || c == '"') {
        if 0x20 <= c as int <= 0x7e {
            assert(t.len() == 1);
        } else {
            assert(t.len() == 4 + hex_text(c as nat).len());
        }
    }
    assert(t.drop_first()[0] == t[1]);
}

/// A lowercase hexadecimal digit is read back as its value.
proof fn lemma_hex_char_value(d: nat)
    requires
        d < 16,
    ensures
        hex_value(hex_char(d)) == Some(d as u32),
{
}

/// Two digits written for `n` are read back as `n`.
proof fn lemma_hex_pair_of(s: Seq<char>, i: int, n: nat)
    requires
        n < 256,
        0 <= i,
        i + 1 < s.len(),
        s[i] == hex_char(n / 16),
        s[i + 1] == hex_char(n % 16),
    ensures
        hex_pair(s, i) == Some(n as int),
{
    lemma_hex_char_value(n / 16);
    lemma_hex_char_value(n % 16);
}

/// The number of hexadecimal digits written for `n`.
proof fn lemma_hex_text_len(n: nat)
    requires
        n <= 0x10FFFF,
    ensures
        hex_text(n).len() == (if n < 16 {
            1int
        } else if n < 256 {
            2int
        } else if n < 4096 {
            3int
        } else if n < 65536 {
            4int
        } else if n < 0x100000 {
            5int
        } else {
            6int
        }),
    decreases n,
{
    if n >= 16 {
        lemma_hex_text_len(n / 16);
    }
}

/// The two digits written for `16 <= n < 256`.
proof fn lemma_hex_text_two(n: nat)
    requires
        16 <= n < 256,
    ensures
        hex_text(n) == seq![hex_char(n / 16), hex_char(n % 16)],
{
    assert(hex_text(n / 16) == seq![hex_char(n / 16)]);
    assert(hex_text(n / 16).push(hex_char(n % 16)) =~= seq![hex_char(n / 16), hex_char(n % 16)]);
}

/// The digits written for `256 <= n`: those of `n / 256`, then the two of
/// `n % 256`.
proof fn lemma_hex_text_split(n: nat)
    requires
        256 <= n,
    ensures
        hex_text(n) == hex_text(n / 256) + seq![hex_char((n % 256) / 16), hex_char(n % 16)],
{
    let m = n / 16;
    assert(m >= 16);
    assert(m / 16 == n / 256) by (nonlinear_arith)
        requires
            m == n / 16,
    ;
    assert(m % 16 == (n % 256) / 16) by (nonlinear_arith)
        requires
            m == n / 16,
    ;
    assert(hex_text(m) == hex_text(m / 16).push(hex_char(m % 16)));
    assert(hex_text(n) == hex_text(m).push(hex_char(n % 16)));
    assert(hex_text(n / 256).push(hex_char((n % 256) / 16)).push(hex_char(n % 16)) =~= hex_text(n / 256) + seq![
        hex_char((n % 256) / 16),
        hex_char(n % 16),
    ]);
}

/// The text `u{..}` around the digits `h`.
proof fn lemma_braced(s: Seq<char>, h: Seq<char>)
    requires
        s == seq!['u', '{'] + h + seq!['}'],
    ensures
        s.len() == h.len() + 3,
        s[0] == 'u' && s[1] == '{',
        forall|k: int| 0 <= k < h.len() ==> s[2 + k] == #[trigger] h[k],
        s[2 + h.len() as int] == '}',
{
    assert forall|k: int| 0 <= k < h.len() implies s[2 + k] == #[trigger] h[k] by {}
}

proof fn lemma_unescape_two(s: Seq<char>, n: nat)
    requires
        s == seq!['u', '{'] + hex_text(n) + seq!['}'],
        16 <= n < 256,
    ensures
        unescape_spec(s) == Ok::<(int, int), InvalidEscape>((s.len() as int, n as int)),
{
    lemma_hex_text_two(n);
    lemma_braced(s, hex_text(n));
    lemma_hex_pair_of(s, 2, n);
    assert(hex_pair(s, 4) is None);
}

proof fn lemma_unescape_four(s: Seq<char>, n: nat)
    requires
        s == seq!['u', '{'] + hex_text(n) + seq!['}'],
        4096 <= n < 65536,
        is_scalar(n as int),
    ensures
        unescape_spec(s) == Ok::<(int, int), InvalidEscape>((s.len() as int, n as int)),
{
    let hi = n / 256;
    let lo = n % 256;
    assert(16 <= hi < 256 && lo < 256 && hi * 256 + lo == n) by (nonlinear_arith)
        requires
            hi == n / 256,
            lo == n % 256,
            4096 <= n < 65536,
    ;
    let h = seq![hex_char(hi / 16), hex_char(hi % 16), hex_char(lo / 16), hex_char(lo % 16)];
    assert(hex_text(n) == h) by {
        lemma_hex_text_split(n);
        lemma_hex_text_two(hi);
        assert(lo % 16 == n % 16) by (nonlinear_arith)
            requires
                lo == n % 256,
        ;
        assert(hex_text(hi) + seq![hex_char(lo / 16), hex_char(n % 16)] =~= h);
    }
    lemma_braced(s, h);
    lemma_hex_pair_of(s, 2, hi);
    lemma_hex_pair_of(s, 4, lo);
    assert(hex_pair(s, 6) is None);
}

proof fn lemma_unescape_six(s: Seq<char>, n: nat)
    requires
        s == seq!['u', '{'] + hex_text(n) + seq!['}'],
        0x100000 <= n <= 0x10FFFF,
    ensures
        unescape_spec(s) == Ok::<(int, int), InvalidEscape>((s.len() as int, n as int)),
{
    let top = n / 65536;
    let mid = n / 256;
    let b1 = mid % 256;
    let b2 = n % 256;
    assert(16 <= top < 256 && b1 < 256 && b2 < 256 && mid / 256 == top && mid >= 256 && top * 65536 + b1 * 256 + b2
        == n && b1 % 16 == mid % 16 && b2 % 16 == n % 16) by (nonlinear_arith)
        requires
            top == n / 65536,
            mid == n / 256,
            b1 == mid % 256,
            b2 == n % 256,
            0x100000 <= n <= 0x10FFFF,
    ;
    let h = seq![
        hex_char(top / 16),
        hex_char(top % 16),
        hex_char(b1 / 16),
        hex_char(b1 % 16),
        hex_char(b2 / 16),
        hex_char(b2 % 16),
    ];
    assert(hex_text(n) == h) by {
        lemma_hex_text_split(n);
        lemma_hex_text_split(mid);
        lemma_hex_text_two(top);
        assert(hex_text(top) + seq![hex_char(b1 / 16), hex_char(mid % 16)] + seq![hex_char(b2 / 16), hex_char(n % 16)]
            =~= h);
    }
    lemma_braced(s, h);
    lemma_hex_pair_of(s, 2, top);
    lemma_hex_pair_of(s, 4, b1);
    lemma_hex_pair_of(s, 6, b2);
}

/// A character shown as `\u{..}` with an even number of hexadecimal
/// digits is read back from the text after the backslash.
pub proof fn lemma_code_point_escape_round_trip(c: char)
    requires
        escape_default_text(c).len() > 2,
        hex_text(c as nat).len() % 2 == 0,
    ensures
        escape_default_text(c)[0] == '\\',
        unescape_spec(escape_default_text(c).drop_first()) == Ok::<(int, int), InvalidEscape>(
            ((escape_default_text(c).len() - 1) as int, c as int),
        ),
{
    let n = c as nat;
    let t = escape_default_text(c);
    assert(!(c == '\t' || c == '\r' || c == '\n' || c == '\\' || c == '\'' || c == '"'));
    assert(!(0x20 <= c as int <= 0x7e));
    assert(t == seq!['\\', 'u', '{'] + hex_text(n) + seq!['}']);
    assert(t.drop_first() =~= seq!['u', '{'] + hex_text(n) + seq!['}']);
    lemma_hex_text_len(n);
    if n < 256 {
        lemma_unescape_two(t.drop_first(), n);
    } else if n < 65536 {
        lemma_unescape_four(t.drop_first(), n);
    } else {
        lemma_unescape_six(t.drop_first(), n);
    }
}

/// The hexadecimal digit for `d`, in upper case.
pub open spec fn upper_hex_digit(d: int) -> char {
    seq!['0', '1', '2', '3', '4', '5', '6', '7', '8', '9', 'A', 'B', 'C', 'D', 'E', 'F'][d]
}

/// `n` written as six upper-case hexadecimal digits, most significant first.
pub open spec fn upper_hex6(n: u32) -> Seq<char> {
    seq![
        upper_hex_digit(((n >> 20u32) & 0xfu32) as int),
        upper_hex_digit(((n >> 16u32) & 0xfu32) as int),
        upper_hex_digit(((n >> 12u32) & 0xfu32) as int),
        upper_hex_digit(((n >> 8u32) & 0xfu32) as int),
        upper_hex_digit(((n >> 4u32) & 0xfu32) as int),
        upper_hex_digit((n & 0xfu32) as int),
    ]
}

/// `c` with the letters `a` to `f` in upper case.
pub open spec fn upper_hex_letter(c: char) -> char {
    if c == 'a' {
        'A'
    } else if c == 'b' {
        'B'
    } else if c == 'c' {
        'C'
    } else if c == 'd' {
        'D'
    } else if c == 'e' {
        'E'
    } else if c == 'f' {
        'F'
    } else {
        c
    }
}

/// An upper-case digit is read as its value.
proof fn lemma_upper_hex_digit(d: int)
    requires
        0 <= d < 16,
    ensures
        hex_value(upper_hex_digit(d)) == Some(d as u32),
{
    let t = seq!['0', '1', '2', '3', '4', '5', '6', '7', '8', '9', 'A', 'B', 'C', 'D', 'E', 'F'];
    assert(upper_hex_digit(d) == t[d]);
    if d == 0 { assert(t[0] == '0'); } else if d == 1 { assert(t[1] == '1'); } else if d == 2 { assert(t[2] == '2'); }
    else if d == 3 { assert(t[3] == '3'); } else if d == 4 { assert(t[4] == '4'); } else if d == 5 { assert(t[5] == '5'); }
    else if d == 6 { assert(t[6] == '6'); } else if d == 7 { assert(t[7] == '7'); } else if d == 8 { assert(t[8] == '8'); }
    else if d == 9 { assert(t[9] == '9'); } else if d == 10 { assert(t[10] == 'A'); } else if d == 11 { assert(t[11] == 'B'); }
    else if d == 12 { assert(t[12] == 'C'); } else if d == 13 { assert(t[13] == 'D'); } else if d == 14 { assert(t[14] == 'E'); }
    else { assert(t[15] == 'F'); }
}

/// Every character is read back from `u{` and six upper-case hexadecimal
/// digits of its code point, then `}`: digits may be in upper case.
pub proof fn lemma_upper_case_code_point(c: char)
    ensures
        unescape_spec(seq!['u', '{'] + upper_hex6(c as u32) + seq!['}']) == Ok::<(int, int), InvalidEscape>(
            (9, c as int),
        ),
{
    let n = c as u32;
    let s = seq!['u', '{'] + upper_hex6(n) + seq!['}'];
    let h = upper_hex6(n);
    lemma_braced(s, h);
    let d5 = ((n >> 20u32) & 0xfu32) as int;
    let d4 = ((n >> 16u32) & 0xfu32) as int;
    let d3 = ((n >> 12u32) & 0xfu32) as int;
    let d2 = ((n >> 8u32) & 0xfu32) as int;
    let d1 = ((n >> 4u32) & 0xfu32) as int;
    let d0 = (n & 0xfu32) as int;
    assert((n >> 20u32) & 0xfu32 < 16 && (n >> 16u32) & 0xfu32 < 16 && (n >> 12u32) & 0xfu32 < 16 && (n >> 8u32)
        & 0xfu32 < 16 && (n >> 4u32) & 0xfu32 < 16 && n & 0xfu32 < 16) by (bit_vector);
    lemma_upper_hex_digit(d5);
    lemma_upper_hex_digit(d4);
    lemma_upper_hex_digit(d3);
    lemma_upper_hex_digit(d2);
    lemma_upper_hex_digit(d1);
    lemma_upper_hex_digit(d0);
    assert(s[2] == h[0] && s[3] == h[1] && s[4] == h[2] && s[5] == h[3] && s[6] == h[4] && s[7] == h[5]);
    assert(hex_pair(s, 2) == Some(16 * d5 + d4));
    assert(hex_pair(s, 4) == Some(16 * d3 + d2));
    assert(hex_pair(s, 6) == Some(16 * d1 + d0));
    assert(n <= 0x10FFFF);
    assert((16 * ((n >> 20u32) & 0xfu32) + ((n >> 16u32) & 0xfu32)) * 65536 + (16 * ((n >> 12u32) & 0xfu32) + ((n
        >> 8u32) & 0xfu32)) * 256 + (16 * ((n >> 4u32) & 0xfu32) + (n & 0xfu32)) == n) by (bit_vector)
        requires
            n <= 0x10FFFF,
    ;
    assert(is_scalar(c as int));
}

/// What [`Escaped::unescape`] reads from a code point escape does not depend
/// on the case of its hexadecimal digits.
pub proof fn lemma_unescape_ignores_hex_case(s: Seq<char>)
    requires
        s.len() > 0,
        s[0] == 'u',
    ensures
        unescape_spec(s.map_values(|x: char| upper_hex_letter(x))) == unescape_spec(s),
{
    let t = s.map_values(|x: char| upper_hex_letter(x));
    assert forall|i: int| 0 <= i < s.len() implies hex_value(#[trigger] t[i]) == hex_value(s[i]) by {
        let x = s[i];
        assert(t[i] == upper_hex_letter(x));
    }
    assert forall|i: int| 0 <= i < s.len() implies (#[trigger] t[i] == '}') == (s[i] == '}') && (t[i] == '{') == (
    s[i] == '{') by {
        assert(t[i] == upper_hex_letter(s[i]));
    }
    assert forall|i: int| #[trigger] hex_pair(t, i) == hex_pair(s, i) by {
        if 0 <= i && i + 1 < s.len() {
            assert(hex_value(t[i]) == hex_value(s[i]));
            assert(hex_value(t[i + 1]) == hex_value(s[i + 1]));
        }
    }
    assert(t[0] == 'u');
}

impl Escaped {
    pub fn escape(ch: char) -> (r: Escaped)
        ensures
            r.ch == ch,
    {
        Escaped { ch }
    }

    /// The character as `char::escape_default` shows it.
    pub fn to_string(&self) -> (r: String)
        ensures
            r@ == escape_default_text(self.ch),
    {
        let mut out: String = String::new();
        push_escaped(&mut out, self.ch);
        proof {
            assert(out@ =~= escape_default_text(self.ch));
        }
        out
    }

    /// Reads the escape whose backslash has already been consumed; returns
    /// the rest of the input and the character denoted.
    pub fn unescape(input: &str) -> (r: Result<(&str, char), InvalidEscape>)
        ensures
            match unescape_spec(input@) {
                Ok((n, code)) => r matches Ok((rest, c)) && rest@ == input@.subrange(n, input@.len() as int)
                    && c as int == code,
                Err(e) => r == Err::<(&str, char), InvalidEscape>(e),
            },
    {
        let chars: Vec<char> = crate::text::chars_of(input);
        let n: usize = chars.len();
        if n == 0 {
            return Err(InvalidEscape::Eof);
        }
        let c: char = chars[0];
        let (consumed, ch): (usize, char) = if c == ' ' || c == '\\' || c == '\'' || c == '"' {
            (1, c)
        } else if c == 't' {
            (1, '\t')
        } else if c == 'r' {
            (1, '\r')
        } else if c == 'n' {
            (1, '\n')
        } else if c == 'u' {
            if n < 2 || chars[1] != '{' {
                return Err(InvalidEscape::MalformedCodePoint);
            }
            let b0: u32 = match parse_hex_digit_pair(&chars, 2) {
                Some(b) => b,
                None => {
                    return Err(InvalidEscape::MalformedCodePoint);
                },
            };
            let mut code: u32 = b0;
            let mut p: usize = 4;
            match parse_hex_digit_pair(&chars, 4) {
                Some(b1) => {
                    code = b0 * 256 + b1;
                    p = 6;
                    match parse_hex_digit_pair(&chars, 6) {
                        Some(b2) => {
                            code = b0 * 65536 + b1 * 256 + b2;
                            p = 8;
                        },
                        None => {},
                    }
                },
                None => {},
            }
            if p >= n || chars[p] != '}' {
                return Err(InvalidEscape::MalformedCodePoint);
            }
            match char_from_u32(code) {
                Some(decoded) => (p + 1, decoded),
                None => {
                    return Err(InvalidEscape::BadCodePoint(code));
                },
            }
        } else {
            return Err(InvalidEscape::Unknown(c));
        };
        Ok((input.substring_char(consumed, n), ch))
    }
}

} // verus!
