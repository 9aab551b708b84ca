//! The text form of a parsing specification: one definition per line.
//!
//! ```text
//! delimiters: " \t\n"
//! !name: "pattern"
//! rule (priority): "pattern"
//! ```
//!
//! Blank lines and lines starting with `#` are ignored, and a line starting
//! with `===` ends the definitions.

use vstd::prelude::*;

use crate::parsing_spec::ParsingSpec;
use crate::parsing_spec::ParsingSpecBuilder;
use crate::parsing_spec::PlaceholderNames;
use crate::parsing_spec::delimiters_word;
use crate::regex::AnchoredRegex;
use crate::regex::Regex;
use crate::regex::RegexError;
use crate::text::chars_of;
use crate::text::push_char;
use crate::text::string_of;
use crate::utils::InvalidEscape;

verus! {

/// A decimal digit.
pub open spec fn digit_char(d: nat) -> char {
    if d == 0 { '0' }
    else if d == 1 { '1' }
    else if d == 2 { '2' }
    else if d == 3 { '3' }
    else if d == 4 { '4' }
    else if d == 5 { '5' }
    else if d == 6 { '6' }
    else if d == 7 { '7' }
    else if d == 8 { '8' }
    else { '9' }
}

/// A lowercase hexadecimal digit.
pub open spec fn hex_char(d: nat) -> char {
    if d < 10 { digit_char(d) }
    else if d == 10 { 'a' }
    else if d == 11 { 'b' }
    else if d == 12 { 'c' }
    else if d == 13 { 'd' }
    else if d == 14 { 'e' }
    else { 'f' }
}

/// `n` in decimal, without leading zeros.
pub open spec fn decimal_text(n: nat) -> Seq<char>
    decreases n,
{
    if n < 10 {
        seq![digit_char(n)]
    } else {
        decimal_text(n / 10).push(digit_char(n % 10))
    }
}

/// `n` in lowercase hexadecimal, without leading zeros.
pub open spec fn hex_text(n: nat) -> Seq<char>
    decreases n,
{
    if n < 16 {
        seq![hex_char(n)]
    } else {
        hex_text(n / 16).push(hex_char(n % 16))
    }
}

/// `n` in decimal, with a leading `-` when negative.
pub open spec fn signed_text(n: int) -> Seq<char> {
    if n < 0 {
        seq!['-'] + decimal_text((-n) as nat)
    } else {
        decimal_text(n as nat)
    }
}

/// A character as `char::escape_default` shows it: `\t`, `\r`, `\n`, `\\`,
/// `\'`, `\"`, printable ASCII as itself, anything else as `\u{..}` in
/// lowercase hexadecimal.
pub open spec fn escape_default_text(c: char) -> Seq<char> {
    if c == '\t' {
        seq!['\\', 't']
    } else if c == '\r' {
        seq!['\\', 'r']
    } else if c == '\n' {
        seq!['\\', 'n']
    } else if c == '\\' || c == '\'' || c == '"' {
        seq!['\\', c]
    } else if 0x20 <= c as int <= 0x7e {
        seq![c]
    } else {
        seq!['\\', 'u', '{'] + hex_text(c as nat) + seq!['}']
    }
}

/// Every character of `s`, escaped.
pub open spec fn escape_text(s: Seq<char>) -> Seq<char>
    decreases s.len(),
{
    if s.len() == 0 {
        Seq::empty()
    } else {
        escape_text(s.drop_last()) + escape_default_text(s.last())
    }
}

/// Whether `c` has a meaning of its own in a pattern, or would end the
/// quoted pattern of a definition.
pub open spec fn is_pattern_special(c: char) -> bool {
    c == '\\' || c == '(' || c == ')' || c == '[' || c == ']' || c == '{' || c == '}' || c == '.' || c == '*'
        || c == '+' || c == '?' || c == '|' || c == '^' || c == '$' || c == '"'
}

/// Whether `c` has a meaning of its own inside a bracketed class.
pub open spec fn is_class_special(c: char) -> bool {
    c == '\\' || c == ']' || c == '[' || c == '^' || c == '-' || c == '"'
}

/// A control character that must not appear raw in a definition line.
pub open spec fn control_text(c: char) -> Option<Seq<char>> {
    if c == '\t' {
        Some(seq!['\\', 't'])
    } else if c == '\n' {
        Some(seq!['\\', 'n'])
    } else if c == '\r' {
        Some(seq!['\\', 'r'])
    } else {
        None
    }
}

/// A literal character of a pattern.
pub open spec fn literal_text(c: char) -> Seq<char> {
    match control_text(c) {
        Some(t) => t,
        None => if is_pattern_special(c) {
            seq!['\\', c]
        } else {
            seq![c]
        },
    }
}

/// A character inside a bracketed class.
pub open spec fn class_char_text(c: char) -> Seq<char> {
    match control_text(c) {
        Some(t) => t,
        None => if is_class_special(c) {
            seq!['\\', c]
        } else {
            seq![c]
        },
    }
}

/// The ranges of a bracketed class.
pub open spec fn ranges_text(items: Seq<(char, char)>) -> Seq<char>
    decreases items.len(),
{
    if items.len() == 0 {
        Seq::empty()
    } else {
        let (lo, hi) = items.last();
        ranges_text(items.drop_last()) + class_char_text(lo) + if lo == hi {
            Seq::empty()
        } else {
            seq!['-'] + class_char_text(hi)
        }
    }
}

/// `inner` in a non-capturing group when `re` is a sequence or an
/// alternation.
pub open spec fn grouped(re: Regex, inner: Seq<char>) -> Seq<char> {
    if re is Sequence || re is Alternation {
        seq!['(', '?', ':'] + inner + seq![')']
    } else {
        inner
    }
}

/// `inner` in a non-capturing group when `re` is an alternation.
pub open spec fn branch(re: Regex, inner: Seq<char>) -> Seq<char> {
    if re is Alternation {
        seq!['(', '?', ':'] + inner + seq![')']
    } else {
        inner
    }
}

/// The counts of a bounded repetition: `{n}` or `{m,n}`.
pub open spec fn counts_text(min: u32, max: u32) -> Seq<char> {
    seq!['{'] + decimal_text(min as nat) + if min == max {
        Seq::<char>::empty()
    } else {
        seq![','] + decimal_text(max as nat)
    } + seq!['}']
}

/// The pattern of an expression, in the syntax the pattern parser reads.
pub open spec fn pattern_text(re: Regex) -> Seq<char>
    decreases re,
{
    match re {
        Regex::AnyChar => seq!['.'],
        Regex::Literal(c) => literal_text(c),
        Regex::Capture(sub_rule) => seq!['(', '?', '<'] + sub_rule.name@ + seq!['>'] + pattern_text(sub_rule.regex)
            + seq![')'],
        Regex::BracketedRanges { negated, items } => seq!['['] + if negated {
            seq!['^']
        } else {
            Seq::<char>::empty()
        } + ranges_text(items@) + seq![']'],
        Regex::KleeneClosure(item) => grouped(*item, pattern_text(*item)) + seq!['*'],
        Regex::KleenePlus(item) => grouped(*item, pattern_text(*item)) + seq!['+'],
        Regex::BoundedRepetition { min, max, item } => grouped(*item, pattern_text(*item)) + counts_text(min, max),
        Regex::Sequence(items) => sequence_text(items@),
        Regex::Alternation(items) => alternation_text(items@),
        Regex::Placeholder { name, item } => seq!['(', '?', '<'] + name@ + seq!['>', ')'],
    }
}

/// The items of a sequence, one after another.
pub open spec fn sequence_text(items: Seq<Regex>) -> Seq<char>
    decreases items,
{
    if items.len() == 0 {
        Seq::empty()
    } else {
        sequence_text(items.subrange(0, items.len() - 1)) + grouped(
            items[items.len() - 1],
            pattern_text(items[items.len() - 1]),
        )
    }
}

/// The branches of an alternation, separated by `|`.
pub open spec fn alternation_text(items: Seq<Regex>) -> Seq<char>
    decreases items,
{
    if items.len() == 0 {
        Seq::empty()
    } else if items.len() == 1 {
        branch(items[0], pattern_text(items[0]))
    } else {
        alternation_text(items.subrange(0, items.len() - 1)) + seq!['|'] + branch(
            items[items.len() - 1],
            pattern_text(items[items.len() - 1]),
        )
    }
}

/// The pattern of a rule: its expression between the anchors it has.
pub open spec fn anchored_text(a: AnchoredRegex) -> Seq<char> {
    (if a.anchor_before {
        seq!['^']
    } else {
        Seq::<char>::empty()
    }) + pattern_text(a.regex) + if a.anchor_after {
        seq!['$']
    } else {
        Seq::<char>::empty()
    }
}

/// Appends the characters.
fn push_chars(out: &mut String, chars: &Vec<char>)
    ensures
        final(out)@ == old(out)@ + chars@,
{
    let ghost start = out@;
    let mut i: usize = 0;
    while i < chars.len()
        invariant
            0 <= i <= chars@.len(),
            out@ == start + chars@.subrange(0, i as int),
        decreases chars.len() - i,
    {
        push_char(out, chars[i]);
        proof {
            assert(chars@.subrange(0, i + 1) =~= chars@.subrange(0, i as int).push(chars@[i as int]));
            assert(start + chars@.subrange(0, i + 1) =~= (start + chars@.subrange(0, i as int)).push(chars@[i as int]));
        }
        i = i + 1;
    }
    proof {
        assert(chars@.subrange(0, chars@.len() as int) =~= chars@);
    }
}

/// Appends the characters of a string.
fn push_str(out: &mut String, s: &str)
    ensures
        final(out)@ == old(out)@ + s@,
{
    let chars: Vec<char> = crate::text::chars_of(s);
    push_chars(out, &chars);
}

/// Appends `n` in decimal.
fn push_decimal(out: &mut String, n: u32)
    ensures
        final(out)@ == old(out)@ + decimal_text(n as nat),
    decreases n,
{
    if n >= 10 {
        push_decimal(out, n / 10);
    }
    let d: u32 = n % 10;
    let c: char = if d == 0 { '0' }
        else if d == 1 { '1' }
        else if d == 2 { '2' }
        else if d == 3 { '3' }
        else if d == 4 { '4' }
        else if d == 5 { '5' }
        else if d == 6 { '6' }
        else if d == 7 { '7' }
        else if d == 8 { '8' }
        else { '9' };
    push_char(out, c);
    proof {
        if n < 10 {
            assert(decimal_text(n as nat) == seq![digit_char(n as nat)]);
        } else {
            assert(decimal_text(n as nat) == decimal_text((n / 10) as nat).push(digit_char((n % 10) as nat)));
        }
    }
}

/// Appends `n` in lowercase hexadecimal.
fn push_hex(out: &mut String, n: u32)
    ensures
        final(out)@ == old(out)@ + hex_text(n as nat),
    decreases n,
{
    if n >= 16 {
        push_hex(out, n / 16);
    }
    let d: u32 = n % 16;
    let c: char = if d == 0 { '0' }
        else if d == 1 { '1' }
        else if d == 2 { '2' }
        else if d == 3 { '3' }
        else if d == 4 { '4' }
        else if d == 5 { '5' }
        else if d == 6 { '6' }
        else if d == 7 { '7' }
        else if d == 8 { '8' }
        else if d == 9 { '9' }
        else if d == 10 { 'a' }
        else if d == 11 { 'b' }
        else if d == 12 { 'c' }
        else if d == 13 { 'd' }
        else if d == 14 { 'e' }
        else { 'f' };
    push_char(out, c);
    proof {
        if n < 16 {
            assert(hex_text(n as nat) == seq![hex_char(n as nat)]);
        } else {
            assert(hex_text(n as nat) == hex_text((n / 16) as nat).push(hex_char((n % 16) as nat)));
        }
    }
}

/// Appends `n` in decimal, with a sign when negative.
fn push_signed(out: &mut String, n: i32)
    ensures
        final(out)@ == old(out)@ + signed_text(n as int),
{
    if n < 0 {
        push_char(out, '-');
        let magnitude: u32 = if n == i32::MIN {
            2147483648u32
        } else {
            (-n) as u32
        };
        let ghost mid = out@;
        push_decimal(out, magnitude);
        proof {
            assert(magnitude as int == -(n as int));
            assert(out@ =~= old(out)@ + (seq!['-'] + decimal_text(magnitude as nat)));
        }
    } else {
        push_decimal(out, n as u32);
    }
}

/// Appends `c` as `char::escape_default` shows it.
pub fn push_escaped(out: &mut String, c: char)
    ensures
        final(out)@ == old(out)@ + escape_default_text(c),
{
    let ghost start = out@;
    let code: u32 = crate::text::char_code(c);
    if c == '\t' {
        push_char(out, '\\');
        push_char(out, 't');
    } else if c == '\r' {
        push_char(out, '\\');
        push_char(out, 'r');
    } else if c == '\n' {
        push_char(out, '\\');
        push_char(out, 'n');
    } else if c == '\\' || c == '\'' || c == '"' {
        push_char(out, '\\');
        push_char(out, c);
    } else if 0x20 <= code && code <= 0x7e {
        push_char(out, c);
    } else {
        push_char(out, '\\');
        push_char(out, 'u');
        push_char(out, '{');
        let ghost mid = out@;
        push_hex(out, code);
        push_char(out, '}');
        proof {
            assert(mid =~= start + seq!['\\', 'u', '{']);
            assert(out@ =~= start + (seq!['\\', 'u', '{'] + hex_text(c as nat) + seq!['}']));
        }
        return;
    }
    proof {
        assert(out@ =~= start + escape_default_text(c));
    }
}

/// Appends every character of `s`, escaped.
fn push_escaped_text(out: &mut String, s: &str)
    ensures
        final(out)@ == old(out)@ + escape_text(s@),
{
    let chars: Vec<char> = crate::text::chars_of(s);
    let ghost start = out@;
    let mut i: usize = 0;
    proof {
        assert(chars@.subrange(0, 0) =~= Seq::<char>::empty());
        assert(start + escape_text(Seq::<char>::empty()) =~= start);
    }
    while i < chars.len()
        invariant
            0 <= i <= chars@.len(),
            out@ == start + escape_text(chars@.subrange(0, i as int)),
        decreases chars.len() - i,
    {
        let ghost before = out@;
        push_escaped(out, chars[i]);
        proof {
            let next = chars@.subrange(0, i + 1);
            assert(next.drop_last() =~= chars@.subrange(0, i as int));
            assert(out@ =~= start + escape_text(next));
        }
        i = i + 1;
    }
    proof {
        assert(chars@.subrange(0, chars@.len() as int) =~= chars@);
    }
}


/// Appends a literal character of a pattern.
fn push_literal(out: &mut String, c: char)
    ensures
        final(out)@ == old(out)@ + literal_text(c),
{
    let ghost start = out@;
    if c == '\t' {
        push_char(out, '\\');
        push_char(out, 't');
    } else if c == '\n' {
        push_char(out, '\\');
        push_char(out, 'n');
    } else if c == '\r' {
        push_char(out, '\\');
        push_char(out, 'r');
    } else if c == '\\' || c == '(' || c == ')' || c == '[' || c == ']' || c == '{' || c == '}' || c == '.' || c
        == '*' || c == '+' || c == '?' || c == '|' || c == '^' || c == '$' || c == '"' {
        push_char(out, '\\');
        push_char(out, c);
    } else {
        push_char(out, c);
    }
    proof {
        assert(out@ =~= start + literal_text(c));
    }
}

/// Appends a character inside a bracketed class.
fn push_class_char(out: &mut String, c: char)
    ensures
        final(out)@ == old(out)@ + class_char_text(c),
{
    let ghost start = out@;
    if c == '\t' {
        push_char(out, '\\');
        push_char(out, 't');
    } else if c == '\n' {
        push_char(out, '\\');
        push_char(out, 'n');
    } else if c == '\r' {
        push_char(out, '\\');
        push_char(out, 'r');
    } else if c == '\\' || c == ']' || c == '[' || c == '^' || c == '-' || c == '"' {
        push_char(out, '\\');
        push_char(out, c);
    } else {
        push_char(out, c);
    }
    proof {
        assert(out@ =~= start + class_char_text(c));
    }
}

/// Appends the ranges of a bracketed class.
fn push_ranges(out: &mut String, items: &Vec<(char, char)>)
    ensures
        final(out)@ == old(out)@ + ranges_text(items@),
{
    let ghost start = out@;
    let mut i: usize = 0;
    proof {
        assert(items@.subrange(0, 0) =~= Seq::<(char, char)>::empty());
        assert(start + ranges_text(Seq::<(char, char)>::empty()) =~= start);
    }
    while i < items.len()
        invariant
            0 <= i <= items@.len(),
            out@ == start + ranges_text(items@.subrange(0, i as int)),
        decreases items.len() - i,
    {
        let (lo, hi) = items[i];
        let ghost before = out@;
        push_class_char(out, lo);
        if lo != hi {
            push_char(out, '-');
            push_class_char(out, hi);
        }
        proof {
            let next = items@.subrange(0, i + 1);
            assert(next.drop_last() =~= items@.subrange(0, i as int));
            assert(next.last() == (lo, hi));
            assert(out@ =~= start + ranges_text(next));
        }
        i = i + 1;
    }
    proof {
        assert(items@.subrange(0, items@.len() as int) =~= items@);
    }
}

/// Appends `(?:`.
fn push_open_group(out: &mut String)
    ensures
        final(out)@ == old(out)@ + seq!['(', '?', ':'],
{
    let ghost start = out@;
    push_char(out, '(');
    push_char(out, '?');
    push_char(out, ':');
    proof {
        assert(out@ =~= start + seq!['(', '?', ':']);
    }
}

/// Appends the pattern of `re`, in a non-capturing group when `group` and
/// `re` is a sequence or alternation (or, without `group`, an alternation).
#[verifier::loop_isolation(false)]
fn push_grouped(out: &mut String, re: &Regex, group: bool)
    ensures
        final(out)@ == old(out)@ + if group {
            grouped(*re, pattern_text(*re))
        } else {
            branch(*re, pattern_text(*re))
        },
    decreases re, 1nat,
{
    let ghost start = out@;
    let wrap: bool = match re {
        Regex::Alternation(_) => true,
        Regex::Sequence(_) => group,
        _ => false,
    };
    if wrap {
        push_open_group(out);
        push_pattern(out, re);
        push_char(out, ')');
        proof {
            assert(out@ =~= start + (seq!['(', '?', ':'] + pattern_text(*re) + seq![')']));
        }
    } else {
        push_pattern(out, re);
    }
}

/// Appends the pattern of `re`.
#[verifier::loop_isolation(false)]
pub fn push_pattern(out: &mut String, re: &Regex)
    ensures
        final(out)@ == old(out)@ + pattern_text(*re),
    decreases re, 0nat,
{
    let ghost start = out@;
    match re {
        Regex::AnyChar => {
            push_char(out, '.');
            proof {
                assert(out@ =~= start + seq!['.']);
            }
        },
        Regex::Literal(c) => {
            push_literal(out, *c);
        },
        Regex::Capture(sub_rule) => {
            push_char(out, '(');
            push_char(out, '?');
            push_char(out, '<');
            push_str(out, sub_rule.name.as_str());
            push_char(out, '>');
            let ghost mid = out@;
            push_pattern(out, &sub_rule.regex);
            push_char(out, ')');
            proof {
                assert(mid =~= start + seq!['(', '?', '<'] + sub_rule.name@ + seq!['>']);
                assert(out@ =~= start + (seq!['(', '?', '<'] + sub_rule.name@ + seq!['>'] + pattern_text(
                    sub_rule.regex,
                ) + seq![')']));
            }
        },
        Regex::BracketedRanges { negated, items } => {
            push_char(out, '[');
            if *negated {
                push_char(out, '^');
            }
            let ghost mid = out@;
            push_ranges(out, items);
            push_char(out, ']');
            proof {
                let head = if *negated {
                    seq!['^']
                } else {
                    Seq::<char>::empty()
                };
                assert(mid =~= start + seq!['['] + head);
                assert(out@ =~= start + (seq!['['] + head + ranges_text(items@) + seq![']']));
            }
        },
        Regex::KleeneClosure(item) => {
            push_grouped(out, item, true);
            push_char(out, '*');
            proof {
                assert(out@ =~= start + (grouped(**item, pattern_text(**item)) + seq!['*']));
            }
        },
        Regex::KleenePlus(item) => {
            push_grouped(out, item, true);
            push_char(out, '+');
            proof {
                assert(out@ =~= start + (grouped(**item, pattern_text(**item)) + seq!['+']));
            }
        },
        Regex::BoundedRepetition { min, max, item } => {
            push_grouped(out, item, true);
            let ghost mid = out@;
            push_char(out, '{');
            push_decimal(out, *min);
            if *min != *max {
                push_char(out, ',');
                push_decimal(out, *max);
            }
            push_char(out, '}');
            proof {
                assert(out@ =~= mid + counts_text(*min, *max));
                assert(out@ =~= start + (grouped(**item, pattern_text(**item)) + counts_text(*min, *max)));
            }
        },
        Regex::Sequence(items) => {
            let mut i: usize = 0;
            proof {
                assert(items@.subrange(0, 0) =~= Seq::<Regex>::empty());
                assert(start + sequence_text(Seq::<Regex>::empty()) =~= start);
            }
            while i < items.len()
                invariant
                    0 <= i <= items@.len(),
                    out@ == start + sequence_text(items@.subrange(0, i as int)),
                decreases items.len() - i,
            {
                proof {
                    assert(decreases_to!(*re => *items));
                    assert(decreases_to!(*items => items@[i as int]));
                }
                push_grouped(out, &items[i], true);
                proof {
                    let next = items@.subrange(0, i + 1);
                    assert(next.subrange(0, next.len() - 1) =~= items@.subrange(0, i as int));
                    assert(next[next.len() - 1] == items@[i as int]);
                    assert(out@ =~= start + sequence_text(next));
                }
                i = i + 1;
            }
            proof {
                assert(items@.subrange(0, items@.len() as int) =~= items@);
            }
        },
        Regex::Alternation(items) => {
            let mut i: usize = 0;
            proof {
                assert(items@.subrange(0, 0) =~= Seq::<Regex>::empty());
                assert(start + alternation_text(Seq::<Regex>::empty()) =~= start);
            }
            while i < items.len()
                invariant
                    0 <= i <= items@.len(),
                    out@ == start + alternation_text(items@.subrange(0, i as int)),
                decreases items.len() - i,
            {
                proof {
                    assert(decreases_to!(*re => *items));
                    assert(decreases_to!(*items => items@[i as int]));
                }
                let ghost before = out@;
                if i > 0 {
                    push_char(out, '|');
                }
                let ghost mid = out@;
                push_grouped(out, &items[i], false);
                proof {
                    let next = items@.subrange(0, i + 1);
                    assert(next.subrange(0, next.len() - 1) =~= items@.subrange(0, i as int));
                    assert(next[next.len() - 1] == items@[i as int]);
                    if i == 0 {
                        assert(next[0] == items@[0]);
                    }
                    assert(out@ =~= start + alternation_text(next));
                }
                i = i + 1;
            }
            proof {
                assert(items@.subrange(0, items@.len() as int) =~= items@);
            }
        },
        Regex::Placeholder { name, .. } => {
            push_char(out, '(');
            push_char(out, '?');
            push_char(out, '<');
            push_str(out, name.as_str());
            push_char(out, '>');
            push_char(out, ')');
            proof {
                assert(out@ =~= start + (seq!['(', '?', '<'] + name@ + seq!['>', ')']));
            }
        },
    }
}

impl Regex {
    /// The pattern of the expression, which the pattern parser reads back.
    pub fn to_pattern(&self) -> (r: String)
        ensures
            r@ == pattern_text(*self),
    {
        let mut out: String = String::new();
        push_pattern(&mut out, self);
        proof {
            assert(out@ =~= pattern_text(*self));
        }
        out
    }
}

impl AnchoredRegex {
    /// The pattern of the rule, with `^` and `$` for its anchors.
    pub fn to_pattern(&self) -> (r: String)
        ensures
            r@ == anchored_text(*self),
    {
        let mut out: String = String::new();
        if self.anchor_before {
            push_char(&mut out, '^');
        }
        push_pattern(&mut out, &self.regex);
        if self.anchor_after {
            push_char(&mut out, '$');
        }
        proof {
            assert(out@ =~= anchored_text(*self));
        }
        out
    }
}


/// The line defining a placeholder: `!name: "pattern"`.
pub open spec fn placeholder_line(name: Seq<char>, re: Regex) -> Seq<char> {
    seq!['!'] + name + seq![':', ' ', '"'] + pattern_text(re) + seq!['"', '\n']
}

/// The line defining a rule: `name (priority): "pattern"`.
pub open spec fn rule_line(name: Seq<char>, priority: i32, regex: AnchoredRegex) -> Seq<char> {
    name + seq![' ', '('] + signed_text(priority as int) + seq![')', ':', ' ', '"'] + anchored_text(regex) + seq![
        '"',
        '\n',
    ]
}

/// The lines of the placeholders, in order.
pub open spec fn placeholders_text(placeholders: Seq<(String, Regex)>) -> Seq<char>
    decreases placeholders.len(),
{
    if placeholders.len() == 0 {
        Seq::empty()
    } else {
        placeholders_text(placeholders.drop_last()) + placeholder_line(
            placeholders.last().0@,
            placeholders.last().1,
        )
    }
}

/// The lines of the rules, in order, skipping the variants for encodings.
pub open spec fn rules_text(rules: Seq<crate::parsing_spec::RootRule>) -> Seq<char>
    decreases rules.len(),
{
    if rules.len() == 0 {
        Seq::empty()
    } else if rules.last().maybe_encoding is Some {
        rules_text(rules.drop_last())
    } else {
        rules_text(rules.drop_last()) + rule_line(rules.last().name@, rules.last().priority, rules.last().regex)
    }
}

/// The text form of a specification: the delimiters, a blank line, the
/// placeholders, a blank line, the rules and a blank line.
pub open spec fn definition_text(spec: ParsingSpec) -> Seq<char> {
    delimiters_word() + seq![':', ' ', '"'] + escape_text(spec.delimiters@) + seq!['"', '\n', '\n']
        + placeholders_text(spec.placeholders@) + seq!['\n'] + rules_text(spec.rules@) + seq!['\n']
}

/// Appends the line defining a placeholder.
fn push_placeholder_line(out: &mut String, name: &String, re: &Regex)
    ensures
        final(out)@ == old(out)@ + placeholder_line(name@, *re),
{
    let ghost start = out@;
    push_char(out, '!');
    push_str(out, name.as_str());
    push_char(out, ':');
    push_char(out, ' ');
    push_char(out, '"');
    push_pattern(out, re);
    push_char(out, '"');
    push_char(out, '\n');
    proof {
        assert(out@ =~= start + placeholder_line(name@, *re));
    }
}

/// Appends the line defining a rule.
fn push_rule_line(out: &mut String, rule: &crate::parsing_spec::RootRule)
    ensures
        final(out)@ == old(out)@ + rule_line(rule.name@, rule.priority, rule.regex),
{
    let ghost start = out@;
    push_str(out, rule.name.as_str());
    push_char(out, ' ');
    push_char(out, '(');
    push_signed(out, rule.priority);
    push_char(out, ')');
    push_char(out, ':');
    push_char(out, ' ');
    push_char(out, '"');
    let pattern: String = rule.regex.to_pattern();
    push_str(out, pattern.as_str());
    push_char(out, '"');
    push_char(out, '\n');
    proof {
        assert(out@ =~= start + rule_line(rule.name@, rule.priority, rule.regex));
    }
}

impl ParsingSpec {
    /// The specification in its text form, which
    /// [`crate::parsing_spec::ParsingSpecBuilder::from_parsing_spec_definition`]
    /// reads back.
    pub fn to_parsing_spec_definition(&self) -> (r: String)
        ensures
            r@ == definition_text(*self),
    {
        let mut out: String = String::new();
        push_str(&mut out, "delimiters: \"");
        proof {
            reveal_strlit("delimiters: \"");
            assert(out@ =~= delimiters_word() + seq![':', ' ', '"']);
        }
        push_escaped_text(&mut out, self.delimiters.as_str());
        push_char(&mut out, '"');
        push_char(&mut out, '\n');
        push_char(&mut out, '\n');
        let ghost head = out@;
        proof {
            assert(head =~= delimiters_word() + seq![':', ' ', '"'] + escape_text(self.delimiters@) + seq![
                '"',
                '\n',
                '\n',
            ]);
        }
        let mut i: usize = 0;
        proof {
            assert(self.placeholders@.subrange(0, 0) =~= Seq::<(String, Regex)>::empty());
            assert(head + placeholders_text(Seq::<(String, Regex)>::empty()) =~= head);
        }
        while i < self.placeholders.len()
            invariant
                0 <= i <= self.placeholders@.len(),
                out@ == head + placeholders_text(self.placeholders@.subrange(0, i as int)),
            decreases self.placeholders.len() - i,
        {
            let ghost before = out@;
            push_placeholder_line(&mut out, &self.placeholders[i].0, &self.placeholders[i].1);
            proof {
                let next = self.placeholders@.subrange(0, i + 1);
                assert(next.drop_last() =~= self.placeholders@.subrange(0, i as int));
                assert(next.last() == self.placeholders@[i as int]);
                assert(out@ =~= head + placeholders_text(next));
            }
            i = i + 1;
        }
        proof {
            assert(self.placeholders@.subrange(0, self.placeholders@.len() as int) =~= self.placeholders@);
        }
        push_char(&mut out, '\n');
        let ghost middle = out@;
        let mut j: usize = 0;
        proof {
            assert(self.rules@.subrange(0, 0) =~= Seq::<crate::parsing_spec::RootRule>::empty());
            assert(middle + rules_text(Seq::<crate::parsing_spec::RootRule>::empty()) =~= middle);
        }
        while j < self.rules.len()
            invariant
                0 <= j <= self.rules@.len(),
                out@ == middle + rules_text(self.rules@.subrange(0, j as int)),
            decreases self.rules.len() - j,
        {
            let ghost before = out@;
            if self.rules[j].maybe_encoding.is_none() {
                push_rule_line(&mut out, &self.rules[j]);
            }
            proof {
                let next = self.rules@.subrange(0, j + 1);
                assert(next.drop_last() =~= self.rules@.subrange(0, j as int));
                assert(next.last() == self.rules@[j as int]);
                assert(out@ =~= middle + rules_text(next));
            }
            j = j + 1;
        }
        proof {
            assert(self.rules@.subrange(0, self.rules@.len() as int) =~= self.rules@);
        }
        push_char(&mut out, '\n');
        proof {
            assert(out@ =~= definition_text(*self));
        }
        out
    }
}

/// Whether `c` is white space, as `char::is_whitespace` says.
pub open spec fn is_white(c: char) -> bool {
    let v = c as int;
    (9 <= v <= 13) || v == 0x20 || v == 0x85 || v == 0xA0 || v == 0x1680 || (0x2000 <= v <= 0x200A) || v == 0x2028
        || v == 0x2029 || v == 0x202F || v == 0x205F || v == 0x3000
}

/// The first position from `i` on that is not white space.
pub open spec fn skip_white(s: Seq<char>, i: int) -> int
    decreases s.len() - i,
{
    if 0 <= i < s.len() && is_white(s[i]) {
        skip_white(s, i + 1)
    } else {
        i
    }
}

/// The end of `s` up to `j` with trailing white space removed.
pub open spec fn trim_end(s: Seq<char>, j: int) -> int
    decreases j,
{
    if 0 < j <= s.len() && is_white(s[j - 1]) {
        trim_end(s, j - 1)
    } else {
        j
    }
}

/// `s` without leading and trailing white space.
pub open spec fn trimmed(s: Seq<char>) -> Seq<char> {
    let a = skip_white(s, 0);
    let b = trim_end(s, s.len() as int);
    if a < b {
        s.subrange(a, b)
    } else {
        Seq::empty()
    }
}

/// Whether `c` may appear in a name: an ASCII letter or digit, or `_`.
pub open spec fn is_name_char(c: char) -> bool {
    ('0' <= c <= '9') || ('A' <= c <= 'Z') || ('a' <= c <= 'z') || c == '_'
}

/// The end of the name starting at `i`.
pub open spec fn name_end(s: Seq<char>, i: int) -> int
    decreases s.len() - i,
{
    if 0 <= i < s.len() && is_name_char(s[i]) {
        name_end(s, i + 1)
    } else {
        i
    }
}

/// The position of the quote closing a pattern whose text starts at `j`;
/// a backslash takes the next character with it.
pub open spec fn closing_quote(s: Seq<char>, j: int) -> Option<int>
    decreases s.len() - j,
{
    if j < 0 || j >= s.len() {
        None
    } else if s[j] == '"' {
        Some(j)
    } else if s[j] == '\\' {
        if j + 1 < s.len() {
            closing_quote(s, j + 2)
        } else {
            None
        }
    } else {
        closing_quote(s, j + 1)
    }
}

/// `name: "pattern"` starting at `i`: the name, the pattern (as written,
/// between the quotes) and the position after the closing quote.
pub open spec fn name_pattern(s: Seq<char>, i: int) -> Option<(Seq<char>, Seq<char>)> {
    let e = name_end(s, i);
    let k = skip_white(s, e);
    if 0 <= i <= s.len() && k < s.len() && s[k] == ':' {
        let m = skip_white(s, k + 1);
        if m < s.len() && s[m] == '"' {
            match closing_quote(s, m + 1) {
                Some(c) => Some((s.subrange(i, e), s.subrange(m + 1, c))),
                None => None,
            }
        } else {
            None
        }
    } else {
        None
    }
}

/// The end of the digits starting at `i`.
pub open spec fn digits_end(s: Seq<char>, i: int) -> int
    decreases s.len() - i,
{
    if 0 <= i < s.len() && '0' <= s[i] <= '9' {
        digits_end(s, i + 1)
    } else {
        i
    }
}

/// The value of the decimal digits `s[a..b]`.
pub open spec fn digits_value(s: Seq<char>, a: int, b: int) -> int
    decreases b - a,
{
    if b <= a {
        0
    } else {
        digits_value(s, a, b - 1) * 10 + (s[b - 1] as int - '0' as int)
    }
}

/// An optional `(priority)` at `k`: `None` when malformed, otherwise the
/// priority (if any) and the position after it. The priority is a
/// decimal `i32` with an optional sign.
pub open spec fn priority_at(s: Seq<char>, k: int) -> Option<(Option<int>, int)> {
    if 0 <= k < s.len() && s[k] == '(' {
        let signed = k + 1 < s.len() && (s[k + 1] == '+' || s[k + 1] == '-');
        let start = if signed {
            k + 2
        } else {
            k + 1
        };
        let end = digits_end(s, start);
        let magnitude = digits_value(s, start, end);
        let value = if signed && s[k + 1] == '-' {
            -magnitude
        } else {
            magnitude
        };
        if end > start && i32::MIN <= value <= i32::MAX && end < s.len() && s[end] == ')' {
            Some((Some(value), end + 1))
        } else {
            None
        }
    } else {
        Some((None, k))
    }
}

/// `name (priority): "pattern"`, the priority optional (default 0).
pub open spec fn rule_definition(s: Seq<char>) -> Option<(int, Seq<char>, Seq<char>)> {
    let e = name_end(s, 0);
    let k = skip_white(s, e);
    match priority_at(s, k) {
        None => None,
        Some((priority, after)) => {
            let k2 = skip_white(s, after);
            if k2 < s.len() && s[k2] == ':' {
                let m = skip_white(s, k2 + 1);
                if m < s.len() && s[m] == '"' {
                    match closing_quote(s, m + 1) {
                        Some(c) => Some(
                            (
                                match priority {
                                    Some(p) => p,
                                    None => 0,
                                },
                                s.subrange(0, e),
                                s.subrange(m + 1, c),
                            ),
                        ),
                        None => None,
                    }
                } else {
                    None
                }
            } else {
                None
            }
        },
    }
}

/// What a definition line defines.
#[derive(Debug, Clone, Copy, PartialEq, Eq, Structural)]
pub enum LineKind {
    Delimiters,
    Rule,
    Placeholder,
}

/// A definition line: its kind, priority (0 but for rules), name and
/// pattern. A line starting with `!` defines a placeholder; a line named
/// `delimiters` without a priority sets the delimiters; any other is a rule.
pub open spec fn parse_definition(s: Seq<char>) -> Option<(LineKind, int, Seq<char>, Seq<char>)> {
    if s.len() > 0 && s[0] == '!' {
        match name_pattern(s, 1) {
            Some((name, pattern)) => Some((LineKind::Placeholder, 0, name, pattern)),
            None => None,
        }
    } else {
        match name_pattern(s, 0) {
            Some((name, pattern)) if name == delimiters_word() => Some((LineKind::Delimiters, 0, name, pattern)),
            _ => match rule_definition(s) {
                Some((priority, name, pattern)) => Some((LineKind::Rule, priority, name, pattern)),
                None => None,
            },
        }
    }
}

/// The characters denoted by `s`: each character stands for itself, and
/// a backslash begins an escape as [`crate::utils::Escaped::unescape`] reads it.
pub open spec fn unescape_text(s: Seq<char>) -> Result<Seq<char>, crate::utils::InvalidEscape>
    decreases s.len(),
{
    if s.len() == 0 {
        Ok(Seq::empty())
    } else if s[0] == '\\' {
        match crate::utils::escaping::unescape_spec(s.drop_first()) {
            Ok((n, code)) => if 1 <= n <= s.len() - 1 {
                match unescape_text(s.subrange(1 + n, s.len() as int)) {
                    Ok(rest) => Ok(seq![code as char] + rest),
                    Err(e) => Err(e),
                }
            } else {
                Err(crate::utils::InvalidEscape::Eof)
            },
            Err(e) => Err(e),
        }
    } else {
        match unescape_text(s.drop_first()) {
            Ok(rest) => Ok(seq![s[0]] + rest),
            Err(e) => Err(e),
        }
    }
}

/// Whether `c` is white space.
fn is_white_char(c: char) -> (r: bool)
    ensures
        r == is_white(c),
{
    let v: u32 = crate::text::char_code(c);
    (9 <= v && v <= 13) || v == 0x20 || v == 0x85 || v == 0xA0 || v == 0x1680 || (0x2000 <= v && v <= 0x200A) || v
        == 0x2028 || v == 0x2029 || v == 0x202F || v == 0x205F || v == 0x3000
}

/// The first position from `i` on that is not white space.
fn skip_white_from(s: &Vec<char>, i: usize) -> (r: usize)
    requires
        i <= s@.len(),
    ensures
        r as int == skip_white(s@, i as int),
        i <= r <= s@.len(),
{
    let mut j: usize = i;
    while j < s.len() && is_white_char(s[j])
        invariant
            i <= j <= s@.len(),
            skip_white(s@, i as int) == skip_white(s@, j as int),
        decreases s.len() - j,
    {
        j = j + 1;
    }
    j
}

/// The characters `s[a..b]`.
fn slice_chars(s: &Vec<char>, a: usize, b: usize) -> (r: Vec<char>)
    requires
        a <= b <= s@.len(),
    ensures
        r@ == s@.subrange(a as int, b as int),
{
    let mut out: Vec<char> = Vec::new();
    let mut i: usize = a;
    while i < b
        invariant
            a <= i <= b <= s@.len(),
            out@ == s@.subrange(a as int, i as int),
        decreases b - i,
    {
        out.push(s[i]);
        proof {
            assert(s@.subrange(a as int, i + 1) =~= s@.subrange(a as int, i as int).push(s@[i as int]));
        }
        i = i + 1;
    }
    out
}

/// `line` without leading and trailing white space.
fn trim_line(line: &Vec<char>) -> (r: Vec<char>)
    ensures
        r@ == trimmed(line@),
{
    let a: usize = skip_white_from(line, 0);
    let mut b: usize = line.len();
    while b > 0 && is_white_char(line[b - 1])
        invariant
            b <= line@.len(),
            trim_end(line@, line@.len() as int) == trim_end(line@, b as int),
        decreases b,
    {
        b = b - 1;
    }
    if a < b {
        slice_chars(line, a, b)
    } else {
        Vec::new()
    }
}

/// Whether `c` may appear in a name.
fn is_name_char_exec(c: char) -> (r: bool)
    ensures
        r == is_name_char(c),
{
    ('0' <= c && c <= '9') || ('A' <= c && c <= 'Z') || ('a' <= c && c <= 'z') || c == '_'
}

/// The end of the name starting at `i`.
fn name_end_from(s: &Vec<char>, i: usize) -> (r: usize)
    requires
        i <= s@.len(),
    ensures
        r as int == name_end(s@, i as int),
        i <= r <= s@.len(),
{
    let mut j: usize = i;
    while j < s.len() && is_name_char_exec(s[j])
        invariant
            i <= j <= s@.len(),
            name_end(s@, i as int) == name_end(s@, j as int),
        decreases s.len() - j,
    {
        j = j + 1;
    }
    j
}

/// The position of the quote closing a pattern whose text starts at `j`.
fn closing_quote_from(s: &Vec<char>, j: usize) -> (r: Option<usize>)
    requires
        j <= s@.len(),
    ensures
        match closing_quote(s@, j as int) {
            Some(c) => r == Some(c as usize) && j <= c < s@.len(),
            None => r is None,
        },
{
    let mut p: usize = j;
    while p < s.len()
        invariant
            j <= p <= s@.len() + 1,
            closing_quote(s@, j as int) == closing_quote(s@, p as int),
        decreases s@.len() + 1 - p,
    {
        if s[p] == '"' {
            return Some(p);
        } else if s[p] == '\\' {
            if p + 1 < s.len() {
                p = p + 2;
            } else {
                return None;
            }
        } else {
            p = p + 1;
        }
    }
    None
}

/// `name: "pattern"` starting at `i`.
fn name_pattern_from(s: &Vec<char>, i: usize) -> (r: Option<(Vec<char>, Vec<char>)>)
    requires
        i <= s@.len(),
    ensures
        match name_pattern(s@, i as int) {
            Some((name, pattern)) => r matches Some((n, p)) && n@ == name && p@ == pattern,
            None => r is None,
        },
{
    let e: usize = name_end_from(s, i);
    let k: usize = skip_white_from(s, e);
    if k < s.len() && s[k] == ':' {
        let m: usize = skip_white_from(s, k + 1);
        if m < s.len() && s[m] == '"' {
            match closing_quote_from(s, m + 1) {
                Some(c) => Some((slice_chars(s, i, e), slice_chars(s, m + 1, c))),
                None => None,
            }
        } else {
            None
        }
    } else {
        None
    }
}

proof fn lemma_digits_value_nonneg(s: Seq<char>, a: int, b: int)
    requires
        forall|k: int| a <= k < b ==> '0' <= #[trigger] s[k] <= '9',
    ensures
        digits_value(s, a, b) >= 0,
    decreases b - a,
{
    if b > a {
        lemma_digits_value_nonneg(s, a, b - 1);
    }
}

/// An optional `(priority)` at `k`.
fn priority_from(s: &Vec<char>, k: usize) -> (r: Option<(Option<i32>, usize)>)
    requires
        k <= s@.len(),
    ensures
        match priority_at(s@, k as int) {
            Some((Some(v), after)) => r matches Some((Some(x), a)) && x as int == v && a as int == after,
            Some((None, after)) => r matches Some((None, a)) && a as int == after,
            None => r is None,
        },
{
    if !(k < s.len() && s[k] == '(') {
        return Some((None, k));
    }
    let signed: bool = k + 1 < s.len() && (s[k + 1] == '+' || s[k + 1] == '-');
    let negative: bool = signed && s[k + 1] == '-';
    let start: usize = if signed {
        k + 2
    } else {
        k + 1
    };
    let mut j: usize = start;
    let mut value: i64 = 0;
    let mut big: bool = false;
    while j < s.len() && '0' <= s[j] && s[j] <= '9'
        invariant
            start <= j <= s@.len(),
            forall|x: int| start <= x < j ==> '0' <= #[trigger] s@[x] <= '9',
            digits_end(s@, start as int) == digits_end(s@, j as int),
            !big ==> value as int == digits_value(s@, start as int, j as int) && 0 <= value <= 2147483648,
            big ==> digits_value(s@, start as int, j as int) > 2147483648,
        decreases s.len() - j,
    {
        let d: i64 = (crate::text::char_code(s[j]) - crate::text::char_code('0')) as i64;
        proof {
            lemma_digits_value_nonneg(s@, start as int, j as int);
            assert(digits_value(s@, start as int, j + 1) == digits_value(s@, start as int, j as int) * 10 + (
            s@[j as int] as int - '0' as int));
        }
        if !big {
            let next: i64 = value * 10 + d;
            if next > 2147483648 {
                big = true;
            } else {
                value = next;
            }
        }
        j = j + 1;
    }
    proof {
        lemma_digits_value_nonneg(s@, start as int, j as int);
    }
    if j == start || big || j >= s.len() || s[j] != ')' {
        return None;
    }
    let v: i64 = if negative {
        -value
    } else {
        value
    };
    if v > 2147483647 {
        return None;
    }
    Some((Some(v as i32), j + 1))
}

/// `name (priority): "pattern"`.
fn rule_definition_from(s: &Vec<char>) -> (r: Option<(i32, Vec<char>, Vec<char>)>)
    ensures
        match rule_definition(s@) {
            Some((priority, name, pattern)) => r matches Some((p, n, t)) && p as int == priority && n@ == name && t@
                == pattern,
            None => r is None,
        },
{
    let e: usize = name_end_from(s, 0);
    let k: usize = skip_white_from(s, e);
    let (priority, after) = match priority_from(s, k) {
        Some(found) => found,
        None => {
            return None;
        },
    };
    let k2: usize = skip_white_from(s, after);
    if k2 < s.len() && s[k2] == ':' {
        let m: usize = skip_white_from(s, k2 + 1);
        if m < s.len() && s[m] == '"' {
            match closing_quote_from(s, m + 1) {
                Some(c) => {
                    let p: i32 = match priority {
                        Some(v) => v,
                        None => 0,
                    };
                    Some((p, slice_chars(s, 0, e), slice_chars(s, m + 1, c)))
                },
                None => None,
            }
        } else {
            None
        }
    } else {
        None
    }
}

/// Whether the characters spell `delimiters`.
fn is_delimiters_word(name: &Vec<char>) -> (r: bool)
    ensures
        r == (name@ == delimiters_word()),
{
    let word: Vec<char> = crate::text::chars_of("delimiters");
    proof {
        reveal_strlit("delimiters");
        assert(word@ =~= delimiters_word());
    }
    if name.len() != word.len() {
        return false;
    }
    let mut i: usize = 0;
    while i < name.len()
        invariant
            0 <= i <= name@.len(),
            name@.len() == word@.len(),
            word@ == delimiters_word(),
            forall|k: int| 0 <= k < i ==> name@[k] == word@[k],
        decreases name.len() - i,
    {
        if name[i] != word[i] {
            proof {
                assert(name@[i as int] != word@[i as int]);
            }
            return false;
        }
        i = i + 1;
    }
    proof {
        assert(name@ =~= word@);
    }
    true
}

/// Reads one definition line (already trimmed).
fn parse_definition_line(s: &Vec<char>) -> (r: Option<(LineKind, i32, Vec<char>, Vec<char>)>)
    ensures
        match parse_definition(s@) {
            Some((kind, priority, name, pattern)) => r matches Some((k, p, n, t)) && k == kind && p as int == priority
                && n@ == name && t@ == pattern,
            None => r is None,
        },
{
    if s.len() > 0 && s[0] == '!' {
        return match name_pattern_from(s, 1) {
            Some((name, pattern)) => Some((LineKind::Placeholder, 0, name, pattern)),
            None => None,
        };
    }
    match name_pattern_from(s, 0) {
        Some((name, pattern)) => {
            if is_delimiters_word(&name) {
                return Some((LineKind::Delimiters, 0, name, pattern));
            }
        },
        None => {},
    }
    match rule_definition_from(s) {
        Some((priority, name, pattern)) => Some((LineKind::Rule, priority, name, pattern)),
        None => None,
    }
}

/// The characters denoted by `s`, backslash escapes resolved.
fn unescape_chars(s: &Vec<char>) -> (r: Result<String, crate::utils::InvalidEscape>)
    ensures
        match unescape_text(s@) {
            Ok(t) => r matches Ok(x) && x@ == t,
            Err(e) => r == Err::<String, crate::utils::InvalidEscape>(e),
        },
{
    let mut out: String = String::new();
    let mut p: usize = 0;
    let n: usize = s.len();
    proof {
        assert(s@.subrange(0, n as int) =~= s@);
        assert(out@ =~= Seq::<char>::empty());
        if let Ok(t) = unescape_text(s@) {
            assert(t =~= out@ + t);
        }
    }
    while p < n
        invariant
            0 <= p <= n == s@.len(),
            match unescape_text(s@) {
                Ok(t) => unescape_text(s@.subrange(p as int, n as int)) matches Ok(rest) && t == out@ + rest,
                Err(e) => unescape_text(s@.subrange(p as int, n as int)) == Err::<Seq<char>, crate::utils::InvalidEscape>(e),
            },
        decreases n - p,
    {
        let ghost rest = s@.subrange(p as int, n as int);
        proof {
            assert(rest[0] == s@[p as int]);
        }
        if s[p] == '\\' {
            let tail: String = crate::text::string_of(slice_chars(s, p + 1, n).as_slice());
            proof {
                assert(rest.drop_first() =~= s@.subrange(p + 1, n as int));
            }
            match crate::utils::Escaped::unescape(tail.as_str()) {
                Ok((remaining, c)) => {
                    let used: usize = tail.unicode_len() - remaining.unicode_len();
                    let ghost code = c as int;
                    proof {
                        let (k, v) = crate::utils::escaping::unescape_spec(rest.drop_first())->Ok_0;
                        assert(remaining@.len() == tail@.len() - k);
                        assert(used == k);
                        assert(1 <= k) by {
                            if k == 0 {
                                assert(crate::utils::escaping::unescape_spec(rest.drop_first()) is Ok);
                            }
                        }
                        assert(rest.subrange(1 + k, rest.len() as int) =~= s@.subrange(p + 1 + k, n as int));
                        assert(c == v as char);
                    }
                    push_char(&mut out, c);
                    p = p + 1 + used;
                },
                Err(e) => {
                    return Err(e);
                },
            }
        } else {
            push_char(&mut out, s[p]);
            proof {
                assert(rest.drop_first() =~= s@.subrange(p + 1, n as int));
            }
            p = p + 1;
        }
    }
    proof {
        assert(s@.subrange(n as int, n as int) =~= Seq::<char>::empty());
    }
    Ok(out)
}

/// Why a specification's text form was rejected, and on which line.
#[derive(Debug)]
pub struct ParsingSpecFileError {
    /// 0-indexed line number.
    pub line_offset: usize,
    pub kind: ParsingSpecFileErrorKind,
}

#[derive(Debug)]
pub enum ParsingSpecFileErrorKind {
    InvalidPriority,
    MissingColon,
    EmptyDelimiters,
    InvalidDelimiters,
    BadLine,
    InvalidName(String),
    InvalidEscape(InvalidEscape),
    InvalidPattern(RegexError),
    DuplicatePlaceholder(String),
    UndefinedPlaceholder(String),
}

/// The first position from `i` on holding a newline, or the end.
pub open spec fn newline_at(s: Seq<char>, i: int) -> int
    decreases s.len() - i,
{
    if i < 0 || i >= s.len() || s[i] == '\n' {
        i
    } else {
        newline_at(s, i + 1)
    }
}

/// The lines of `s`, split at newlines; a final newline ends the last
/// line rather than starting an empty one.
pub open spec fn lines_of(s: Seq<char>) -> Seq<Seq<char>>
    decreases s.len(),
{
    if s.len() == 0 {
        Seq::empty()
    } else {
        let e = newline_at(s, 0);
        if e < 0 || e >= s.len() {
            seq![s]
        } else {
            seq![s.subrange(0, e)] + lines_of(s.subrange(e + 1, s.len() as int))
        }
    }
}

/// A line starting with `===` ends the definitions.
pub open spec fn ends_definitions(t: Seq<char>) -> bool {
    t.len() >= 3 && t[0] == '=' && t[1] == '=' && t[2] == '='
}

/// Blank lines and comments.
pub open spec fn ignored(t: Seq<char>) -> bool {
    t.len() == 0 || t[0] == '#'
}

/// Line `k` is read as a definition: no line up to it ends the definitions
/// and it is neither blank nor a comment.
pub open spec fn read_line(lines: Seq<Seq<char>>, k: int) -> bool {
    &&& 0 <= k < lines.len()
    &&& !ignored(trimmed(lines[k]))
    &&& forall|j: int| 0 <= j <= k ==> !ends_definitions(#[trigger] trimmed(lines[j]))
}

/// The definitions read from the first `k` lines, in order.
pub open spec fn read_definitions(lines: Seq<Seq<char>>, k: int) -> Seq<(LineKind, int, Seq<char>, Seq<char>)>
    decreases k,
{
    if k <= 0 {
        Seq::empty()
    } else if read_line(lines, k - 1) && parse_definition(trimmed(lines[k - 1])) is Some {
        read_definitions(lines, k - 1).push(parse_definition(trimmed(lines[k - 1]))->0)
    } else {
        read_definitions(lines, k - 1)
    }
}

/// The names of the placeholders defined, in order.
pub open spec fn placeholder_names(defs: Seq<(LineKind, int, Seq<char>, Seq<char>)>) -> Seq<Seq<char>>
    decreases defs.len(),
{
    if defs.len() == 0 {
        Seq::empty()
    } else if defs.last().0 == LineKind::Placeholder {
        placeholder_names(defs.drop_last()).push(defs.last().2)
    } else {
        placeholder_names(defs.drop_last())
    }
}

/// The delimiters in force after the definitions: those of the last
/// delimiters line (with a newline added), or the default ones.
pub open spec fn delimiters_after(defs: Seq<(LineKind, int, Seq<char>, Seq<char>)>) -> Seq<char>
    decreases defs.len(),
{
    if defs.len() == 0 {
        crate::parsing_spec::default_delimiters()
    } else if defs.last().0 == LineKind::Delimiters && unescape_text(defs.last().3) is Ok {
        crate::parsing_spec::with_newline(unescape_text(defs.last().3)->Ok_0)
    } else {
        delimiters_after(defs.drop_last())
    }
}

/// Where a rule of priority `p` goes among rules kept by decreasing
/// priority: after every one of priority `p` or more.
pub open spec fn key_point(keys: Seq<(int, Seq<char>)>, p: int) -> int
    decreases keys.len(),
{
    if keys.len() == 0 {
        0
    } else if keys[0].0 >= p {
        1 + key_point(keys.drop_first(), p)
    } else {
        0
    }
}

/// The priority and name of each rule defined, kept by decreasing priority
/// and otherwise in the order defined.
pub open spec fn rule_keys(defs: Seq<(LineKind, int, Seq<char>, Seq<char>)>) -> Seq<(int, Seq<char>)>
    decreases defs.len(),
{
    if defs.len() == 0 {
        Seq::empty()
    } else if defs.last().0 == LineKind::Rule {
        let keys = rule_keys(defs.drop_last());
        keys.insert(key_point(keys, defs.last().1), (defs.last().1, defs.last().2))
    } else {
        rule_keys(defs.drop_last())
    }
}

/// The priority and name of each rule of a builder.
pub open spec fn keys_of(rules: Seq<(i32, String, AnchoredRegex)>) -> Seq<(int, Seq<char>)> {
    Seq::new(rules.len(), |i: int| (rules[i].0 as int, rules[i].1@))
}

/// The names of a builder's placeholders.
pub open spec fn names_of(placeholders: Seq<(String, Regex)>) -> Seq<Seq<char>> {
    Seq::new(placeholders.len(), |i: int| placeholders[i].0@)
}

/// No line from one ending the definitions on is read.
proof fn lemma_read_stops(lines: Seq<Seq<char>>, k: int, m: int)
    requires
        0 <= k < lines.len(),
        k <= m,
        ends_definitions(trimmed(lines[k])),
    ensures
        read_definitions(lines, m) == read_definitions(lines, k),
    decreases m - k,
{
    if m > k {
        lemma_read_stops(lines, k, m - 1);
        assert(!read_line(lines, m - 1));
    }
}

proof fn lemma_key_point(rules: Seq<(i32, String, AnchoredRegex)>, p: i32)
    ensures
        key_point(keys_of(rules), p as int) == crate::parsing_spec::insertion_point(rules, p),
    decreases rules.len(),
{
    if rules.len() > 0 {
        lemma_key_point(rules.drop_first(), p);
        assert(keys_of(rules).drop_first() =~= keys_of(rules.drop_first()));
    }
}

proof fn lemma_keys_inserted(
    before: Seq<(i32, String, AnchoredRegex)>,
    after: Seq<(i32, String, AnchoredRegex)>,
    p: i32,
    name: Seq<char>,
    regex: AnchoredRegex,
)
    requires
        crate::parsing_spec::rule_inserted(before, after, p, name, regex),
    ensures
        keys_of(after) == keys_of(before).insert(key_point(keys_of(before), p as int), (p as int, name)),
{
    lemma_key_point(before, p);
    let at = crate::parsing_spec::insertion_point(before, p);
    crate::parsing_spec::lemma_insertion_point_range(before, p);
    let expected = keys_of(before).insert(at, (p as int, name));
    assert forall|k: int| 0 <= k < after.len() implies #[trigger] keys_of(after)[k] == expected[k] by {
        if k < at {
            assert(after[k] == before[k]);
        } else if k > at {
            assert(after[k] == before[k - 1]);
        }
    }
    assert(keys_of(after) =~= expected);
}

/// A name a rule or placeholder may have.
pub open spec fn valid_name(name: Seq<char>) -> bool {
    name.len() > 0 && name != delimiters_word()
}

/// The line is well formed: a definition with a valid name, or nonempty
/// delimiters whose escapes are valid.
pub open spec fn accepted(t: Seq<char>) -> bool {
    match parse_definition(t) {
        None => false,
        Some((kind, _, name, pattern)) => match kind {
            LineKind::Delimiters => pattern.len() > 0 && unescape_text(pattern) is Ok,
            _ => valid_name(name),
        },
    }
}

/// The line is refused with this error (a pattern error depends on the
/// pattern parser, so only the line's shape is stated for it).
pub open spec fn refused_as(t: Seq<char>, kind: ParsingSpecFileErrorKind) -> bool {
    match kind {
        ParsingSpecFileErrorKind::BadLine => parse_definition(t) is None,
        ParsingSpecFileErrorKind::EmptyDelimiters => parse_definition(t) matches Some((LineKind::Delimiters, _, _, p))
            && p.len() == 0,
        ParsingSpecFileErrorKind::InvalidEscape(err) => parse_definition(t) matches Some(
            (LineKind::Delimiters, _, _, p),
        ) && p.len() > 0 && unescape_text(p) == Err::<Seq<char>, InvalidEscape>(err),
        ParsingSpecFileErrorKind::InvalidName(n) => parse_definition(t) matches Some((k, _, name, _)) && k
            != LineKind::Delimiters && !valid_name(name) && n@ == name,
        ParsingSpecFileErrorKind::InvalidPattern(_) => parse_definition(t) matches Some((k, _, name, _)) && k
            != LineKind::Delimiters && valid_name(name),
        ParsingSpecFileErrorKind::DuplicatePlaceholder(n) => parse_definition(t) matches Some(
            (LineKind::Placeholder, _, name, _),
        ) && valid_name(name) && n@ == name,
        _ => false,
    }
}

proof fn lemma_newline_at(s: Seq<char>, i: int)
    requires
        0 <= i <= s.len(),
    ensures
        i <= newline_at(s, i) <= s.len(),
        newline_at(s, i) < s.len() ==> s[newline_at(s, i)] == '\n',
    decreases s.len() - i,
{
    if i < s.len() && s[i] != '\n' {
        lemma_newline_at(s, i + 1);
    }
}

proof fn lemma_newline_shift(s: Seq<char>, p: int, j: int)
    requires
        0 <= p <= p + j <= s.len(),
        0 <= j,
    ensures
        newline_at(s.subrange(p, s.len() as int), j) == newline_at(s, p + j) - p,
    decreases s.len() - (p + j),
{
    let rest = s.subrange(p, s.len() as int);
    if p + j < s.len() && s[p + j] != '\n' {
        assert(rest[j] == s[p + j]);
        lemma_newline_shift(s, p, j + 1);
    } else if p + j < s.len() {
        assert(rest[j] == s[p + j]);
    }
}

/// Unescaping nonempty text gives nonempty text.
proof fn lemma_unescape_nonempty(s: Seq<char>)
    requires
        s.len() > 0,
        unescape_text(s) is Ok,
    ensures
        unescape_text(s)->Ok_0.len() > 0,
{
}

/// The position of the next newline from `p`, or the end.
fn newline_from(s: &Vec<char>, p: usize) -> (r: usize)
    requires
        p <= s@.len(),
    ensures
        r as int == newline_at(s@, p as int),
        p <= r <= s@.len(),
{
    let mut j: usize = p;
    while j < s.len() && s[j] != '\n'
        invariant
            p <= j <= s@.len(),
            newline_at(s@, p as int) == newline_at(s@, j as int),
        decreases s.len() - j,
    {
        j = j + 1;
    }
    j
}

impl ParsingSpecBuilder {
    /// Reads a specification's text form: `delimiters: "..."` lines (with
    /// backslash escapes), `!name: "pattern"` placeholder lines and
    /// `name (priority): "pattern"` rule lines, the priority optional.
    /// Blank lines and `#` comments are skipped, and a line starting with
    /// `===` ends the definitions. The first line that is refused is
    /// reported with its (0-based) number.
    pub fn from_parsing_spec_definition(contents: &str) -> (r: Result<ParsingSpecBuilder, ParsingSpecFileError>)
        ensures
            match r {
                Ok(b) => {
                    let defs = read_definitions(lines_of(contents@), lines_of(contents@).len() as int);
                    &&& forall|k: int|
                        read_line(lines_of(contents@), k) ==> accepted(#[trigger] trimmed(lines_of(contents@)[k]))
                    &&& keys_of(b.rule_list()) == rule_keys(defs)
                    &&& names_of(b.placeholder_list()) == placeholder_names(defs)
                    &&& b.delimiter_chars() == delimiters_after(defs)
                    &&& b.encoding_list().len() == 0
                },
                Err(e) => {
                    &&& read_line(lines_of(contents@), e.line_offset as int)
                    &&& forall|k: int|
                        0 <= k < e.line_offset && read_line(lines_of(contents@), k) ==> accepted(
                            #[trigger] trimmed(lines_of(contents@)[k]),
                        )
                    &&& refused_as(trimmed(lines_of(contents@)[e.line_offset as int]), e.kind)
                },
            },
    {
        let mut builder: ParsingSpecBuilder = ParsingSpecBuilder::new();
        let chars: Vec<char> = chars_of(contents);
        let n: usize = chars.len();
        let ghost all = lines_of(chars@);
        let ghost mut done: Seq<Seq<char>> = Seq::empty();
        let mut p: usize = 0;
        let mut k: usize = 0;
        proof {
            assert(chars@.subrange(0, n as int) =~= chars@);
        }
        while p < n
            invariant
                0 <= p <= n == chars@.len(),
                chars@ == contents@,
                all == lines_of(chars@),
                done.len() == k,
                k <= p,
                all == done + lines_of(chars@.subrange(p as int, n as int)),
                forall|j: int| 0 <= j < k ==> !ends_definitions(#[trigger] trimmed(all[j])),
                forall|j: int| 0 <= j < k && read_line(all, j) ==> accepted(#[trigger] trimmed(all[j])),
                keys_of(builder.rule_list()) == rule_keys(read_definitions(all, k as int)),
                names_of(builder.placeholder_list()) == placeholder_names(read_definitions(all, k as int)),
                builder.delimiter_chars() == delimiters_after(read_definitions(all, k as int)),
                builder.encoding_list().len() == 0,
            decreases n - p,
        {
            let e: usize = newline_from(&chars, p);
            let ghost rest = chars@.subrange(p as int, n as int);
            proof {
                lemma_newline_at(chars@, p as int);
                lemma_newline_shift(chars@, p as int, 0);
                assert(rest.len() > 0);
                if e < n {
                    assert(rest.subrange(0, e - p) =~= chars@.subrange(p as int, e as int));
                    assert(rest.subrange(e - p + 1, rest.len() as int) =~= chars@.subrange(e + 1, n as int));
                    assert(lines_of(rest) == seq![chars@.subrange(p as int, e as int)] + lines_of(
                        chars@.subrange(e + 1, n as int),
                    ));
                } else {
                    assert(chars@.subrange(p as int, e as int) =~= rest);
                    assert(lines_of(rest) == seq![rest]);
                }
            }
            let line: Vec<char> = slice_chars(&chars, p, e);
            let t: Vec<char> = trim_line(&line);
            let ghost rules0 = builder.rule_list();
            let ghost names0 = builder.placeholder_list();
            proof {
                assert(all[k as int] == line@);
            }
            if t.len() >= 3 && t[0] == '=' && t[1] == '=' && t[2] == '=' {
                proof {
                    assert(ends_definitions(trimmed(all[k as int])));
                    assert forall|j: int| read_line(all, j) implies accepted(#[trigger] trimmed(all[j])) by {
                        if j >= k {
                            assert(!ends_definitions(trimmed(all[k as int])));
                        }
                    }
                    lemma_read_stops(all, k as int, all.len() as int);
                }
                return Ok(builder);
            }
            if !(t.len() == 0 || t[0] == '#') {
                proof {
                    assert(read_line(all, k as int));
                }
                match parse_definition_line(&t) {
                    None => {
                        return Err(ParsingSpecFileError { line_offset: k, kind: ParsingSpecFileErrorKind::BadLine });
                    },
                    Some((kind, priority, name, pattern)) => {
                        match kind {
                            LineKind::Delimiters => {
                                if pattern.len() == 0 {
                                    return Err(
                                        ParsingSpecFileError {
                                            line_offset: k,
                                            kind: ParsingSpecFileErrorKind::EmptyDelimiters,
                                        },
                                    );
                                }
                                match unescape_chars(&pattern) {
                                    Ok(delimiters) => {
                                        proof {
                                            lemma_unescape_nonempty(pattern@);
                                        }
                                        builder.set_delimiters(delimiters.as_str());
                                    },
                                    Err(err) => {
                                        return Err(
                                            ParsingSpecFileError {
                                                line_offset: k,
                                                kind: ParsingSpecFileErrorKind::InvalidEscape(err),
                                            },
                                        );
                                    },
                                }
                            },
                            LineKind::Placeholder => {
                                let name_string: String = string_of(name.as_slice());
                                if name.len() == 0 || is_delimiters_word(&name) {
                                    return Err(
                                        ParsingSpecFileError {
                                            line_offset: k,
                                            kind: ParsingSpecFileErrorKind::InvalidName(name_string),
                                        },
                                    );
                                }
                                let pattern_string: String = string_of(pattern.as_slice());
                                let mut names: PlaceholderNames = PlaceholderNames { builder: &builder };
                                let regex: Regex = match Regex::from_pattern_with_placeholders(
                                    pattern_string.as_str(),
                                    &mut names,
                                ) {
                                    Ok(re) => re,
                                    Err(err) => {
                                        return Err(
                                            ParsingSpecFileError {
                                                line_offset: k,
                                                kind: ParsingSpecFileErrorKind::InvalidPattern(err),
                                            },
                                        );
                                    },
                                };
                                match builder.add_placeholder(name_string.as_str(), regex) {
                                    Ok(()) => {},
                                    Err(_) => {
                                        return Err(
                                            ParsingSpecFileError {
                                                line_offset: k,
                                                kind: ParsingSpecFileErrorKind::DuplicatePlaceholder(name_string),
                                            },
                                        );
                                    },
                                }
                            },
                            LineKind::Rule => {
                                let name_string: String = string_of(name.as_slice());
                                if name.len() == 0 || is_delimiters_word(&name) {
                                    return Err(
                                        ParsingSpecFileError {
                                            line_offset: k,
                                            kind: ParsingSpecFileErrorKind::InvalidName(name_string),
                                        },
                                    );
                                }
                                let pattern_string: String = string_of(pattern.as_slice());
                                let mut names: PlaceholderNames = PlaceholderNames { builder: &builder };
                                let regex: AnchoredRegex = match AnchoredRegex::from_pattern_with_placeholders(
                                    pattern_string.as_str(),
                                    &mut names,
                                ) {
                                    Ok(re) => re,
                                    Err(err) => {
                                        return Err(
                                            ParsingSpecFileError {
                                                line_offset: k,
                                                kind: ParsingSpecFileErrorKind::InvalidPattern(err),
                                            },
                                        );
                                    },
                                };
                                proof {
                                    assert(regex.total_captures - 1 == regex.regex.captures().len());
                                }
                                builder.add_parsed_rule_with_priority(priority, name_string.as_str(), regex);
                                proof {
                                    lemma_keys_inserted(rules0, builder.rule_list(), priority, name@, regex);
                                }
                            },
                        }
                    },
                }
            }
            proof {
                let defs0 = read_definitions(all, k as int);
                let defs1 = read_definitions(all, k + 1);
                if read_line(all, k as int) && parse_definition(trimmed(all[k as int])) is Some {
                    assert(defs1 == defs0.push(parse_definition(trimmed(all[k as int]))->0));
                    assert(defs1.drop_last() =~= defs0);
                    if (parse_definition(trimmed(all[k as int]))->0).0 == LineKind::Placeholder {
                        assert(names_of(builder.placeholder_list()) =~= names_of(names0).push(
                            (parse_definition(trimmed(all[k as int]))->0).2,
                        ));
                    }
                } else {
                    assert(defs1 == defs0);
                }
                done = done.push(line@);
                if e < n {
                    assert(all == done + lines_of(chars@.subrange(e + 1, n as int)));
                } else {
                    assert(chars@.subrange(n as int, n as int) =~= Seq::<char>::empty());
                    assert(all == done + lines_of(chars@.subrange(n as int, n as int)));
                }
            }
            k = k + 1;
            p = if e < n {
                e + 1
            } else {
                n
            };
        }
        proof {
            assert(chars@.subrange(n as int, n as int) =~= Seq::<char>::empty());
            assert(all =~= done);
        }
        Ok(builder)
    }
}

} // verus!
