//! Regular expressions over Unicode scalar values: the syntax tree and its
//! parser.

pub mod language;

use vstd::prelude::*;

use crate::parsing_spec::RuleIdx;
use crate::parsing_spec::SubRule;
use crate::text::char_from_u32;
use crate::text::chars_of;
use crate::text::hex_digit_value;
use crate::text::hex_value;
use crate::text::string_of;

verus! {

/// A regular expression.
#[derive(Debug, PartialEq, Eq)]
pub enum Regex {
    /// Any character.
    AnyChar,
    /// Exactly this character.
    Literal(char),
    /// A named capture of a sub-rule.
    Capture(Box<SubRule>),
    /// A character class: the union of the inclusive ranges, or its complement.
    BracketedRanges { negated: bool, items: Vec<(char, char)> },
    /// Zero or more repetitions.
    KleeneClosure(Box<Regex>),
    /// One or more repetitions.
    KleenePlus(Box<Regex>),
    /// Between `min` and `max` repetitions.
    BoundedRepetition { min: u32, max: u32, item: Box<Regex> },
    /// The items one after another.
    Sequence(Vec<Regex>),
    /// Any one of the items.
    Alternation(Vec<Regex>),
    /// A named placeholder standing for `item`.
    Placeholder { name: String, item: Box<Regex> },
}

/// A regular expression for a root rule, with its anchoring.
#[derive(Debug, PartialEq, Eq)]
pub struct AnchoredRegex {
    pub regex: Regex,
    /// The match must be preceded by a delimiter (pattern starts with `^`).
    pub anchor_before: bool,
    /// The match must be followed by a delimiter (pattern ends with `$`).
    pub anchor_after: bool,
    /// One more than the number of captures.
    pub total_captures: u16,
}

/// Why a pattern was rejected, and where.
#[derive(Debug, Clone, Copy, PartialEq, Eq, Structural)]
pub enum RegexErrorKind {
    UnexpectedEnd,
    UnexpectedChar(char),
    InvalidEscape(char),
    InvalidRange,
    InvalidRepetition,
    InvalidName,
    TooManyCaptures,
}

#[derive(Debug, Clone, Copy, PartialEq, Eq, Structural)]
pub struct RegexError {
    /// Character offset in the pattern.
    pub pos: usize,
    pub kind: RegexErrorKind,
}

/// Resolves placeholder names while parsing a pattern.
pub trait RegexPlaceholderLookup {
    /// The forms of the expressions that the known names stand for.
    spec fn resolution(&self) -> spec_fn(Seq<char>) -> Option<RegexShape>;

    fn lookup(&mut self, name: &str) -> (r: Option<Regex>)
        ensures
            r matches Some(re) ==> re.wf() && (old(self).resolution())(name@) == Some(re.shape()),
            r is None ==> (old(self).resolution())(name@) is None,
            final(self).resolution() == old(self).resolution(),
    ;
}

impl RegexPlaceholderLookup for () {
    open spec fn resolution(&self) -> spec_fn(Seq<char>) -> Option<RegexShape> {
        no_placeholders()
    }

    fn lookup(&mut self, name: &str) -> (r: Option<Regex>)
        ensures
            r is None,
    {
        None
    }
}

impl Regex {
    /// Structural validity: ranges are ordered and bounded repetitions are
    /// non-empty with `min <= max`.
    pub open spec fn wf(self) -> bool
        decreases self,
    {
        match self {
            Regex::AnyChar => true,
            Regex::Literal(_) => true,
            Regex::Capture(sub_rule) => sub_rule.regex.wf(),
            Regex::BracketedRanges { negated, items } => forall|i: int|
                0 <= i < items.len() ==> (#[trigger] items@[i]).0 as int <= items@[i].1 as int,
            Regex::KleeneClosure(item) => item.wf(),
            Regex::KleenePlus(item) => item.wf(),
            Regex::BoundedRepetition { min, max, item } => 0 < max && min <= max && item.wf(),
            Regex::Sequence(items) => forall|i: int| 0 <= i < items.len() ==> (#[trigger] items@[i]).wf(),
            Regex::Alternation(items) => forall|i: int|
                0 <= i < items.len() ==> (#[trigger] items@[i]).wf(),
            Regex::Placeholder { name, item } => item.wf(),
        }
    }

    /// Structural identity: the same tree, with equal leaves.
    pub open spec fn equiv(self, other: Regex) -> bool
        decreases self,
    {
        match (self, other) {
            (Regex::AnyChar, Regex::AnyChar) => true,
            (Regex::Literal(a), Regex::Literal(b)) => a == b,
            (Regex::Capture(a), Regex::Capture(b)) => a.regex.equiv(b.regex) && a.name == b.name
                && a.root_rule_idx == b.root_rule_idx && a.id == b.id && a.parent_id == b.parent_id
                && a.descendents == b.descendents && a.qualified_name == b.qualified_name
                && a.fully_qualified_name == b.fully_qualified_name,
            (
                Regex::BracketedRanges { negated: n1, items: i1 },
                Regex::BracketedRanges { negated: n2, items: i2 },
            ) => n1 == n2 && i1@ == i2@,
            (Regex::KleeneClosure(a), Regex::KleeneClosure(b)) => a.equiv(*b),
            (Regex::KleenePlus(a), Regex::KleenePlus(b)) => a.equiv(*b),
            (
                Regex::BoundedRepetition { min: m1, max: x1, item: a },
                Regex::BoundedRepetition { min: m2, max: x2, item: b },
            ) => m1 == m2 && x1 == x2 && a.equiv(*b),
            (Regex::Sequence(a), Regex::Sequence(b)) => a.len() == b.len() && forall|i: int|
                0 <= i < a.len() ==> (#[trigger] a@[i]).equiv(b@[i]),
            (Regex::Alternation(a), Regex::Alternation(b)) => a.len() == b.len() && forall|i: int|
                0 <= i < a.len() ==> (#[trigger] a@[i]).equiv(b@[i]),
            (Regex::Placeholder { name: n1, item: a }, Regex::Placeholder { name: n2, item: b }) => n1
                == n2 && a.equiv(*b),
            _ => false,
        }
    }

    /// Whether the expression matches the empty string.
    pub open spec fn nullable(self) -> bool
        decreases self,
    {
        match self {
            Regex::AnyChar => false,
            Regex::Literal(_) => false,
            Regex::Capture(sub_rule) => sub_rule.regex.nullable(),
            Regex::BracketedRanges { negated, items } => false,
            Regex::KleeneClosure(item) => true,
            Regex::KleenePlus(item) => item.nullable(),
            Regex::BoundedRepetition { min, max, item } => min == 0 || item.nullable(),
            Regex::Sequence(items) => forall|i: int|
                0 <= i < items.len() ==> (#[trigger] items@[i]).nullable(),
            Regex::Alternation(items) => exists|i: int|
                0 <= i < items.len() && (#[trigger] items@[i]).nullable(),
            Regex::Placeholder { name, item } => item.nullable(),
        }
    }

    /// Whether the expression matches the empty string.
    #[verifier::loop_isolation(false)]
    pub fn is_nullable(&self) -> (r: bool)
        ensures
            r == self.nullable(),
        decreases self,
    {
        match self {
            Regex::AnyChar => false,
            Regex::Literal(_) => false,
            Regex::Capture(sub_rule) => sub_rule.regex.is_nullable(),
            Regex::BracketedRanges { .. } => false,
            Regex::KleeneClosure(_) => true,
            Regex::KleenePlus(item) => item.is_nullable(),
            Regex::BoundedRepetition { min, item, .. } => *min == 0 || item.is_nullable(),
            Regex::Sequence(items) => {
                let mut i: usize = 0;
                while i < items.len()
                    invariant
                        0 <= i <= items.len(),
                        forall|k: int| 0 <= k < i ==> (#[trigger] items@[k]).nullable(),
                    decreases items.len() - i,
                {
                    proof {
                        assert(decreases_to!(*self => *items));
                        assert(decreases_to!(*items => items@[i as int]));
                    }
                    if !items[i].is_nullable() {
                        return false;
                    }
                    i = i + 1;
                }
                true
            },
            Regex::Alternation(items) => {
                let mut i: usize = 0;
                while i < items.len()
                    invariant
                        0 <= i <= items.len(),
                        forall|k: int| 0 <= k < i ==> !(#[trigger] items@[k]).nullable(),
                    decreases items.len() - i,
                {
                    proof {
                        assert(decreases_to!(*self => *items));
                        assert(decreases_to!(*items => items@[i as int]));
                    }
                    if items[i].is_nullable() {
                        return true;
                    }
                    i = i + 1;
                }
                false
            },
            Regex::Placeholder { item, .. } => item.is_nullable(),
        }
    }

    /// A structurally identical copy.
    #[verifier::loop_isolation(false)]
    pub fn deep_copy(&self) -> (r: Regex)
        ensures
            r.equiv(*self),
            r.wf() == self.wf(),
            r.nullable() == self.nullable(),
        decreases self,
    {
        match self {
            Regex::AnyChar => Regex::AnyChar,
            Regex::Literal(c) => Regex::Literal(*c),
            Regex::Capture(sub_rule) => {
                let copied: SubRule = sub_rule.deep_copy();
                let r: Regex = Regex::Capture(Box::new(copied));
                assert(r.wf() == self.wf());
                assert(r.nullable() == self.nullable());
                r
            },
            Regex::BracketedRanges { negated, items } => {
                let mut copied: Vec<(char, char)> = Vec::new();
                let mut i: usize = 0;
                while i < items.len()
                    invariant
                        0 <= i <= items.len(),
                        copied@ == items@.subrange(0, i as int),
                    decreases items.len() - i,
                {
                    let item: (char, char) = items[i];
                    copied.push(item);
                    proof {
                        assert(items@.subrange(0, i + 1) =~= items@.subrange(0, i as int).push(
                            items@[i as int],
                        ));
                    }
                    i = i + 1;
                }
                proof {
                    assert(items@.subrange(0, items@.len() as int) =~= items@);
                }
                assert(copied@ == items@);
                let r: Regex = Regex::BracketedRanges { negated: *negated, items: copied };
                assert(r->items@ == items@);
                assert(r.wf() == self.wf());
                r
            },
            Regex::KleeneClosure(item) => Regex::KleeneClosure(Box::new(item.deep_copy())),
            Regex::KleenePlus(item) => Regex::KleenePlus(Box::new(item.deep_copy())),
            Regex::BoundedRepetition { min, max, item } => Regex::BoundedRepetition {
                min: *min,
                max: *max,
                item: Box::new(item.deep_copy()),
            },
            Regex::Sequence(items) => {
                let mut copied: Vec<Regex> = Vec::new();
                let mut i: usize = 0;
                while i < items.len()
                    invariant
                        0 <= i <= items.len(),
                        copied.len() == i,
                        forall|k: int|
                            0 <= k < i ==> {
                                &&& (#[trigger] copied@[k]).equiv(items@[k])
                                &&& copied@[k].wf() == items@[k].wf()
                                &&& copied@[k].nullable() == items@[k].nullable()
                            },
                    decreases items.len() - i,
                {
                    proof {
                        assert(decreases_to!(*self => *items));
                        assert(decreases_to!(*items => items@[i as int]));
                    }
                    copied.push(items[i].deep_copy());
                    i = i + 1;
                }
                let r: Regex = Regex::Sequence(copied);
                proof {
                    if self.nullable() && !r.nullable() {
                        let w = choose|w: int| 0 <= w < items.len() && !(#[trigger] r->Sequence_0@[w]).nullable();
                        assert(items@[w].nullable());
                    }
                    if r.nullable() && !self.nullable() {
                        let w = choose|w: int| 0 <= w < items.len() && !(#[trigger] items@[w]).nullable();
                        assert(r->Sequence_0@[w].nullable());
                    }
                    if self.wf() && !r.wf() {
                        let w = choose|w: int| 0 <= w < items.len() && !(#[trigger] r->Sequence_0@[w]).wf();
                        assert(items@[w].wf());
                    }
                    if r.wf() && !self.wf() {
                        let w = choose|w: int| 0 <= w < items.len() && !(#[trigger] items@[w]).wf();
                        assert(r->Sequence_0@[w].wf());
                    }
                }
                r
            },
            Regex::Alternation(items) => {
                let mut copied: Vec<Regex> = Vec::new();
                let mut i: usize = 0;
                while i < items.len()
                    invariant
                        0 <= i <= items.len(),
                        copied.len() == i,
                        forall|k: int|
                            0 <= k < i ==> {
                                &&& (#[trigger] copied@[k]).equiv(items@[k])
                                &&& copied@[k].wf() == items@[k].wf()
                                &&& copied@[k].nullable() == items@[k].nullable()
                            },
                    decreases items.len() - i,
                {
                    proof {
                        assert(decreases_to!(*self => *items));
                        assert(decreases_to!(*items => items@[i as int]));
                    }
                    copied.push(items[i].deep_copy());
                    i = i + 1;
                }
                let r: Regex = Regex::Alternation(copied);
                proof {
                    if self.nullable() && !r.nullable() {
                        let w = choose|w: int| 0 <= w < items.len() && (#[trigger] items@[w]).nullable();
                        assert(r->Alternation_0@[w].nullable());
                    }
                    if r.nullable() && !self.nullable() {
                        let w = choose|w: int| 0 <= w < items.len() && (#[trigger] r->Alternation_0@[w]).nullable();
                        assert(items@[w].nullable());
                    }
                    if self.wf() && !r.wf() {
                        let w = choose|w: int| 0 <= w < items.len() && !(#[trigger] r->Alternation_0@[w]).wf();
                        assert(items@[w].wf());
                    }
                    if r.wf() && !self.wf() {
                        let w = choose|w: int| 0 <= w < items.len() && !(#[trigger] items@[w]).wf();
                        assert(r->Alternation_0@[w].wf());
                    }
                }
                r
            },
            Regex::Placeholder { name, item } => Regex::Placeholder {
                name: name.clone(),
                item: Box::new(item.deep_copy()),
            },
        }
    }
}

impl Regex {
    /// The captures of the expression in the order of their opening
    /// parentheses (outer before inner, left before right). The expression a
    /// placeholder stands for is not searched.
    pub open spec fn captures(self) -> Seq<SubRule>
        decreases self,
    {
        match self {
            Regex::Capture(sub_rule) => seq![*sub_rule] + sub_rule.regex.captures(),
            Regex::KleeneClosure(item) => item.captures(),
            Regex::KleenePlus(item) => item.captures(),
            Regex::BoundedRepetition { item, .. } => item.captures(),
            Regex::Sequence(items) => captures_of_items(items@),
            Regex::Alternation(items) => captures_of_items(items@),
            _ => Seq::empty(),
        }
    }
}

/// The captures of a list of expressions, one after another.
pub open spec fn captures_of_items(items: Seq<Regex>) -> Seq<SubRule>
    decreases items,
{
    if items.len() == 0 {
        Seq::empty()
    } else {
        captures_of_items(items.subrange(0, items.len() - 1)) + items[items.len() - 1].captures()
    }
}

/// The captures are numbered consecutively from `lo`, and `hi` is the next
/// number.
pub open spec fn numbered(caps: Seq<SubRule>, lo: int, hi: int) -> bool {
    &&& caps.len() == hi - lo
    &&& forall|k: int| 0 <= k < caps.len() ==> (#[trigger] caps[k]).id == lo + k
}

/// Structurally identical expressions have as many captures.
pub proof fn lemma_equiv_captures_len(a: Regex, b: Regex)
    requires
        a.equiv(b),
    ensures
        a.captures().len() == b.captures().len(),
    decreases a,
{
    match a {
        Regex::Capture(x) => {
            if let Regex::Capture(y) = b {
                lemma_equiv_captures_len(x.regex, y.regex);
            }
        },
        Regex::KleeneClosure(x) => {
            if let Regex::KleeneClosure(y) = b {
                lemma_equiv_captures_len(*x, *y);
            }
        },
        Regex::KleenePlus(x) => {
            if let Regex::KleenePlus(y) = b {
                lemma_equiv_captures_len(*x, *y);
            }
        },
        Regex::BoundedRepetition { item: x, .. } => {
            if let Regex::BoundedRepetition { item: y, .. } = b {
                lemma_equiv_captures_len(*x, *y);
            }
        },
        Regex::Sequence(xs) => {
            if let Regex::Sequence(ys) = b {
                lemma_equiv_items_captures_len(xs@, ys@);
            }
        },
        Regex::Alternation(xs) => {
            if let Regex::Alternation(ys) = b {
                lemma_equiv_items_captures_len(xs@, ys@);
            }
        },
        _ => {},
    }
}

/// Pointwise structurally identical lists have as many captures.
pub proof fn lemma_equiv_items_captures_len(xs: Seq<Regex>, ys: Seq<Regex>)
    requires
        xs.len() == ys.len(),
        forall|i: int| 0 <= i < xs.len() ==> (#[trigger] xs[i]).equiv(ys[i]),
    ensures
        captures_of_items(xs).len() == captures_of_items(ys).len(),
    decreases xs,
{
    if xs.len() > 0 {
        let n = xs.len() - 1;
        assert(xs.subrange(0, n).len() < xs.len());
        lemma_equiv_items_captures_len(xs.subrange(0, n), ys.subrange(0, n));
        assert(xs[n].equiv(ys[n]));
        lemma_equiv_captures_len(xs[n], ys[n]);
    }
}

/// The captures of two lists one after the other.
pub proof fn lemma_captures_of_items_concat(a: Seq<Regex>, b: Seq<Regex>)
    ensures
        captures_of_items(a + b) == captures_of_items(a) + captures_of_items(b),
    decreases b.len(),
{
    if b.len() == 0 {
        assert(a + b =~= a);
        assert(captures_of_items(a) + captures_of_items(b) =~= captures_of_items(a));
    } else {
        let c = b.subrange(0, b.len() - 1);
        lemma_captures_of_items_concat(a, c);
        assert((a + b).subrange(0, (a + b).len() - 1) =~= a + c);
        assert((a + b)[(a + b).len() - 1] == b[b.len() - 1]);
        assert(captures_of_items(a) + captures_of_items(c) + b[b.len() - 1].captures() =~= captures_of_items(a) + (
        captures_of_items(c) + b[b.len() - 1].captures()));
    }
}

pub proof fn lemma_captures_of_items_push(items: Seq<Regex>, item: Regex)
    ensures
        captures_of_items(items.push(item)) == captures_of_items(items) + item.captures(),
{
    assert(items.push(item).subrange(0, items.len() as int) =~= items);
}

pub proof fn lemma_captures_of_single(item: Regex)
    ensures
        captures_of_items(seq![item]) == item.captures(),
{
    lemma_captures_of_items_push(Seq::empty(), item);
    assert(Seq::<Regex>::empty().push(item) =~= seq![item]);
    assert(captures_of_items(Seq::<Regex>::empty()) + item.captures() =~= item.captures());
}

pub proof fn lemma_numbered_concat(a: Seq<SubRule>, b: Seq<SubRule>, lo: int, mid: int, hi: int)
    requires
        numbered(a, lo, mid),
        numbered(b, mid, hi),
    ensures
        numbered(a + b, lo, hi),
{
    assert forall|k: int| 0 <= k < (a + b).len() implies (#[trigger] (a + b)[k]).id == lo + k by {
        if k >= a.len() {
            assert((a + b)[k] == b[k - a.len()]);
        }
    }
}

impl Clone for Regex {
    fn clone(&self) -> (r: Regex)
        ensures
            r.equiv(*self),
            r.wf() == self.wf(),
            r.nullable() == self.nullable(),
    {
        self.deep_copy()
    }
}

impl SubRule {
    /// A copy with a structurally identical pattern.
    pub fn deep_copy(&self) -> (r: SubRule)
        ensures
            r.same_as(*self),
        decreases self,
    {
        SubRule {
            name: self.name.clone(),
            regex: self.regex.deep_copy(),
            root_rule_idx: self.root_rule_idx,
            id: self.id,
            parent_id: self.parent_id,
            descendents: self.descendents,
            qualified_name: self.qualified_name.clone(),
            fully_qualified_name: self.fully_qualified_name.clone(),
        }
    }
}

impl SubRule {
    /// Equal fields, and a structurally identical pattern.
    pub open spec fn same_as(self, other: SubRule) -> bool {
        &&& self.regex.equiv(other.regex)
        &&& self.regex.wf() == other.regex.wf()
        &&& self.regex.nullable() == other.regex.nullable()
        &&& self.name == other.name
        &&& self.root_rule_idx == other.root_rule_idx
        &&& self.id == other.id
        &&& self.parent_id == other.parent_id
        &&& self.descendents == other.descendents
        &&& self.qualified_name == other.qualified_name
        &&& self.fully_qualified_name == other.fully_qualified_name
    }
}

impl Clone for SubRule {
    fn clone(&self) -> (r: SubRule)
        ensures
            r.same_as(*self),
    {
        self.deep_copy()
    }
}

/// The ranges of the class denoted by the escape letter `e` (`d`, `w` or `s`,
/// in either case), with whether it is negated (upper case).
pub open spec fn class_escape_spec(e: char) -> Option<(bool, Seq<(char, char)>)> {
    let negated = e == 'D' || e == 'W' || e == 'S';
    if e == 'd' || e == 'D' {
        Some((negated, seq![('0', '9')]))
    } else if e == 'w' || e == 'W' {
        Some((negated, seq![('0', '9'), ('A', 'Z'), ('_', '_'), ('a', 'z')]))
    } else if e == 's' || e == 'S' {
        Some((negated, seq![('\t', '\r'), (' ', ' ')]))
    } else {
        None
    }
}

/// A class of characters given by an escape such as `\d`.
fn class_escape(e: char) -> (r: Option<(bool, Vec<(char, char)>)>)
    ensures
        r matches Some((negated, items)) ==> forall|i: int|
            0 <= i < items.len() ==> (#[trigger] items@[i]).0 as int <= items@[i].1 as int,
        r is Some == class_escape_spec(e) is Some,
        r matches Some((negated, items)) ==> class_escape_spec(e) == Some((negated, items@)),
{
    let negated: bool = e == 'D' || e == 'W' || e == 'S';
    let mut items: Vec<(char, char)> = Vec::new();
    if e == 'd' || e == 'D' {
        items.push(('0', '9'));
    } else if e == 'w' || e == 'W' {
        items.push(('0', '9'));
        items.push(('A', 'Z'));
        items.push(('_', '_'));
        items.push(('a', 'z'));
    } else if e == 's' || e == 'S' {
        items.push(('\t', '\r'));
        items.push((' ', ' '));
    } else {
        return None;
    }
    proof {
        if e == 'd' || e == 'D' {
            assert(items@ =~= seq![('0', '9')]);
        } else if e == 'w' || e == 'W' {
            assert(items@ =~= seq![('0', '9'), ('A', 'Z'), ('_', '_'), ('a', 'z')]);
        } else {
            assert(items@ =~= seq![('\t', '\r'), (' ', ' ')]);
        }
    }
    Some((negated, items))
}

/// The number of hexadecimal digits in a row from `pos`.
pub open spec fn hex_run(chars: Seq<char>, pos: int) -> nat
    decreases chars.len() - pos,
{
    if 0 <= pos < chars.len() && hex_value(chars[pos]) is Some {
        1 + hex_run(chars, pos + 1)
    } else {
        0
    }
}

/// The value of the hexadecimal digits `chars[pos..end]`.
pub open spec fn hex_number(chars: Seq<char>, pos: int, end: int) -> nat
    decreases end - pos,
{
    if end <= pos {
        0
    } else {
        hex_number(chars, pos, end - 1) * 16 + hex_value(chars[end - 1])->0 as nat
    }
}

pub open spec fn pow16(n: nat) -> nat
    decreases n,
{
    if n == 0 {
        1
    } else {
        16 * pow16((n - 1) as nat)
    }
}

/// Whether `v` is a Unicode scalar value.
pub open spec fn is_scalar(v: int) -> bool {
    v < 0xD800 || (0xE000 <= v && v <= 0x10FFFF)
}

/// The code point denoted by the escape whose letter is at `chars[pos]`
/// (just after the backslash), for escapes that denote one character, and
/// the position after the escape: `\t`, `\n`, `\r`, `\u{h..}` with one to
/// six hexadecimal digits naming a scalar value, or any character that is
/// not an ASCII letter or digit, standing for itself.
pub open spec fn escape_at(chars: Seq<char>, pos: int) -> Option<(int, int)> {
    let e = chars[pos];
    if e == 't' {
        Some(('\t' as int, pos + 1))
    } else if e == 'n' {
        Some(('\n' as int, pos + 1))
    } else if e == 'r' {
        Some(('\r' as int, pos + 1))
    } else if e == 'u' {
        let n = hex_run(chars, pos + 2);
        let close = pos + 2 + n;
        if pos + 1 < chars.len() && chars[pos + 1] == '{' && 1 <= n <= 6 && close < chars.len()
            && chars[close] == '}' && is_scalar(hex_number(chars, pos + 2, close) as int) {
            Some((hex_number(chars, pos + 2, close) as int, close + 1))
        } else {
            None
        }
    } else if ('0' as u32 <= e as u32 <= '9' as u32) || ('A' as u32 <= e as u32 <= 'Z' as u32) || (
    'a' as u32 <= e as u32 <= 'z' as u32) {
        None
    } else {
        Some((e as int, pos + 1))
    }
}

/// The character denoted by the escape starting at `chars[pos]` (just after
/// the backslash), for escapes that denote one character, and the position
/// after it.
fn escaped_char(chars: &Vec<char>, pos: usize) -> (r: Result<(char, usize), RegexError>)
    requires
        pos < chars.len(),
    ensures
        r matches Ok((c, end)) ==> pos < end <= chars.len(),
        r is Ok == escape_at(chars@, pos as int) is Some,
        r matches Ok((c, end)) ==> escape_at(chars@, pos as int) == Some((c as int, end as int)),
        r matches Err(e) ==> !(e.kind is TooManyCaptures),
{
    let e: char = chars[pos];
    if e == 't' {
        Ok(('\t', pos + 1))
    } else if e == 'n' {
        Ok(('\n', pos + 1))
    } else if e == 'r' {
        Ok(('\r', pos + 1))
    } else if e == 'u' {
        let mut p: usize = pos + 1;
        if p >= chars.len() || chars[p] != '{' {
            return Err(RegexError { pos: p, kind: RegexErrorKind::InvalidEscape('u') });
        }
        p = p + 1;
        let start: usize = p;
        let mut code: u32 = 0;
        let mut digits: usize = 0;
        proof {
            reveal_with_fuel(pow16, 7);
        }
        while p < chars.len() && chars[p] != '}'
            invariant
                pos + 2 == start <= p <= chars.len(),
                digits == p - start,
                digits <= 6,
                code == hex_number(chars@, start as int, p as int),
                code < pow16(digits as nat),
                pow16(0) == 1 && pow16(1) == 16 && pow16(2) == 0x100 && pow16(3) == 0x1000
                    && pow16(4) == 0x10000 && pow16(5) == 0x100000 && pow16(6) == 0x1000000,
                hex_run(chars@, start as int) == digits + hex_run(chars@, p as int),
                pos + 1 < chars.len() && chars@[pos + 1] == '{' && chars@[pos as int] == 'u',
            decreases chars.len() - p,
        {
            let c: char = chars[p];
            match hex_digit_value(c) {
                Some(d) => {
                    proof {
                        assert(hex_run(chars@, p as int) == 1 + hex_run(chars@, p + 1));
                    }
                    if digits == 6 {
                        return Err(RegexError { pos: p, kind: RegexErrorKind::InvalidEscape('u') });
                    }
                    if code >= 0x100000 {
                        proof {
                            assert(pow16(digits as nat) <= 0x100000);
                        }
                        return Err(RegexError { pos: p, kind: RegexErrorKind::InvalidEscape('u') });
                    }
                    assert(d < 16);
                    proof {
                        assert(c == chars@[p as int]);
                        assert(hex_number(chars@, start as int, p + 1) == hex_number(chars@, start as int, (p + 1) - 1) * 16
                            + hex_value(chars@[(p + 1) - 1])->0 as nat);
                        assert(pow16((digits + 1) as nat) == 16 * pow16(digits as nat));
                        assert(code * 16 + d < 16 * pow16(digits as nat)) by (nonlinear_arith)
                            requires
                                code < pow16(digits as nat),
                                d < 16,
                        ;
                    }
                    code = code * 16 + d;
                    digits = digits + 1;
                },
                None => {
                    proof {
                        assert(hex_run(chars@, p as int) == 0);
                    }
                    return Err(RegexError { pos: p, kind: RegexErrorKind::InvalidEscape('u') });
                },
            }
            p = p + 1;
        }
        proof {
            if p < chars.len() {
                assert(hex_value(chars@[p as int]) is None);
            }
            assert(hex_run(chars@, p as int) == 0);
        }
        if p >= chars.len() || digits == 0 {
            return Err(RegexError { pos: p, kind: RegexErrorKind::InvalidEscape('u') });
        }
        match char_from_u32(code) {
            Some(c) => Ok((c, p + 1)),
            None => Err(RegexError { pos: p, kind: RegexErrorKind::InvalidEscape('u') }),
        }
    } else if is_ascii_alphanumeric(e) {
        Err(RegexError { pos, kind: RegexErrorKind::InvalidEscape(e) })
    } else {
        Ok((e, pos + 1))
    }
}

fn is_ascii_alphanumeric(c: char) -> (r: bool)
    ensures
        r == (('0' as u32 <= c as u32 <= '9' as u32) || ('A' as u32 <= c as u32 <= 'Z' as u32) || (
        'a' as u32 <= c as u32 <= 'z' as u32)),
{
    let v: u32 = c as u32;
    (0x30 <= v && v <= 0x39) || (0x41 <= v && v <= 0x5A) || (0x61 <= v && v <= 0x7A)
}

/// The end of the items of a class from `p` on: each item is a class escape
/// such as `\d` (not negated), or a character (possibly escaped) optionally
/// followed by `-` and a character not below it; `]` closes the class.
pub open spec fn class_items_from(chars: Seq<char>, p: int) -> Option<int>
    decreases chars.len() - p, 0nat,
{
    if p < 0 || p >= chars.len() {
        None
    } else if chars[p] == ']' {
        Some(p + 1)
    } else if chars[p] == '\\' {
        if p + 1 >= chars.len() {
            None
        } else {
            match class_escape_spec(chars[p + 1]) {
                Some((false, _)) => class_items_from(chars, p + 2),
                Some((true, _)) => None,
                None => match escape_at(chars, p + 1) {
                    Some((lo, q)) => if q > p {
                        class_range_from(chars, lo, q)
                    } else {
                        None
                    },
                    None => None,
                },
            }
        }
    } else {
        class_range_from(chars, chars[p] as int, p + 1)
    }
}

/// The end of a class after an item starting with the code point `lo`,
/// with `p` just after that character: an optional `-hi` range end, then
/// the remaining items.
pub open spec fn class_range_from(chars: Seq<char>, lo: int, p: int) -> Option<int>
    decreases chars.len() - p, 1nat,
{
    if p < 0 || p > chars.len() {
        None
    } else if p < chars.len() && chars.len() - p > 1 && chars[p] == '-' && chars[p + 1] != ']' {
        if chars[p + 1] == '\\' {
            if p + 2 >= chars.len() {
                None
            } else {
                match escape_at(chars, p + 2) {
                    Some((hi, q)) => if hi < lo || q <= p {
                        None
                    } else {
                        class_items_from(chars, q)
                    },
                    None => None,
                }
            }
        } else if (chars[p + 1] as int) < lo {
            None
        } else {
            class_items_from(chars, p + 2)
        }
    } else {
        class_items_from(chars, p)
    }
}

/// The end of the class `[...]` or `[^...]` starting at `pos`.
pub open spec fn class_at(chars: Seq<char>, pos: int) -> Option<int> {
    if pos + 1 < chars.len() && chars[pos + 1] == '^' {
        class_items_from(chars, pos + 2)
    } else {
        class_items_from(chars, pos + 1)
    }
}

/// Parses a bracketed class starting at `chars[pos] == '['`.
fn parse_class(chars: &Vec<char>, pos: usize) -> (r: Result<(Regex, usize), RegexError>)
    requires
        pos < chars.len(),
    ensures
        r matches Ok((re, end)) ==> pos < end <= chars.len() && re.wf() && re is BracketedRanges,
        r matches Ok((re, end)) ==> re.shape() == class_shape(chars@, pos as int),
        r is Ok == class_at(chars@, pos as int) is Some,
        r matches Ok((re, end)) ==> class_at(chars@, pos as int) == Some(end as int),
        r matches Err(e) ==> !(e.kind is TooManyCaptures),
{
    let mut p: usize = pos + 1;
    let mut negated: bool = false;
    if p < chars.len() && chars[p] == '^' {
        negated = true;
        p = p + 1;
    }
    let mut items: Vec<(char, char)> = Vec::new();
    let ghost whole: RegexShape = class_shape(chars@, pos as int);
    proof {
        assert(ranges_of(items@) =~= Seq::<(int, int)>::empty());
        assert(whole->Class_ranges =~= ranges_of(items@) + class_ranges_from(chars@, p as int));
    }
    while p < chars.len() && chars[p] != ']'
        invariant
            pos < p <= chars.len(),
            forall|i: int| 0 <= i < items.len() ==> (#[trigger] items@[i]).0 as int <= items@[i].1 as int,
            class_items_from(chars@, p as int) == class_at(chars@, pos as int),
            whole == class_shape(chars@, pos as int),
            whole->Class_negated == negated,
            whole->Class_ranges == ranges_of(items@) + class_ranges_from(chars@, p as int),
        decreases chars.len() - p,
    {
        let lo: char;
        let ghost start: int = p as int;
        if chars[p] == '\\' {
            if p + 1 >= chars.len() {
                return Err(RegexError { pos: p, kind: RegexErrorKind::UnexpectedEnd });
            }
            match class_escape(chars[p + 1]) {
                Some((false, ranges)) => {
                    let mut k: usize = 0;
                    let ghost before = items@;
                    proof {
                        assert(before + ranges@.subrange(0, 0) =~= before);
                    }
                    while k < ranges.len()
                        invariant
                            0 <= k <= ranges.len(),
                            items@ == before + ranges@.subrange(0, k as int),
                            forall|i: int|
                                0 <= i < ranges.len() ==> (#[trigger] ranges@[i]).0 as int
                                    <= ranges@[i].1 as int,
                            forall|i: int|
                                0 <= i < items.len() ==> (#[trigger] items@[i]).0 as int
                                    <= items@[i].1 as int,
                        decreases ranges.len() - k,
                    {
                        items.push(ranges[k]);
                        proof {
                            assert(items@ =~= before + ranges@.subrange(0, k + 1));
                        }
                        k = k + 1;
                    }
                    proof {
                        assert(ranges@.subrange(0, k as int) =~= ranges@);
                        assert(ranges_of(before + ranges@) =~= ranges_of(before) + ranges_of(ranges@));
                        assert(class_ranges_from(chars@, p as int) == ranges_of(ranges@) + class_ranges_from(chars@, p + 2));
                        assert(ranges_of(before) + class_ranges_from(chars@, p as int) =~= ranges_of(items@)
                            + class_ranges_from(chars@, p + 2));
                    }
                    p = p + 2;
                    continue;
                },
                Some((true, _)) => {
                    return Err(RegexError { pos: p + 1, kind: RegexErrorKind::InvalidEscape(chars[p + 1]) });
                },
                None => {
                    let (c, q) = match escaped_char(chars, p + 1) {
                        Ok(v) => v,
                        Err(e) => return Err(e),
                    };
                    lo = c;
                    p = q;
                },
            }
        } else {
            lo = chars[p];
            p = p + 1;
        }
        proof {
            assert(class_range_from(chars@, lo as int, p as int) == class_items_from(chars@, start));
            assert(class_range_ranges(chars@, lo as int, p as int) == class_ranges_from(chars@, start));
        }
        let ghost mid = items@;
        let ghost p_mid: int = p as int;
        if p < chars.len() && chars.len() - p > 1 && chars[p] == '-' && chars[p + 1] != ']' {
            let hi: char;
            if chars[p + 1] == '\\' {
                if p + 2 >= chars.len() {
                    return Err(RegexError { pos: p + 1, kind: RegexErrorKind::UnexpectedEnd });
                }
                let (c, q) = match escaped_char(chars, p + 2) {
                    Ok(v) => v,
                    Err(e) => return Err(e),
                };
                hi = c;
                p = q;
            } else {
                hi = chars[p + 1];
                p = p + 2;
            }
            if hi < lo {
                return Err(RegexError { pos: p, kind: RegexErrorKind::InvalidRange });
            }
            assert(lo as int <= hi as int);
            items.push((lo, hi));
            proof {
                assert(class_range_ranges(chars@, lo as int, p_mid) == seq![(lo as int, hi as int)]
                    + class_ranges_from(chars@, p as int));
            }
        } else {
            items.push((lo, lo));
            proof {
                assert(class_range_ranges(chars@, lo as int, p_mid) == seq![(lo as int, lo as int)]
                    + class_ranges_from(chars@, p as int));
            }
        }
        proof {
            assert(class_items_from(chars@, p as int) == class_items_from(chars@, start));
            assert(ranges_of(items@) =~= ranges_of(mid) + seq![(items@.last().0 as int, items@.last().1 as int)]);
            assert(whole->Class_ranges =~= ranges_of(items@) + class_ranges_from(chars@, p as int));
        }
    }
    if p >= chars.len() {
        return Err(RegexError { pos: p, kind: RegexErrorKind::UnexpectedEnd });
    }
    Ok((Regex::BracketedRanges { negated, items }, p + 1))
}

/// Whether `c` is an ASCII decimal digit.
pub open spec fn is_digit(c: char) -> bool {
    '0' as u32 <= c as u32 <= '9' as u32
}

/// The number of decimal digits in a row from `pos`.
pub open spec fn digit_run(chars: Seq<char>, pos: int) -> nat
    decreases chars.len() - pos,
{
    if 0 <= pos < chars.len() && is_digit(chars[pos]) {
        1 + digit_run(chars, pos + 1)
    } else {
        0
    }
}

/// The value of the decimal digits `chars[pos..end]`.
pub open spec fn decimal(chars: Seq<char>, pos: int, end: int) -> nat
    decreases end - pos,
{
    if end <= pos {
        0
    } else {
        decimal(chars, pos, end - 1) * 10 + (chars[end - 1] as u32 - '0' as u32) as nat
    }
}

/// The number of one to six digits at `pos` (all the digits there), and
/// the position after it.
pub open spec fn number_at(chars: Seq<char>, pos: int) -> Option<(int, int)> {
    let n = digit_run(chars, pos);
    if 1 <= n <= 6 {
        Some((decimal(chars, pos, pos + n) as int, pos + n))
    } else {
        None
    }
}

pub open spec fn pow10(n: nat) -> nat
    decreases n,
{
    if n == 0 {
        1
    } else {
        10 * pow10((n - 1) as nat)
    }
}

/// Parses a decimal number of at most six digits starting at `chars[pos]`.
fn parse_number(chars: &Vec<char>, pos: usize) -> (r: Result<(u32, usize), RegexError>)
    requires
        pos <= chars.len(),
    ensures
        r matches Ok((v, end)) ==> pos < end <= chars.len() && v < 1000000,
        r is Ok == number_at(chars@, pos as int) is Some,
        r matches Ok((v, end)) ==> number_at(chars@, pos as int) == Some((v as int, end as int)),
        r matches Err(e) ==> !(e.kind is TooManyCaptures),
{
    let mut p: usize = pos;
    let mut value: u32 = 0;
    proof {
        reveal_with_fuel(pow10, 7);
    }
    while p < chars.len() && '0' as u32 <= chars[p] as u32 && chars[p] as u32 <= '9' as u32
        invariant
            pos <= p <= chars.len(),
            value < 1000000,
            p - pos <= 6,
            value == decimal(chars@, pos as int, p as int),
            value < pow10((p - pos) as nat),
            pow10(0) == 1 && pow10(1) == 10 && pow10(2) == 100 && pow10(3) == 1000 && pow10(4) == 10000
                && pow10(5) == 100000 && pow10(6) == 1000000,
            digit_run(chars@, pos as int) == (p - pos) + digit_run(chars@, p as int),
        decreases chars.len() - p,
    {
        proof {
            assert(digit_run(chars@, p as int) == 1 + digit_run(chars@, p + 1));
        }
        if p - pos == 6 {
            return Err(RegexError { pos: p, kind: RegexErrorKind::InvalidRepetition });
        }
        let c: char = chars[p];
        let d: u32 = c as u32 - '0' as u32;
        if value >= 100000 {
            proof {
                assert(pow10((p - pos) as nat) <= 100000);
            }
            return Err(RegexError { pos: p, kind: RegexErrorKind::InvalidRepetition });
        }
        proof {
            assert(c == chars@[p as int]);
            assert(decimal(chars@, pos as int, p + 1) == decimal(chars@, pos as int, (p + 1) - 1) * 10
                + (chars@[(p + 1) - 1] as u32 - '0' as u32) as nat);
            assert(decimal(chars@, pos as int, p + 1) == decimal(chars@, pos as int, p as int) * 10 + d);
            assert(pow10((p + 1 - pos) as nat) == 10 * pow10((p - pos) as nat));
            assert(value * 10 + d < 10 * pow10((p - pos) as nat)) by (nonlinear_arith)
                requires
                    value < pow10((p - pos) as nat),
                    d < 10,
            ;
        }
        value = value * 10 + d;
        p = p + 1;
    }
    if p == pos {
        return Err(RegexError { pos: p, kind: RegexErrorKind::InvalidRepetition });
    }
    Ok((value, p))
}

/// The counts of `{m}` or `{m,n}` at `pos` (with `0 < n` and `m <= n`), and
/// the position after the closing brace.
pub open spec fn counts_at(chars: Seq<char>, pos: int) -> Option<(int, int, int)> {
    match number_at(chars, pos + 1) {
        None => None,
        Some((min, p)) => {
            let second = if p < chars.len() && chars[p] == ',' {
                number_at(chars, p + 1)
            } else {
                Some((min, p))
            };
            match second {
                None => None,
                Some((max, q)) => if q < chars.len() && chars[q] == '}' && max != 0 && min <= max {
                    Some((min, max, q + 1))
                } else {
                    None
                },
            }
        },
    }
}

/// Parses `{m}` or `{m,n}` starting at `chars[pos] == '{'`.
fn parse_counts(chars: &Vec<char>, pos: usize) -> (r: Result<(u32, u32, usize), RegexError>)
    requires
        pos < chars.len(),
    ensures
        r matches Ok((min, max, end)) ==> pos < end <= chars.len() && 0 < max && min <= max,
        r is Ok == counts_at(chars@, pos as int) is Some,
        r matches Ok((min, max, end)) ==> counts_at(chars@, pos as int) == Some((min as int, max as int, end as int)),
        r matches Err(e) ==> !(e.kind is TooManyCaptures),
{
    let (min, p) = match parse_number(chars, pos + 1) {
        Ok(v) => v,
        Err(e) => return Err(e),
    };
    let max: u32;
    let mut q: usize = p;
    if q < chars.len() && chars[q] == ',' {
        let (m, q2) = match parse_number(chars, q + 1) {
            Ok(v) => v,
            Err(e) => return Err(e),
        };
        max = m;
        q = q2;
    } else {
        max = min;
    }
    if q >= chars.len() || chars[q] != '}' {
        return Err(RegexError { pos: q, kind: RegexErrorKind::InvalidRepetition });
    }
    if max == 0 || min > max {
        return Err(RegexError { pos: q, kind: RegexErrorKind::InvalidRepetition });
    }
    Ok((min, max, q + 1))
}

/// The pattern ends at `end`: at the end of input, or before `)`.
pub open spec fn ends_group(chars: Seq<char>, end: int) -> bool {
    end == chars.len() || chars[end] == ')'
}

/// Appends `.name` to a qualified capture name.
fn qualify(prefix: &Vec<char>, name: &Vec<char>) -> (r: Vec<char>)
    ensures
        r@ == prefix@.push('.') + name@,
{
    let mut out: Vec<char> = Vec::new();
    let mut i: usize = 0;
    while i < prefix.len()
        invariant
            0 <= i <= prefix.len(),
            out@ == prefix@.subrange(0, i as int),
        decreases prefix.len() - i,
    {
        out.push(prefix[i]);
        proof {
            assert(prefix@.subrange(0, i + 1) =~= prefix@.subrange(0, i as int).push(prefix@[i as int]));
        }
        i = i + 1;
    }
    out.push('.');
    let mut j: usize = 0;
    while j < name.len()
        invariant
            0 <= j <= name.len(),
            out@ == prefix@.push('.') + name@.subrange(0, j as int),
        decreases name.len() - j,
    {
        out.push(name[j]);
        proof {
            assert(name@.subrange(0, j + 1) =~= name@.subrange(0, j as int).push(name@[j as int]));
        }
        j = j + 1;
    }
    proof {
        assert(prefix@.subrange(0, prefix@.len() as int) =~= prefix@);
        assert(name@.subrange(0, name@.len() as int) =~= name@);
    }
    out
}

/// A character allowed in a capture name: an ASCII letter or digit, `_` or `-`.
pub open spec fn capture_name_char(c: char) -> bool {
    ('0' as u32 <= c as u32 <= '9' as u32) || ('A' as u32 <= c as u32 <= 'Z' as u32) || ('a' as u32 <= c as u32
        <= 'z' as u32) || c == '_' || c == '-'
}

fn is_name_char(c: char) -> (r: bool)
    ensures
        r == capture_name_char(c),
{
    is_ascii_alphanumeric(c) || c == '_' || c == '-'
}

/// The number of capture-name characters in a row from `p`.
pub open spec fn name_run(chars: Seq<char>, p: int) -> nat
    decreases chars.len() - p,
{
    if 0 <= p < chars.len() && capture_name_char(chars[p]) {
        1 + name_run(chars, p + 1)
    } else {
        0
    }
}

/// The end of the repetition operators (`*`, `+`, `?`, `{m}`, `{m,n}`) from
/// `p` on.
pub open spec fn suffixes_from(chars: Seq<char>, p: int) -> Option<int>
    decreases chars.len() - p,
{
    if p < 0 || p > chars.len() {
        None
    } else if p < chars.len() && (chars[p] == '*' || chars[p] == '+' || chars[p] == '?') {
        suffixes_from(chars, p + 1)
    } else if p < chars.len() && chars[p] == '{' {
        match counts_at(chars, p) {
            Some((_, _, q)) => if q > p {
                suffixes_from(chars, q)
            } else {
                None
            },
            None => None,
        }
    } else {
        Some(p)
    }
}

/// The end of the named group `(?<name>...)` starting at `pos`.
pub open spec fn group_at(chars: Seq<char>, pos: int) -> Option<int>
    decreases chars.len() - pos, 0nat,
{
    let n = name_run(chars, pos + 3);
    let close = pos + 3 + n;
    if 0 <= pos && n > 0 && close < chars.len() && chars[close] == '>' {
        match alternation_at(chars, close + 1) {
            Some(q) => if q < chars.len() {
                Some(q + 1)
            } else {
                None
            },
            None => None,
        }
    } else {
        None
    }
}

/// The end of the atom starting at `pos`: a group, a class, `.`, an escape
/// or a plain character.
pub open spec fn atom_at(chars: Seq<char>, pos: int) -> Option<int>
    decreases chars.len() - pos, 1nat,
{
    if pos < 0 || pos >= chars.len() {
        None
    } else {
        let c = chars[pos];
        if c == '(' {
            if chars.len() - pos > 2 && chars[pos + 1] == '?' && chars[pos + 2] == '<' {
                group_at(chars, pos)
            } else {
                let start = if chars.len() - pos > 2 && chars[pos + 1] == '?' && chars[pos + 2] == ':' {
                    pos + 3
                } else {
                    pos + 1
                };
                match alternation_at(chars, start) {
                    Some(q) => if q < chars.len() {
                        Some(q + 1)
                    } else {
                        None
                    },
                    None => None,
                }
            }
        } else if c == '[' {
            class_at(chars, pos)
        } else if c == '.' {
            Some(pos + 1)
        } else if c == '\\' {
            if pos + 1 >= chars.len() {
                None
            } else if class_escape_spec(chars[pos + 1]) is Some {
                Some(pos + 2)
            } else {
                match escape_at(chars, pos + 1) {
                    Some((_, q)) => Some(q),
                    None => None,
                }
            }
        } else if c == '*' || c == '+' || c == '?' || c == '{' || c == '|' || c == ')' {
            None
        } else {
            Some(pos + 1)
        }
    }
}

/// The end of an atom starting at `pos` and its repetition operators.
pub open spec fn repeat_at(chars: Seq<char>, pos: int) -> Option<int>
    decreases chars.len() - pos, 2nat,
{
    match atom_at(chars, pos) {
        Some(p) => suffixes_from(chars, p),
        None => None,
    }
}

/// The end of a concatenation from `p` on, which stops at the end of input,
/// `|` or `)`.
pub open spec fn sequence_from(chars: Seq<char>, p: int) -> Option<int>
    decreases chars.len() - p, 3nat,
{
    if p < 0 || p > chars.len() {
        None
    } else if p < chars.len() && chars[p] != '|' && chars[p] != ')' {
        match repeat_at(chars, p) {
            Some(q) => if p < q <= chars.len() {
                sequence_from(chars, q)
            } else {
                None
            },
            None => None,
        }
    } else {
        Some(p)
    }
}

/// The end of the alternatives after the first one, from `p` on.
pub open spec fn alternatives_from(chars: Seq<char>, p: int) -> Option<int>
    decreases chars.len() - p, 4nat,
{
    if p < 0 || p > chars.len() {
        None
    } else if p < chars.len() && chars[p] == '|' {
        match sequence_from(chars, p + 1) {
            Some(q) => if p < q <= chars.len() {
                alternatives_from(chars, q)
            } else {
                None
            },
            None => None,
        }
    } else {
        Some(p)
    }
}

/// The end of `a|b|...` starting at `pos`: at the end of input or before an
/// unmatched `)`.
pub open spec fn alternation_at(chars: Seq<char>, pos: int) -> Option<int>
    decreases chars.len() - pos, 5nat,
{
    match sequence_from(chars, pos) {
        Some(p) => if pos <= p <= chars.len() {
            alternatives_from(chars, p)
        } else {
            None
        },
        None => None,
    }
}

/// A named group opens at `k`: `(?<`.
pub open spec fn opens_group(chars: Seq<char>, k: int) -> bool {
    0 <= k && k + 2 < chars.len() && chars[k] == '(' && chars[k + 1] == '?' && chars[k + 2] == '<'
}

/// The number of named groups opening in `chars[i..j]`; each capture takes
/// one number, so these bound the numbers a parse of that span takes.
pub open spec fn group_openings(chars: Seq<char>, i: int, j: int) -> nat
    decreases j - i,
{
    if j <= i {
        0
    } else {
        group_openings(chars, i, j - 1) + if opens_group(chars, j - 1) {
            1nat
        } else {
            0nat
        }
    }
}

pub proof fn lemma_openings_split(chars: Seq<char>, i: int, k: int, j: int)
    requires
        i <= k <= j,
    ensures
        group_openings(chars, i, j) == group_openings(chars, i, k) + group_openings(chars, k, j),
    decreases j - k,
{
    if k < j {
        lemma_openings_split(chars, i, k, j - 1);
    }
}

/// The form of an expression: its tree with code points for characters and
/// with each capture's own name, leaving out the numbers and the qualified
/// names that parsing gives captures.
pub enum RegexShape {
    AnyChar,
    Literal(int),
    Class { negated: bool, ranges: Seq<(int, int)> },
    Capture { name: Seq<char>, body: Box<RegexShape> },
    Star(Box<RegexShape>),
    Plus(Box<RegexShape>),
    Repeat { min: int, max: int, item: Box<RegexShape> },
    Concat(Seq<RegexShape>),
    Alt(Seq<RegexShape>),
    Placeholder { name: Seq<char>, item: Box<RegexShape> },
}

/// The code points of the ranges of a class.
pub open spec fn ranges_of(items: Seq<(char, char)>) -> Seq<(int, int)> {
    items.map_values(|r: (char, char)| (r.0 as int, r.1 as int))
}

impl Regex {
    /// The form of the expression.
    pub open spec fn shape(self) -> RegexShape
        decreases self,
    {
        match self {
            Regex::AnyChar => RegexShape::AnyChar,
            Regex::Literal(c) => RegexShape::Literal(c as int),
            Regex::Capture(sub_rule) => RegexShape::Capture {
                name: sub_rule.name@,
                body: Box::new(sub_rule.regex.shape()),
            },
            Regex::BracketedRanges { negated, items } => RegexShape::Class { negated, ranges: ranges_of(items@) },
            Regex::KleeneClosure(item) => RegexShape::Star(Box::new(item.shape())),
            Regex::KleenePlus(item) => RegexShape::Plus(Box::new(item.shape())),
            Regex::BoundedRepetition { min, max, item } => RegexShape::Repeat {
                min: min as int,
                max: max as int,
                item: Box::new(item.shape()),
            },
            Regex::Sequence(items) => RegexShape::Concat(shapes_of(items@)),
            Regex::Alternation(items) => RegexShape::Alt(shapes_of(items@)),
            Regex::Placeholder { name, item } => RegexShape::Placeholder { name: name@, item: Box::new(item.shape()) },
        }
    }
}

/// The forms of a list of expressions.
pub open spec fn shapes_of(items: Seq<Regex>) -> Seq<RegexShape>
    decreases items,
{
    if items.len() == 0 {
        Seq::empty()
    } else {
        shapes_of(items.subrange(0, items.len() - 1)).push(items[items.len() - 1].shape())
    }
}

pub proof fn lemma_shapes_of_push(items: Seq<Regex>, item: Regex)
    ensures
        shapes_of(items.push(item)) == shapes_of(items).push(item.shape()),
{
    assert(items.push(item).subrange(0, items.len() as int) =~= items);
}

pub proof fn lemma_shapes_of_concat(a: Seq<Regex>, b: Seq<Regex>)
    ensures
        shapes_of(a + b) == shapes_of(a) + shapes_of(b),
    decreases b.len(),
{
    if b.len() == 0 {
        assert(a + b =~= a);
        assert(shapes_of(a) + shapes_of(b) =~= shapes_of(a));
    } else {
        let c = b.subrange(0, b.len() - 1);
        lemma_shapes_of_concat(a, c);
        assert((a + b).subrange(0, (a + b).len() - 1) =~= a + c);
        assert((a + b)[(a + b).len() - 1] == b[b.len() - 1]);
        assert(shapes_of(a) + shapes_of(c).push(b[b.len() - 1].shape()) =~= (shapes_of(a) + shapes_of(c)).push(
            b[b.len() - 1].shape(),
        ));
    }
}

pub proof fn lemma_shapes_of_single(item: Regex)
    ensures
        shapes_of(seq![item]) == seq![item.shape()],
{
    lemma_shapes_of_push(Seq::empty(), item);
    assert(Seq::<Regex>::empty().push(item) =~= seq![item]);
}

/// Structurally identical expressions have the same form.
pub proof fn lemma_equiv_shape(a: Regex, b: Regex)
    requires
        a.equiv(b),
    ensures
        a.shape() == b.shape(),
    decreases a,
{
    match (a, b) {
        (Regex::Capture(x), Regex::Capture(y)) => {
            lemma_equiv_shape(x.regex, y.regex);
        },
        (Regex::KleeneClosure(x), Regex::KleeneClosure(y)) => {
            lemma_equiv_shape(*x, *y);
        },
        (Regex::KleenePlus(x), Regex::KleenePlus(y)) => {
            lemma_equiv_shape(*x, *y);
        },
        (Regex::BoundedRepetition { item: x, .. }, Regex::BoundedRepetition { item: y, .. }) => {
            lemma_equiv_shape(*x, *y);
        },
        (Regex::Sequence(x), Regex::Sequence(y)) => {
            lemma_equiv_shapes(x@, y@);
        },
        (Regex::Alternation(x), Regex::Alternation(y)) => {
            lemma_equiv_shapes(x@, y@);
        },
        (Regex::Placeholder { item: x, .. }, Regex::Placeholder { item: y, .. }) => {
            lemma_equiv_shape(*x, *y);
        },
        _ => {},
    }
}

pub proof fn lemma_equiv_shapes(xs: Seq<Regex>, ys: Seq<Regex>)
    requires
        xs.len() == ys.len(),
        forall|i: int| 0 <= i < xs.len() ==> (#[trigger] xs[i]).equiv(ys[i]),
    ensures
        shapes_of(xs) == shapes_of(ys),
    decreases xs,
{
    if xs.len() > 0 {
        let n = xs.len() - 1;
        lemma_equiv_shapes(xs.subrange(0, n), ys.subrange(0, n));
        assert(xs[n].equiv(ys[n]));
        lemma_equiv_shape(xs[n], ys[n]);
    }
}

/// No name stands for an expression.
pub open spec fn no_placeholders() -> spec_fn(Seq<char>) -> Option<RegexShape> {
    |name: Seq<char>| None::<RegexShape>
}

/// The ranges of the class items from `p` on, up to the closing bracket.
pub open spec fn class_ranges_from(chars: Seq<char>, p: int) -> Seq<(int, int)>
    decreases chars.len() - p, 0nat,
{
    if p < 0 || p >= chars.len() || chars[p] == ']' {
        Seq::empty()
    } else if chars[p] == '\\' {
        if p + 1 >= chars.len() {
            Seq::empty()
        } else {
            match class_escape_spec(chars[p + 1]) {
                Some((_, rs)) => ranges_of(rs) + class_ranges_from(chars, p + 2),
                None => match escape_at(chars, p + 1) {
                    Some((lo, q)) => if q > p {
                        class_range_ranges(chars, lo, q)
                    } else {
                        Seq::empty()
                    },
                    None => Seq::empty(),
                },
            }
        }
    } else {
        class_range_ranges(chars, chars[p] as int, p + 1)
    }
}

/// The ranges of a class from the item starting with the code point `lo`,
/// with `p` just after that character.
pub open spec fn class_range_ranges(chars: Seq<char>, lo: int, p: int) -> Seq<(int, int)>
    decreases chars.len() - p, 1nat,
{
    if p < 0 || p > chars.len() {
        Seq::empty()
    } else if p < chars.len() && chars.len() - p > 1 && chars[p] == '-' && chars[p + 1] != ']' {
        if chars[p + 1] == '\\' {
            if p + 2 >= chars.len() {
                Seq::empty()
            } else {
                match escape_at(chars, p + 2) {
                    Some((hi, q)) => if q <= p {
                        Seq::empty()
                    } else {
                        seq![(lo, hi)] + class_ranges_from(chars, q)
                    },
                    None => Seq::empty(),
                }
            }
        } else {
            seq![(lo, chars[p + 1] as int)] + class_ranges_from(chars, p + 2)
        }
    } else {
        seq![(lo, lo)] + class_ranges_from(chars, p)
    }
}

/// The form of the class `[...]` or `[^...]` starting at `pos`.
pub open spec fn class_shape(chars: Seq<char>, pos: int) -> RegexShape {
    if pos + 1 < chars.len() && chars[pos + 1] == '^' {
        RegexShape::Class { negated: true, ranges: class_ranges_from(chars, pos + 2) }
    } else {
        RegexShape::Class { negated: false, ranges: class_ranges_from(chars, pos + 1) }
    }
}

/// The form of the named group starting at `pos`, and its end: a placeholder
/// where the group is empty and `res` knows the name, else a capture.
pub open spec fn group_tree(
    chars: Seq<char>,
    pos: int,
    res: spec_fn(Seq<char>) -> Option<RegexShape>,
) -> Option<(RegexShape, int)>
    decreases chars.len() - pos, 0nat,
{
    let n = name_run(chars, pos + 3);
    let close = pos + 3 + n;
    if 0 <= pos && n > 0 && close < chars.len() && chars[close] == '>' {
        let name = chars.subrange(pos + 3, close);
        if close + 1 < chars.len() && chars[close + 1] == ')' && res(name) is Some {
            Some((RegexShape::Placeholder { name, item: Box::new(res(name)->0) }, close + 2))
        } else {
            match alternation_tree(chars, close + 1, res) {
                Some((body, q)) => if close + 1 <= q < chars.len() {
                    Some((RegexShape::Capture { name, body: Box::new(body) }, q + 1))
                } else {
                    None
                },
                None => None,
            }
        }
    } else {
        None
    }
}

/// The form of the atom starting at `pos`, and its end.
pub open spec fn atom_tree(
    chars: Seq<char>,
    pos: int,
    res: spec_fn(Seq<char>) -> Option<RegexShape>,
) -> Option<(RegexShape, int)>
    decreases chars.len() - pos, 1nat,
{
    if pos < 0 || pos >= chars.len() {
        None
    } else {
        let c = chars[pos];
        if c == '(' {
            if chars.len() - pos > 2 && chars[pos + 1] == '?' && chars[pos + 2] == '<' {
                group_tree(chars, pos, res)
            } else {
                let start = if chars.len() - pos > 2 && chars[pos + 1] == '?' && chars[pos + 2] == ':' {
                    pos + 3
                } else {
                    pos + 1
                };
                match alternation_tree(chars, start, res) {
                    Some((body, q)) => if start <= q < chars.len() {
                        Some((body, q + 1))
                    } else {
                        None
                    },
                    None => None,
                }
            }
        } else if c == '[' {
            match class_at(chars, pos) {
                Some(q) => Some((class_shape(chars, pos), q)),
                None => None,
            }
        } else if c == '.' {
            Some((RegexShape::AnyChar, pos + 1))
        } else if c == '\\' {
            if pos + 1 >= chars.len() {
                None
            } else {
                match class_escape_spec(chars[pos + 1]) {
                    Some((negated, rs)) => Some((RegexShape::Class { negated, ranges: ranges_of(rs) }, pos + 2)),
                    None => match escape_at(chars, pos + 1) {
                        Some((v, q)) => Some((RegexShape::Literal(v), q)),
                        None => None,
                    },
                }
            }
        } else if c == '*' || c == '+' || c == '?' || c == '{' || c == '|' || c == ')' {
            None
        } else {
            Some((RegexShape::Literal(c as int), pos + 1))
        }
    }
}

/// The form of `base` followed by the repetition operators from `p` on, and
/// the end of the operators.
pub open spec fn suffix_tree(chars: Seq<char>, p: int, base: RegexShape) -> Option<(RegexShape, int)>
    decreases chars.len() - p,
{
    if p < 0 || p > chars.len() {
        None
    } else if p < chars.len() && chars[p] == '*' {
        suffix_tree(chars, p + 1, RegexShape::Star(Box::new(base)))
    } else if p < chars.len() && chars[p] == '+' {
        suffix_tree(chars, p + 1, RegexShape::Plus(Box::new(base)))
    } else if p < chars.len() && chars[p] == '?' {
        suffix_tree(chars, p + 1, RegexShape::Repeat { min: 0, max: 1, item: Box::new(base) })
    } else if p < chars.len() && chars[p] == '{' {
        match counts_at(chars, p) {
            Some((min, max, q)) => if q > p {
                suffix_tree(chars, q, RegexShape::Repeat { min, max, item: Box::new(base) })
            } else {
                None
            },
            None => None,
        }
    } else {
        Some((base, p))
    }
}

/// The form of the atom at `pos` with its repetition operators, and the end.
pub open spec fn repeat_tree(
    chars: Seq<char>,
    pos: int,
    res: spec_fn(Seq<char>) -> Option<RegexShape>,
) -> Option<(RegexShape, int)>
    decreases chars.len() - pos, 2nat,
{
    match atom_tree(chars, pos, res) {
        Some((a, p)) => if pos < p {
            suffix_tree(chars, p, a)
        } else {
            None
        },
        None => None,
    }
}

/// The items an item contributes to an enclosing concatenation: those of a
/// concatenation, or the item itself.
pub open spec fn joined(item: RegexShape) -> Seq<RegexShape> {
    match item {
        RegexShape::Concat(items) => items,
        _ => seq![item],
    }
}

/// A concatenation of the items, or the item where there is one.
pub open spec fn concat_of(items: Seq<RegexShape>) -> RegexShape {
    if items.len() == 1 {
        items[0]
    } else {
        RegexShape::Concat(items)
    }
}

/// The items of the concatenation from `p` on, and its end (at the end of
/// input, `|` or `)`).
pub open spec fn sequence_tree(
    chars: Seq<char>,
    p: int,
    res: spec_fn(Seq<char>) -> Option<RegexShape>,
) -> Option<(Seq<RegexShape>, int)>
    decreases chars.len() - p, 3nat,
{
    if p < 0 || p > chars.len() {
        None
    } else if p < chars.len() && chars[p] != '|' && chars[p] != ')' {
        match repeat_tree(chars, p, res) {
            Some((item, q)) => if p < q <= chars.len() {
                match sequence_tree(chars, q, res) {
                    Some((rest, e)) => Some((joined(item) + rest, e)),
                    None => None,
                }
            } else {
                None
            },
            None => None,
        }
    } else {
        Some((Seq::empty(), p))
    }
}

/// The forms of the alternatives after the first one, from `p` on, and
/// their end.
pub open spec fn alternatives_tree(
    chars: Seq<char>,
    p: int,
    res: spec_fn(Seq<char>) -> Option<RegexShape>,
) -> Option<(Seq<RegexShape>, int)>
    decreases chars.len() - p, 4nat,
{
    if p < 0 || p > chars.len() {
        None
    } else if p < chars.len() && chars[p] == '|' {
        match sequence_tree(chars, p + 1, res) {
            Some((items, q)) => if p < q <= chars.len() {
                match alternatives_tree(chars, q, res) {
                    Some((rest, e)) => Some((seq![concat_of(items)] + rest, e)),
                    None => None,
                }
            } else {
                None
            },
            None => None,
        }
    } else {
        Some((Seq::empty(), p))
    }
}

/// The form of `a|b|...` starting at `pos`, and its end.
pub open spec fn alternation_tree(
    chars: Seq<char>,
    pos: int,
    res: spec_fn(Seq<char>) -> Option<RegexShape>,
) -> Option<(RegexShape, int)>
    decreases chars.len() - pos, 5nat,
{
    match sequence_tree(chars, pos, res) {
        Some((first, p)) => if pos <= p <= chars.len() {
            match alternatives_tree(chars, p, res) {
                Some((rest, e)) => if rest.len() == 0 {
                    Some((concat_of(first), e))
                } else {
                    Some((RegexShape::Alt(seq![concat_of(first)] + rest), e))
                },
                None => None,
            }
        } else {
            None
        },
        None => None,
    }
}

/// `t` with `done` put before its items.
pub open spec fn with_prefix(done: Seq<RegexShape>, t: Option<(Seq<RegexShape>, int)>) -> Option<(Seq<RegexShape>, int)> {
    match t {
        Some((rest, e)) => Some((done + rest, e)),
        None => None,
    }
}

/// The alternation of `done` and the alternatives of `t`.
pub open spec fn alternation_with(done: Seq<RegexShape>, t: Option<(Seq<RegexShape>, int)>) -> Option<(RegexShape, int)> {
    match t {
        Some((rest, e)) => Some((RegexShape::Alt(done + rest), e)),
        None => None,
    }
}

pub proof fn lemma_shapes_of_len(items: Seq<Regex>)
    ensures
        shapes_of(items).len() == items.len(),
        forall|i: int| 0 <= i < items.len() ==> (#[trigger] shapes_of(items)[i]) == items[i].shape(),
    decreases items.len(),
{
    if items.len() > 0 {
        let n = items.len() - 1;
        lemma_shapes_of_len(items.subrange(0, n));
        assert forall|i: int| 0 <= i < items.len() implies (#[trigger] shapes_of(items)[i]) == items[i].shape() by {
            if i < n {
                assert(items.subrange(0, n)[i] == items[i]);
            }
        }
    }
}

/// The form of the whole pattern, where it is well formed, with `res`
/// resolving placeholder names.
pub open spec fn pattern_tree(chars: Seq<char>, res: spec_fn(Seq<char>) -> Option<RegexShape>) -> Option<
    RegexShape,
> {
    match alternation_tree(chars, 0, res) {
        Some((s, e)) => if e == chars.len() {
            Some(s)
        } else {
            None
        },
        None => None,
    }
}

/// `r` stands for a parse whose syntax ends at `expected`: it succeeds there,
/// and it fails only where the syntax does, or for want of capture numbers.
pub open spec fn parsed_as(r: Result<(Regex, usize), RegexError>, expected: Option<int>) -> bool {
    &&& r matches Ok((_, end)) ==> expected == Some(end as int)
    &&& expected is Some ==> (r is Ok || r->Err_0.kind is TooManyCaptures)
}

/// Parses `a|b|...` starting at `pos`, up to the end of input or an unmatched `)`.
fn parse_alternation<L: RegexPlaceholderLookup>(
    chars: &Vec<char>,
    pos: usize,
    next_id: &mut u16,
    parent: Option<u16>,
    prefix: &Vec<char>,
    lookup: &mut L,
) -> (r: Result<(Regex, usize), RegexError>)
    requires
        pos <= chars.len(),
    ensures
        *final(next_id) >= *old(next_id),
        r matches Ok((re, end)) ==> pos <= end <= chars.len() && re.wf() && ends_group(chars@, end as int)
            && numbered(re.captures(), *old(next_id) as int, *final(next_id) as int),
        parsed_as(r, alternation_at(chars@, pos as int)),
        final(lookup).resolution() == old(lookup).resolution(),
        r matches Ok((re, end)) ==> alternation_tree(chars@, pos as int, old(lookup).resolution()) == Some((re.shape(), end as int)),
        r matches Ok((_, end)) ==> *final(next_id) - *old(next_id) <= group_openings(chars@, pos as int, end as int),
        r matches Err(e) && e.kind is TooManyCaptures ==> group_openings(chars@, pos as int, chars@.len() as int)
            + *old(next_id) > u16::MAX,
    decreases chars.len() - pos, 4nat,
{
    let ghost res = lookup.resolution();
    let (first, mut p) = match parse_sequence(chars, pos, next_id, parent, prefix, lookup) {
        Ok(v) => v,
        Err(e) => return Err(e),
    };
    proof {
        lemma_openings_split(chars@, pos as int, p as int, chars@.len() as int);
    }
    if p >= chars.len() || chars[p] != '|' {
        return Ok((first, p));
    }
    let mut items: Vec<Regex> = Vec::new();
    items.push(first);
    proof {
        lemma_captures_of_single(first);
        assert(items@ =~= seq![first]);
        lemma_shapes_of_single(first);
        let t = alternatives_tree(chars@, p as int, res);
        if let Some((rest, e)) = t {
            assert(rest.len() > 0);
            assert(seq![first.shape()] + rest =~= shapes_of(items@) + rest);
        }
        assert(alternation_tree(chars@, pos as int, res) == alternation_with(shapes_of(items@), t));
    }
    while p < chars.len() && chars[p] == '|'
        invariant
            pos <= p <= chars.len(),
            *next_id >= *old(next_id),
            numbered(captures_of_items(items@), *old(next_id) as int, *next_id as int),
            forall|i: int| 0 <= i < items.len() ==> (#[trigger] items@[i]).wf(),
            p == chars.len() || chars@[p as int] == '|' || chars@[p as int] == ')',
            alternatives_from(chars@, p as int) == alternation_at(chars@, pos as int),
            *next_id - *old(next_id) <= group_openings(chars@, pos as int, p as int),
            lookup.resolution() == res,
            res == old(lookup).resolution(),
            alternation_tree(chars@, pos as int, res) == alternation_with(shapes_of(items@), alternatives_tree(chars@, p as int, res)),
        decreases chars.len() - p,
    {
        let ghost before: u16 = *next_id;
        let ghost prev = items@;
        proof {
            lemma_openings_split(chars@, pos as int, p as int, p + 1);
            lemma_openings_split(chars@, pos as int, p + 1, chars@.len() as int);
        }
        let (item, q) = match parse_sequence(chars, p + 1, next_id, parent, prefix, lookup) {
            Ok(v) => v,
            Err(e) => return Err(e),
        };
        proof {
            lemma_openings_split(chars@, pos as int, p + 1, q as int);
        }
        proof {
            lemma_numbered_concat(captures_of_items(prev), item.captures(), *old(next_id) as int, before as int, *next_id as int);
        }
        items.push(item);
        proof {
            lemma_captures_of_items_push(prev, item);
            lemma_shapes_of_push(prev, item);
            let t = alternatives_tree(chars@, q as int, res);
            if let Some((rest, e)) = t {
                assert(shapes_of(prev) + (seq![item.shape()] + rest) =~= shapes_of(items@) + rest);
            }
        }
        p = q;
    }
    proof {
        assert(shapes_of(items@) + Seq::<RegexShape>::empty() =~= shapes_of(items@));
    }
    Ok((Regex::Alternation(items), p))
}

/// Parses a concatenation starting at `pos`, up to the end of input, `|` or `)`.
fn parse_sequence<L: RegexPlaceholderLookup>(
    chars: &Vec<char>,
    pos: usize,
    next_id: &mut u16,
    parent: Option<u16>,
    prefix: &Vec<char>,
    lookup: &mut L,
) -> (r: Result<(Regex, usize), RegexError>)
    requires
        pos <= chars.len(),
    ensures
        *final(next_id) >= *old(next_id),
        r matches Ok((re, end)) ==> pos <= end <= chars.len() && re.wf() && (end == chars.len()
            || chars@[end as int] == '|' || chars@[end as int] == ')') && numbered(re.captures(), *old(next_id) as int, *final(next_id) as int),
        parsed_as(r, sequence_from(chars@, pos as int)),
        final(lookup).resolution() == old(lookup).resolution(),
        r matches Ok((re, end)) ==> (sequence_tree(chars@, pos as int, old(lookup).resolution()) matches Some((s, e))
            && e == end && re.shape() == concat_of(s)),
        r matches Ok((_, end)) ==> *final(next_id) - *old(next_id) <= group_openings(chars@, pos as int, end as int),
        r matches Err(e) && e.kind is TooManyCaptures ==> group_openings(chars@, pos as int, chars@.len() as int)
            + *old(next_id) > u16::MAX,
    decreases chars.len() - pos, 3nat,
{
    let ghost res = lookup.resolution();
    let mut items: Vec<Regex> = Vec::new();
    let mut p: usize = pos;
    proof {
        if let Some((rest, e)) = sequence_tree(chars@, pos as int, res) {
            assert(Seq::<RegexShape>::empty() + rest =~= rest);
        }
    }
    while p < chars.len() && chars[p] != '|' && chars[p] != ')'
        invariant
            pos <= p <= chars.len(),
            lookup.resolution() == res,
            res == old(lookup).resolution(),
            sequence_tree(chars@, pos as int, res) == with_prefix(shapes_of(items@), sequence_tree(chars@, p as int, res)),
            *next_id >= *old(next_id),
            numbered(captures_of_items(items@), *old(next_id) as int, *next_id as int),
            forall|i: int| 0 <= i < items.len() ==> (#[trigger] items@[i]).wf(),
            sequence_from(chars@, p as int) == sequence_from(chars@, pos as int),
            *next_id - *old(next_id) <= group_openings(chars@, pos as int, p as int),
        decreases chars.len() - p,
    {
        let ghost before: u16 = *next_id;
        let ghost prev = items@;
        proof {
            lemma_openings_split(chars@, pos as int, p as int, chars@.len() as int);
        }
        let (item, q) = match parse_repeat(chars, p, next_id, parent, prefix, lookup) {
            Ok(v) => v,
            Err(e) => return Err(e),
        };
        proof {
            lemma_openings_split(chars@, pos as int, p as int, q as int);
        }
        proof {
            lemma_numbered_concat(captures_of_items(prev), item.captures(), *old(next_id) as int, before as int, *next_id as int);
        }
        let ghost item_shape = item.shape();
        match item {
            Regex::Sequence(inner) => {
                // A group holding a concatenation joins the enclosing one.
                let ghost whole = inner@;
                let mut rest: Vec<Regex> = inner;
                let ghost mut taken: int = 0;
                proof {
                    assert(prev + whole.subrange(0, 0) =~= prev);
                }
                while rest.len() > 0
                    invariant
                        0 <= taken <= whole.len(),
                        rest@ == whole.subrange(taken, whole.len() as int),
                        items@ == prev + whole.subrange(0, taken),
                        forall|i: int| 0 <= i < whole.len() ==> (#[trigger] whole[i]).wf(),
                        forall|i: int| 0 <= i < prev.len() ==> (#[trigger] prev[i]).wf(),
                    decreases rest.len(),
                {
                    let x: Regex = rest.remove(0);
                    proof {
                        assert(x == whole[taken]);
                        assert(rest@ =~= whole.subrange(taken + 1, whole.len() as int));
                    }
                    items.push(x);
                    proof {
                        assert(items@ =~= prev + whole.subrange(0, taken + 1));
                        taken = taken + 1;
                    }
                }
                proof {
                    assert(whole.subrange(0, taken) =~= whole);
                    lemma_captures_of_items_concat(prev, whole);
                    lemma_shapes_of_concat(prev, whole);
                    assert(joined(item_shape) == shapes_of(whole));
                    if let Some((rest, e)) = sequence_tree(chars@, q as int, res) {
                        assert(shapes_of(prev) + (shapes_of(whole) + rest) =~= shapes_of(items@) + rest);
                    }
                    assert forall|i: int| 0 <= i < items.len() implies (#[trigger] items@[i]).wf() by {
                        if i >= prev.len() {
                            assert(items@[i] == whole[i - prev.len()]);
                        }
                    }
                }
            },
            other => {
                items.push(other);
                proof {
                    lemma_captures_of_items_push(prev, other);
                    lemma_shapes_of_push(prev, other);
                    assert(joined(item_shape) == seq![other.shape()]);
                    if let Some((rest, e)) = sequence_tree(chars@, q as int, res) {
                        assert(shapes_of(prev) + (seq![other.shape()] + rest) =~= shapes_of(items@) + rest);
                    }
                }
            },
        }
        p = q;
    }
    proof {
        lemma_shapes_of_len(items@);
        assert(shapes_of(items@) + Seq::<RegexShape>::empty() =~= shapes_of(items@));
    }
    if items.len() == 1 {
        proof {
            assert(items@ =~= seq![items@[0]]);
            lemma_captures_of_single(items@[0]);
        }
        let item: Regex = items.pop().unwrap();
        Ok((item, p))
    } else {
        Ok((Regex::Sequence(items), p))
    }
}

/// Parses an atom followed by any repetition operators.
fn parse_repeat<L: RegexPlaceholderLookup>(
    chars: &Vec<char>,
    pos: usize,
    next_id: &mut u16,
    parent: Option<u16>,
    prefix: &Vec<char>,
    lookup: &mut L,
) -> (r: Result<(Regex, usize), RegexError>)
    requires
        pos < chars.len(),
        chars@[pos as int] != '|',
        chars@[pos as int] != ')',
    ensures
        *final(next_id) >= *old(next_id),
        r matches Ok((re, end)) ==> pos < end <= chars.len() && re.wf() && numbered(re.captures(), *old(next_id) as int, *final(next_id) as int),
        parsed_as(r, repeat_at(chars@, pos as int)),
        final(lookup).resolution() == old(lookup).resolution(),
        r matches Ok((re, end)) ==> repeat_tree(chars@, pos as int, old(lookup).resolution()) == Some((re.shape(), end as int)),
        r matches Ok((_, end)) ==> *final(next_id) - *old(next_id) <= group_openings(chars@, pos as int, end as int),
        r matches Err(e) && e.kind is TooManyCaptures ==> group_openings(chars@, pos as int, chars@.len() as int)
            + *old(next_id) > u16::MAX,
    decreases chars.len() - pos, 2nat,
{
    let ghost res = lookup.resolution();
    let (mut re, mut p) = match parse_atom(chars, pos, next_id, parent, prefix, lookup) {
        Ok(v) => v,
        Err(e) => return Err(e),
    };
    while p < chars.len()
        invariant
            pos < p <= chars.len(),
            lookup.resolution() == res,
            res == old(lookup).resolution(),
            suffix_tree(chars@, p as int, re.shape()) == repeat_tree(chars@, pos as int, res),
            suffixes_from(chars@, p as int) == repeat_at(chars@, pos as int),
            re.wf(),
            *next_id >= *old(next_id),
            numbered(re.captures(), *old(next_id) as int, *next_id as int),
            *next_id - *old(next_id) <= group_openings(chars@, pos as int, p as int),
        ensures
            *next_id - *old(next_id) <= group_openings(chars@, pos as int, p as int),
            lookup.resolution() == res,
            res == old(lookup).resolution(),
            suffix_tree(chars@, p as int, re.shape()) == repeat_tree(chars@, pos as int, res),
            suffix_tree(chars@, p as int, re.shape()) == Some((re.shape(), p as int)),
            pos < p <= chars.len(),
            suffixes_from(chars@, p as int) == repeat_at(chars@, pos as int),
            suffixes_from(chars@, p as int) == Some(p as int),
            re.wf(),
            *next_id >= *old(next_id),
            numbered(re.captures(), *old(next_id) as int, *next_id as int),
        decreases chars.len() - p,
    {
        let c: char = chars[p];
        proof {
            lemma_openings_split(chars@, pos as int, p as int, p + 1);
        }
        if c == '*' {
            re = Regex::KleeneClosure(Box::new(re));
            p = p + 1;
        } else if c == '+' {
            re = Regex::KleenePlus(Box::new(re));
            p = p + 1;
        } else if c == '?' {
            re = Regex::BoundedRepetition { min: 0, max: 1, item: Box::new(re) };
            p = p + 1;
        } else if c == '{' {
            let (min, max, q) = match parse_counts(chars, p) {
                Ok(v) => v,
                Err(e) => return Err(e),
            };
            proof {
                lemma_openings_split(chars@, pos as int, p as int, q as int);
            }
            re = Regex::BoundedRepetition { min, max, item: Box::new(re) };
            p = q;
        } else {
            break;
        }
    }
    Ok((re, p))
}

/// Parses a named group `(?<name>...)` starting at `pos`: a capture, or a
/// placeholder where the group is empty and `lookup` knows the name.
fn parse_named_group<L: RegexPlaceholderLookup>(
    chars: &Vec<char>,
    pos: usize,
    next_id: &mut u16,
    parent: Option<u16>,
    prefix: &Vec<char>,
    lookup: &mut L,
) -> (r: Result<(Regex, usize), RegexError>)
    requires
        pos + 3 <= chars.len(),
        opens_group(chars@, pos as int),
    ensures
        *final(next_id) >= *old(next_id),
        r matches Ok((re, end)) ==> pos < end <= chars.len() && re.wf() && numbered(re.captures(), *old(next_id) as int, *final(next_id) as int),
        parsed_as(r, group_at(chars@, pos as int)),
        final(lookup).resolution() == old(lookup).resolution(),
        r matches Ok((re, end)) ==> group_tree(chars@, pos as int, old(lookup).resolution()) == Some((re.shape(), end as int)),
        r matches Ok((_, end)) ==> *final(next_id) - *old(next_id) <= group_openings(chars@, pos as int, end as int),
        r matches Err(e) && e.kind is TooManyCaptures ==> group_openings(chars@, pos as int, chars@.len() as int)
            + *old(next_id) > u16::MAX,
    decreases chars.len() - pos, 0nat,
{
    let ghost res = lookup.resolution();
    let mut p: usize = pos + 3;
    let mut name: Vec<char> = Vec::new();
    while p < chars.len() && chars[p] != '>'
        invariant
            pos + 3 <= p <= chars.len(),
            name@.len() == p - pos - 3,
            name@ == chars@.subrange(pos + 3, p as int),
            name_run(chars@, pos + 3) == name@.len() + name_run(chars@, p as int),
        decreases chars.len() - p,
    {
        if !is_name_char(chars[p]) {
            proof {
                assert(name_run(chars@, p as int) == 0);
            }
            return Err(RegexError { pos: p, kind: RegexErrorKind::InvalidName });
        }
        proof {
            assert(name_run(chars@, p as int) == 1 + name_run(chars@, p + 1));
        }
        name.push(chars[p]);
        proof {
            assert(name@ =~= chars@.subrange(pos + 3, p + 1));
        }
        p = p + 1;
    }
    let ghost close: int = p as int;
    proof {
        if p < chars.len() {
            assert(!capture_name_char(chars@[p as int]));
            assert(name_run(chars@, p as int) == 0);
        }
    }
    if p >= chars.len() || name.len() == 0 {
        return Err(RegexError { pos: p, kind: RegexErrorKind::InvalidName });
    }
    p = p + 1;
    let name_string: String = string_of(name.as_slice());
    if p < chars.len() && chars[p] == ')' {
        match lookup.lookup(name_string.as_str()) {
            Some(item) => {
                let placeholder: Regex = Regex::Placeholder { name: name_string, item: Box::new(item) };
                assert(placeholder.wf());
                proof {
                    assert(name_run(chars@, pos + 3) == close - pos - 3);
                    assert(res(chars@.subrange(pos + 3, close)) == Some(item.shape()));
                    assert(placeholder.shape() == RegexShape::Placeholder {
                        name: chars@.subrange(pos + 3, close),
                        item: Box::new(item.shape()),
                    });
                }
                proof {
                    assert(sequence_from(chars@, p as int) == Some(p as int));
                    assert(alternatives_from(chars@, p as int) == Some(p as int));
                    assert(alternation_at(chars@, p as int) == Some(p as int));
                }
                return Ok((placeholder, p + 1));
            },
            None => {},
        }
    }
    let id: u16 = *next_id;
    proof {
        assert(group_openings(chars@, pos as int, pos + 1) == 1) by {
            assert(group_openings(chars@, pos as int, pos as int) == 0);
        }
        lemma_openings_split(chars@, pos as int, pos + 1, p as int);
        lemma_openings_split(chars@, pos as int, p as int, chars@.len() as int);
        lemma_openings_split(chars@, pos as int, pos + 1, chars@.len() as int);
    }
    if id == u16::MAX {
        return Err(RegexError { pos, kind: RegexErrorKind::TooManyCaptures });
    }
    *next_id = id + 1;
    let qualified: Vec<char> = qualify(prefix, &name);
    let (body, q) = match parse_alternation(chars, p, next_id, Some(id), &qualified, lookup) {
        Ok(v) => v,
        Err(e) => return Err(e),
    };
    proof {
        lemma_openings_split(chars@, pos as int, p as int, q as int);
        lemma_openings_split(chars@, pos as int, q as int, q + 1);
    }
    if q >= chars.len() {
        return Err(RegexError { pos: q, kind: RegexErrorKind::UnexpectedEnd });
    }
    proof {
        assert(name_run(chars@, pos + 3) == close - pos - 3);
        assert(name_string@ == chars@.subrange(pos + 3, close));
        assert(!(close + 1 < chars@.len() && chars@[close + 1] == ')' && res(chars@.subrange(pos + 3, close)) is Some));
    }
    let descendents: usize = (*next_id - id - 1) as usize;
    let qualified_name: String = string_of(qualified.as_slice());
    let fully_qualified_name: String = string_of(qualified.as_slice());
    let sub_rule: SubRule = SubRule {
        name: name_string,
        regex: body,
        root_rule_idx: RuleIdx(u16::MAX),
        id,
        parent_id: parent,
        descendents,
        qualified_name,
        fully_qualified_name,
    };
    Ok((Regex::Capture(Box::new(sub_rule)), q + 1))
}

/// The expression matching exactly `c`.
pub(crate) fn literal(c: char) -> (r: Regex)
    ensures
        r == Regex::Literal(c),
        r.wf(),
{
    Regex::Literal(c)
}

/// Parses one atom: a character, a class, a group or a capture.
fn parse_atom<L: RegexPlaceholderLookup>(
    chars: &Vec<char>,
    pos: usize,
    next_id: &mut u16,
    parent: Option<u16>,
    prefix: &Vec<char>,
    lookup: &mut L,
) -> (r: Result<(Regex, usize), RegexError>)
    requires
        pos < chars.len(),
    ensures
        *final(next_id) >= *old(next_id),
        r matches Ok((re, end)) ==> pos < end <= chars.len() && re.wf() && numbered(re.captures(), *old(next_id) as int, *final(next_id) as int),
        parsed_as(r, atom_at(chars@, pos as int)),
        final(lookup).resolution() == old(lookup).resolution(),
        r matches Ok((re, end)) ==> atom_tree(chars@, pos as int, old(lookup).resolution()) == Some((re.shape(), end as int)),
        r matches Ok((_, end)) ==> *final(next_id) - *old(next_id) <= group_openings(chars@, pos as int, end as int),
        r matches Err(e) && e.kind is TooManyCaptures ==> group_openings(chars@, pos as int, chars@.len() as int)
            + *old(next_id) > u16::MAX,
    decreases chars.len() - pos, 1nat,
{
    let c: char = chars[pos];
    if c == '(' {
        if chars.len() - pos > 2 && chars[pos + 1] == '?' && chars[pos + 2] == '<' {
            parse_named_group(chars, pos, next_id, parent, prefix, lookup)
        } else {
            let start: usize = if chars.len() - pos > 2 && chars[pos + 1] == '?' && chars[pos + 2] == ':' {
                pos + 3
            } else {
                pos + 1
            };
            proof {
                lemma_openings_split(chars@, pos as int, start as int, chars@.len() as int);
            }
            let (body, q) = match parse_alternation(chars, start, next_id, parent, prefix, lookup) {
                Ok(v) => v,
                Err(e) => return Err(e),
            };
            proof {
                lemma_openings_split(chars@, pos as int, start as int, q as int);
                lemma_openings_split(chars@, pos as int, q as int, q + 1);
            }
            if q >= chars.len() {
                return Err(RegexError { pos: q, kind: RegexErrorKind::UnexpectedEnd });
            }
            Ok((body, q + 1))
        }
    } else if c == '[' {
        parse_class(chars, pos)
    } else if c == '.' {
        Ok((Regex::AnyChar, pos + 1))
    } else if c == '\\' {
        if pos + 1 >= chars.len() {
            return Err(RegexError { pos, kind: RegexErrorKind::UnexpectedEnd });
        }
        match class_escape(chars[pos + 1]) {
            Some((negated, items)) => {
                Ok((Regex::BracketedRanges { negated, items }, pos + 2))
            },
            None => {
                match escaped_char(chars, pos + 1) {
                    Ok((e, q)) => Ok((literal(e), q)),
                    Err(err) => Err(err),
                }
            },
        }
    } else if c == '*' || c == '+' || c == '?' || c == '{' || c == '|' || c == ')' {
        Err(RegexError { pos, kind: RegexErrorKind::UnexpectedChar(c) })
    } else {
        Ok((literal(c), pos + 1))
    }
}

/// Whether `chars` is a well-formed pattern: one alternation spanning all
/// of it.
pub open spec fn pattern_ok(chars: Seq<char>) -> bool {
    alternation_at(chars, 0) == Some(chars.len() as int)
}

/// Parses a whole pattern (as characters); returns the expression and one more
/// than the number of captures.
fn parse_chars<L: RegexPlaceholderLookup>(chars: &Vec<char>, lookup: &mut L) -> (r: Result<
    (Regex, u16),
    RegexError,
>)
    ensures
        r matches Ok((re, total)) ==> re.wf() && total >= 1 && numbered(re.captures(), 1, total as int),
        r is Ok ==> pattern_ok(chars@),
        pattern_ok(chars@) ==> r is Ok || r->Err_0.kind is TooManyCaptures,
        pattern_ok(chars@) && group_openings(chars@, 0, chars@.len() as int) < 0xffff ==> r is Ok,
        r matches Ok((re, _)) ==> pattern_tree(chars@, old(lookup).resolution()) == Some(re.shape()),
        final(lookup).resolution() == old(lookup).resolution(),
{
    let mut next_id: u16 = 1;
    let prefix: Vec<char> = Vec::new();
    let (re, end) = match parse_alternation(chars, 0, &mut next_id, None, &prefix, lookup) {
        Ok(v) => v,
        Err(e) => return Err(e),
    };
    if end < chars.len() {
        return Err(RegexError { pos: end, kind: RegexErrorKind::UnexpectedChar(chars[end]) });
    }
    Ok((re, next_id))
}

impl Regex {
    /// Parses an (unanchored) pattern.
    pub fn from_pattern(pattern: &str) -> (r: Result<Regex, RegexError>)
        ensures
            r matches Ok(re) ==> re.wf(),
            r is Ok ==> pattern_ok(pattern@),
            pattern_ok(pattern@) ==> r is Ok || r->Err_0.kind is TooManyCaptures,
            pattern_ok(pattern@) && group_openings(pattern@, 0, pattern@.len() as int) < 0xffff ==> r is Ok,
            r matches Ok(re) ==> pattern_tree(pattern@, no_placeholders()) == Some(re.shape()),
    {
        let chars: Vec<char> = chars_of(pattern);
        match parse_chars(&chars, &mut ()) {
            Ok((re, _)) => Ok(re),
            Err(e) => Err(e),
        }
    }

    /// Parses an (unanchored) pattern; an empty named group `(?<name>)`
    /// whose name `lookup` resolves becomes a placeholder.
    pub fn from_pattern_with_placeholders<L: RegexPlaceholderLookup>(pattern: &str, lookup: &mut L) -> (r:
        Result<Regex, RegexError>)
        ensures
            r matches Ok(re) ==> re.wf(),
            r is Ok ==> pattern_ok(pattern@),
            pattern_ok(pattern@) ==> r is Ok || r->Err_0.kind is TooManyCaptures,
            pattern_ok(pattern@) && group_openings(pattern@, 0, pattern@.len() as int) < 0xffff ==> r is Ok,
            r matches Ok(re) ==> pattern_tree(pattern@, old(lookup).resolution()) == Some(re.shape()),
            final(lookup).resolution() == old(lookup).resolution(),
    {
        let chars: Vec<char> = chars_of(pattern);
        match parse_chars(&chars, lookup) {
            Ok((re, _)) => Ok(re),
            Err(e) => Err(e),
        }
    }
}

/// The number of backslashes immediately before position `i`.
pub open spec fn backslashes_before(chars: Seq<char>, i: int) -> nat
    decreases i,
{
    if i <= 0 || i > chars.len() || chars[i - 1] != '\\' {
        0
    } else {
        1 + backslashes_before(chars, i - 1)
    }
}

/// Whether the character at `i` is preceded by an odd number of backslashes.
fn is_escaped(chars: &Vec<char>, i: usize) -> (r: bool)
    requires
        i <= chars.len(),
    ensures
        r == (backslashes_before(chars@, i as int) % 2 == 1),
{
    let mut count: usize = 0;
    let mut j: usize = i;
    while j > 0 && chars[j - 1] == '\\'
        invariant
            j <= i <= chars.len(),
            count == i - j,
            backslashes_before(chars@, i as int) == count + backslashes_before(chars@, j as int),
        decreases j,
    {
        count = count + 1;
        j = j - 1;
    }
    count % 2 == 1
}

/// Whether a rule pattern anchors its start: it begins with `^`.
pub open spec fn anchors_before(pattern: Seq<char>) -> bool {
    pattern.len() > 0 && pattern[0] == '^'
}

/// Whether a rule pattern anchors its end: after any leading `^`, it ends
/// with a `$` not escaped by a backslash.
pub open spec fn anchors_after(pattern: Seq<char>) -> bool {
    let start: int = if anchors_before(pattern) {
        1
    } else {
        0
    };
    pattern.len() > start && pattern[pattern.len() - 1] == '$' && backslashes_before(pattern, pattern.len() - 1)
        % 2 == 0
}

/// The body of a rule pattern, without its anchors.
pub open spec fn anchored_body(pattern: Seq<char>) -> Seq<char> {
    let start: int = if anchors_before(pattern) {
        1
    } else {
        0
    };
    let end: int = if anchors_after(pattern) {
        pattern.len() - 1
    } else {
        pattern.len() as int
    };
    pattern.subrange(start, end)
}

/// A rule pattern that parses: its body is well formed and has fewer named
/// groups than there are capture numbers.
pub open spec fn rule_pattern_ok(pattern: Seq<char>) -> bool {
    &&& pattern_ok(anchored_body(pattern))
    &&& group_openings(anchored_body(pattern), 0, anchored_body(pattern).len() as int) < 0xffff
}

impl AnchoredRegex {
    /// A copy with a structurally identical expression.
    pub fn deep_copy(&self) -> (r: AnchoredRegex)
        ensures
            r.regex.equiv(self.regex),
            r.regex.wf() == self.regex.wf(),
            r.anchor_before == self.anchor_before,
            r.anchor_after == self.anchor_after,
            r.total_captures == self.total_captures,
    {
        AnchoredRegex {
            regex: self.regex.deep_copy(),
            anchor_before: self.anchor_before,
            anchor_after: self.anchor_after,
            total_captures: self.total_captures,
        }
    }
}

impl AnchoredRegex {
    /// Parses a rule pattern; a leading `^` anchors the start and an
    /// unescaped trailing `$` anchors the end.
    pub fn from_pattern_with_placeholders<L: RegexPlaceholderLookup>(pattern: &str, lookup: &mut L) -> (r:
        Result<AnchoredRegex, RegexError>)
        ensures
            r matches Ok(a) ==> a.regex.wf() && a.total_captures >= 1 && numbered(
                a.regex.captures(),
                1,
                a.total_captures as int,
            ),
            r matches Ok(a) ==> a.anchor_before == anchors_before(pattern@) && a.anchor_after == anchors_after(
                pattern@,
            ),
            r is Ok ==> pattern_ok(anchored_body(pattern@)),
            pattern_ok(anchored_body(pattern@)) ==> r is Ok || r->Err_0.kind is TooManyCaptures,
            rule_pattern_ok(pattern@) ==> r is Ok,
            r matches Ok(a) ==> pattern_tree(anchored_body(pattern@), old(lookup).resolution()) == Some(a.regex.shape()),
            final(lookup).resolution() == old(lookup).resolution(),
    {
        let chars: Vec<char> = chars_of(pattern);
        let n: usize = chars.len();
        let anchor_before: bool = n > 0 && chars[0] == '^';
        let start: usize = if anchor_before {
            1
        } else {
            0
        };
        let anchor_after: bool = n > start && chars[n - 1] == '$' && !is_escaped(&chars, n - 1);
        let end: usize = if anchor_after {
            n - 1
        } else {
            n
        };
        let mut inner: Vec<char> = Vec::new();
        let mut i: usize = start;
        proof {
            assert(anchor_before == anchors_before(chars@));
            assert(anchor_after == anchors_after(chars@));
        }
        while i < end
            invariant
                start <= i <= end <= n == chars.len(),
                inner@ == chars@.subrange(start as int, i as int),
            decreases end - i,
        {
            inner.push(chars[i]);
            proof {
                assert(chars@.subrange(start as int, i + 1) =~= chars@.subrange(start as int, i as int).push(
                    chars@[i as int],
                ));
            }
            i = i + 1;
        }
        proof {
            assert(inner@ == anchored_body(pattern@));
        }
        match parse_chars(&inner, lookup) {
            Ok((regex, total_captures)) => Ok(AnchoredRegex { regex, anchor_before, anchor_after, total_captures }),
            Err(e) => Err(e),
        }
    }

    /// Parses a rule pattern without placeholders.
    pub fn from_pattern(pattern: &str) -> (r: Result<AnchoredRegex, RegexError>)
        ensures
            r matches Ok(a) ==> a.regex.wf() && a.total_captures >= 1 && numbered(
                a.regex.captures(),
                1,
                a.total_captures as int,
            ),
            r matches Ok(a) ==> a.anchor_before == anchors_before(pattern@) && a.anchor_after == anchors_after(
                pattern@,
            ),
            r is Ok ==> pattern_ok(anchored_body(pattern@)),
            pattern_ok(anchored_body(pattern@)) ==> r is Ok || r->Err_0.kind is TooManyCaptures,
            rule_pattern_ok(pattern@) ==> r is Ok,
            r matches Ok(a) ==> pattern_tree(anchored_body(pattern@), no_placeholders()) == Some(a.regex.shape()),
    {
        AnchoredRegex::from_pattern_with_placeholders(pattern, &mut ())
    }
}

} // verus!
