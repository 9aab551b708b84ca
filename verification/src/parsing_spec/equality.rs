//! Equality of parsing specifications: the same rules, placeholders,
//! encodings and delimiters, with structurally identical patterns.

use vstd::prelude::*;
use vstd::std_specs::cmp::PartialEqSpecImpl;

use crate::parsing_spec::Encoding;
use crate::parsing_spec::ParsingSpec;
use crate::parsing_spec::RootRule;
use crate::parsing_spec::RuleInfo;
use crate::parsing_spec::SubRule;
use crate::regex::Regex;

verus! {

/// The same tree, with equal leaves and names.
pub open spec fn same_regex(a: Regex, b: Regex) -> bool
    decreases a,
{
    match (a, b) {
        (Regex::AnyChar, Regex::AnyChar) => true,
        (Regex::Literal(x), Regex::Literal(y)) => x == y,
        (Regex::Capture(x), Regex::Capture(y)) => {
            &&& same_regex(x.regex, y.regex)
            &&& x.name@ == y.name@
            &&& x.root_rule_idx == y.root_rule_idx
            &&& x.id == y.id
            &&& x.parent_id == y.parent_id
            &&& x.descendents == y.descendents
            &&& x.qualified_name@ == y.qualified_name@
            &&& x.fully_qualified_name@ == y.fully_qualified_name@
        },
        (
            Regex::BracketedRanges { negated: n1, items: i1 },
            Regex::BracketedRanges { negated: n2, items: i2 },
        ) => n1 == n2 && i1@ == i2@,
        (Regex::KleeneClosure(x), Regex::KleeneClosure(y)) => same_regex(*x, *y),
        (Regex::KleenePlus(x), Regex::KleenePlus(y)) => same_regex(*x, *y),
        (
            Regex::BoundedRepetition { min: m1, max: x1, item: x },
            Regex::BoundedRepetition { min: m2, max: x2, item: y },
        ) => m1 == m2 && x1 == x2 && same_regex(*x, *y),
        (Regex::Sequence(x), Regex::Sequence(y)) => x.len() == y.len() && forall|i: int|
            0 <= i < x.len() ==> same_regex(#[trigger] x@[i], y@[i]),
        (Regex::Alternation(x), Regex::Alternation(y)) => x.len() == y.len() && forall|i: int|
            0 <= i < x.len() ==> same_regex(#[trigger] x@[i], y@[i]),
        (Regex::Placeholder { name: n1, item: x }, Regex::Placeholder { name: n2, item: y }) => n1@ == n2@
            && same_regex(*x, *y),
        _ => false,
    }
}

/// Structural identity of patterns is the same relation as [`same_regex`].
pub proof fn lemma_equiv_same(a: Regex, b: Regex)
    requires
        a.equiv(b),
    ensures
        same_regex(a, b),
    decreases a,
{
    match (a, b) {
        (Regex::Capture(x), Regex::Capture(y)) => {
            lemma_equiv_same(x.regex, y.regex);
        },
        (Regex::KleeneClosure(x), Regex::KleeneClosure(y)) => {
            lemma_equiv_same(*x, *y);
        },
        (Regex::KleenePlus(x), Regex::KleenePlus(y)) => {
            lemma_equiv_same(*x, *y);
        },
        (Regex::BoundedRepetition { item: x, .. }, Regex::BoundedRepetition { item: y, .. }) => {
            lemma_equiv_same(*x, *y);
        },
        (Regex::Sequence(x), Regex::Sequence(y)) => {
            assert forall|i: int| 0 <= i < x.len() implies same_regex(#[trigger] x@[i], y@[i]) by {
                lemma_equiv_same(x@[i], y@[i]);
            }
        },
        (Regex::Alternation(x), Regex::Alternation(y)) => {
            assert forall|i: int| 0 <= i < x.len() implies same_regex(#[trigger] x@[i], y@[i]) by {
                lemma_equiv_same(x@[i], y@[i]);
            }
        },
        (Regex::Placeholder { item: x, .. }, Regex::Placeholder { item: y, .. }) => {
            lemma_equiv_same(*x, *y);
        },
        _ => {},
    }
}

/// [`same_regex`] is symmetric.
pub proof fn lemma_same_regex_symmetric(a: Regex, b: Regex)
    requires
        same_regex(a, b),
    ensures
        same_regex(b, a),
    decreases a,
{
    match (a, b) {
        (Regex::Capture(x), Regex::Capture(y)) => {
            lemma_same_regex_symmetric(x.regex, y.regex);
        },
        (Regex::KleeneClosure(x), Regex::KleeneClosure(y)) => {
            lemma_same_regex_symmetric(*x, *y);
        },
        (Regex::KleenePlus(x), Regex::KleenePlus(y)) => {
            lemma_same_regex_symmetric(*x, *y);
        },
        (Regex::BoundedRepetition { item: x, .. }, Regex::BoundedRepetition { item: y, .. }) => {
            lemma_same_regex_symmetric(*x, *y);
        },
        (Regex::Sequence(x), Regex::Sequence(y)) => {
            assert forall|i: int| 0 <= i < y.len() implies same_regex(#[trigger] y@[i], x@[i]) by {
                lemma_same_regex_symmetric(x@[i], y@[i]);
            }
        },
        (Regex::Alternation(x), Regex::Alternation(y)) => {
            assert forall|i: int| 0 <= i < y.len() implies same_regex(#[trigger] y@[i], x@[i]) by {
                lemma_same_regex_symmetric(x@[i], y@[i]);
            }
        },
        (Regex::Placeholder { item: x, .. }, Regex::Placeholder { item: y, .. }) => {
            lemma_same_regex_symmetric(*x, *y);
        },
        _ => {},
    }
}

/// [`same_regex`] is transitive.
pub proof fn lemma_same_regex_transitive(a: Regex, b: Regex, c: Regex)
    requires
        same_regex(a, b),
        same_regex(b, c),
    ensures
        same_regex(a, c),
    decreases a,
{
    match (a, b, c) {
        (Regex::Capture(x), Regex::Capture(y), Regex::Capture(z)) => {
            lemma_same_regex_transitive(x.regex, y.regex, z.regex);
        },
        (Regex::KleeneClosure(x), Regex::KleeneClosure(y), Regex::KleeneClosure(z)) => {
            lemma_same_regex_transitive(*x, *y, *z);
        },
        (Regex::KleenePlus(x), Regex::KleenePlus(y), Regex::KleenePlus(z)) => {
            lemma_same_regex_transitive(*x, *y, *z);
        },
        (
            Regex::BoundedRepetition { item: x, .. },
            Regex::BoundedRepetition { item: y, .. },
            Regex::BoundedRepetition { item: z, .. },
        ) => {
            lemma_same_regex_transitive(*x, *y, *z);
        },
        (Regex::Sequence(x), Regex::Sequence(y), Regex::Sequence(z)) => {
            assert forall|i: int| 0 <= i < x.len() implies same_regex(#[trigger] x@[i], z@[i]) by {
                lemma_same_regex_transitive(x@[i], y@[i], z@[i]);
            }
        },
        (Regex::Alternation(x), Regex::Alternation(y), Regex::Alternation(z)) => {
            assert forall|i: int| 0 <= i < x.len() implies same_regex(#[trigger] x@[i], z@[i]) by {
                lemma_same_regex_transitive(x@[i], y@[i], z@[i]);
            }
        },
        (
            Regex::Placeholder { item: x, .. },
            Regex::Placeholder { item: y, .. },
            Regex::Placeholder { item: z, .. },
        ) => {
            lemma_same_regex_transitive(*x, *y, *z);
        },
        _ => {},
    }
}

/// The same capture.
pub open spec fn same_sub_rule(x: SubRule, y: SubRule) -> bool {
    &&& same_regex(x.regex, y.regex)
    &&& x.name@ == y.name@
    &&& x.root_rule_idx == y.root_rule_idx
    &&& x.id == y.id
    &&& x.parent_id == y.parent_id
    &&& x.descendents == y.descendents
    &&& x.qualified_name@ == y.qualified_name@
    &&& x.fully_qualified_name@ == y.fully_qualified_name@
}

/// The same description of a rule or capture.
pub open spec fn same_info(x: RuleInfo, y: RuleInfo) -> bool {
    &&& x.root_idx == y.root_idx
    &&& x.root_name@ == y.root_name@
    &&& x.fully_qualified_name@ == y.fully_qualified_name@
    &&& match (x.maybe_sub_rule, y.maybe_sub_rule) {
        (None, None) => true,
        (Some(a), Some(b)) => same_sub_rule(a, b),
        _ => false,
    }
}

/// The same rule.
pub open spec fn same_rule(x: RootRule, y: RootRule) -> bool {
    &&& x.idx == y.idx
    &&& x.name@ == y.name@
    &&& x.priority == y.priority
    &&& same_regex(x.regex.regex, y.regex.regex)
    &&& x.regex.anchor_before == y.regex.anchor_before
    &&& x.regex.anchor_after == y.regex.anchor_after
    &&& x.regex.total_captures == y.regex.total_captures
    &&& x.maybe_encoding == y.maybe_encoding
    &&& x.rule_info@.len() == y.rule_info@.len()
    &&& forall|i: int| 0 <= i < x.rule_info@.len() ==> same_info(#[trigger] x.rule_info@[i], y.rule_info@[i])
}

/// The same encoding.
pub open spec fn same_encoding(x: Encoding, y: Encoding) -> bool {
    x.idx == y.idx && x.name@ == y.name@ && same_regex(x.regex, y.regex)
}

/// The same rules, delimiters, placeholders and encodings.
pub open spec fn same_spec(x: ParsingSpec, y: ParsingSpec) -> bool {
    &&& x.rules@.len() == y.rules@.len()
    &&& forall|i: int| 0 <= i < x.rules@.len() ==> same_rule(#[trigger] x.rules@[i], y.rules@[i])
    &&& x.delimiters@ == y.delimiters@
    &&& x.placeholders@.len() == y.placeholders@.len()
    &&& forall|i: int|
        0 <= i < x.placeholders@.len() ==> (#[trigger] x.placeholders@[i]).0@ == y.placeholders@[i].0@
            && same_regex(x.placeholders@[i].1, y.placeholders@[i].1)
    &&& x.encodings@.len() == y.encodings@.len()
    &&& forall|i: int| 0 <= i < x.encodings@.len() ==> same_encoding(#[trigger] x.encodings@[i], y.encodings@[i])
}

/// Whether two strings hold the same characters.
fn same_text(a: &String, b: &String) -> (r: bool)
    ensures
        r == (a@ == b@),
{
    crate::text::str_eq(a.as_str(), b.as_str())
}

/// Whether two range lists are the same.
fn same_ranges(a: &Vec<(char, char)>, b: &Vec<(char, char)>) -> (r: bool)
    ensures
        r == (a@ == b@),
{
    if a.len() != b.len() {
        return false;
    }
    let mut i: usize = 0;
    while i < a.len()
        invariant
            0 <= i <= a@.len(),
            a@.len() == b@.len(),
            forall|k: int| 0 <= k < i ==> a@[k] == b@[k],
        decreases a.len() - i,
    {
        let (x0, x1) = a[i];
        let (y0, y1) = b[i];
        if x0 != y0 || x1 != y1 {
            proof {
                assert(a@[i as int] != b@[i as int]);
            }
            return false;
        }
        i = i + 1;
    }
    proof {
        assert(a@ =~= b@);
    }
    true
}

/// Whether two optional ids are the same.
fn same_parent(a: Option<u16>, b: Option<u16>) -> (r: bool)
    ensures
        r == (a == b),
{
    match (a, b) {
        (None, None) => true,
        (Some(x), Some(y)) => x == y,
        _ => false,
    }
}

/// Whether two expressions are the same.
#[verifier::loop_isolation(false)]
pub fn regex_eq(a: &Regex, b: &Regex) -> (r: bool)
    ensures
        r == same_regex(*a, *b),
    decreases a,
{
    match a {
        Regex::AnyChar => match b {
            Regex::AnyChar => true,
            _ => false,
        },
        Regex::Literal(x) => match b {
            Regex::Literal(y) => *x == *y,
            _ => false,
        },
        Regex::Capture(x) => match b {
            Regex::Capture(y) => {
                regex_eq(&x.regex, &y.regex) && same_text(&x.name, &y.name) && x.root_rule_idx == y.root_rule_idx
                    && x.id == y.id && same_parent(x.parent_id, y.parent_id) && x.descendents == y.descendents
                    && same_text(&x.qualified_name, &y.qualified_name) && same_text(
                    &x.fully_qualified_name,
                    &y.fully_qualified_name,
                )
            },
            _ => false,
        },
        Regex::BracketedRanges { negated: n1, items: i1 } => match b {
            Regex::BracketedRanges { negated: n2, items: i2 } => *n1 == *n2 && same_ranges(i1, i2),
            _ => false,
        },
        Regex::KleeneClosure(x) => match b {
            Regex::KleeneClosure(y) => regex_eq(x, y),
            _ => false,
        },
        Regex::KleenePlus(x) => match b {
            Regex::KleenePlus(y) => regex_eq(x, y),
            _ => false,
        },
        Regex::BoundedRepetition { min: m1, max: x1, item: x } => match b {
            Regex::BoundedRepetition { min: m2, max: x2, item: y } => *m1 == *m2 && *x1 == *x2 && regex_eq(x, y),
            _ => false,
        },
        Regex::Sequence(x) => match b {
            Regex::Sequence(y) => {
                if x.len() != y.len() {
                    return false;
                }
                let mut i: usize = 0;
                while i < x.len()
                    invariant
                        0 <= i <= x.len(),
                        x.len() == y.len(),
                        forall|k: int| 0 <= k < i ==> same_regex(#[trigger] x@[k], y@[k]),
                    decreases x.len() - i,
                {
                    proof {
                        assert(decreases_to!(*a => *x));
                        assert(decreases_to!(*x => x@[i as int]));
                    }
                    if !regex_eq(&x[i], &y[i]) {
                        return false;
                    }
                    i = i + 1;
                }
                true
            },
            _ => false,
        },
        Regex::Alternation(x) => match b {
            Regex::Alternation(y) => {
                if x.len() != y.len() {
                    return false;
                }
                let mut i: usize = 0;
                while i < x.len()
                    invariant
                        0 <= i <= x.len(),
                        x.len() == y.len(),
                        forall|k: int| 0 <= k < i ==> same_regex(#[trigger] x@[k], y@[k]),
                    decreases x.len() - i,
                {
                    proof {
                        assert(decreases_to!(*a => *x));
                        assert(decreases_to!(*x => x@[i as int]));
                    }
                    if !regex_eq(&x[i], &y[i]) {
                        return false;
                    }
                    i = i + 1;
                }
                true
            },
            _ => false,
        },
        Regex::Placeholder { name: n1, item: x } => match b {
            Regex::Placeholder { name: n2, item: y } => same_text(n1, n2) && regex_eq(x, y),
            _ => false,
        },
    }
}

/// Whether two captures are the same.
pub(crate) fn sub_rule_eq(x: &SubRule, y: &SubRule) -> (r: bool)
    ensures
        r == same_sub_rule(*x, *y),
{
    regex_eq(&x.regex, &y.regex) && same_text(&x.name, &y.name) && x.root_rule_idx == y.root_rule_idx && x.id
        == y.id && same_parent(x.parent_id, y.parent_id) && x.descendents == y.descendents && same_text(
        &x.qualified_name,
        &y.qualified_name,
    ) && same_text(&x.fully_qualified_name, &y.fully_qualified_name)
}

/// Whether two rule descriptions are the same.
fn info_eq(x: &RuleInfo, y: &RuleInfo) -> (r: bool)
    ensures
        r == same_info(*x, *y),
{
    let subs: bool = match &x.maybe_sub_rule {
        None => match &y.maybe_sub_rule {
            None => true,
            Some(_) => false,
        },
        Some(a) => match &y.maybe_sub_rule {
            None => false,
            Some(b) => sub_rule_eq(a, b),
        },
    };
    x.root_idx == y.root_idx && same_text(&x.root_name, &y.root_name) && same_text(
        &x.fully_qualified_name,
        &y.fully_qualified_name,
    ) && subs
}

/// Whether two rules are the same.
fn rule_eq(x: &RootRule, y: &RootRule) -> (r: bool)
    ensures
        r == same_rule(*x, *y),
{
    if !(x.idx == y.idx && same_text(&x.name, &y.name) && x.priority == y.priority && regex_eq(
        &x.regex.regex,
        &y.regex.regex,
    ) && x.regex.anchor_before == y.regex.anchor_before && x.regex.anchor_after == y.regex.anchor_after
        && x.regex.total_captures == y.regex.total_captures && x.maybe_encoding == y.maybe_encoding
        && x.rule_info.len() == y.rule_info.len()) {
        return false;
    }
    let mut i: usize = 0;
    while i < x.rule_info.len()
        invariant
            0 <= i <= x.rule_info@.len(),
            x.rule_info@.len() == y.rule_info@.len(),
            forall|k: int| 0 <= k < i ==> same_info(#[trigger] x.rule_info@[k], y.rule_info@[k]),
        decreases x.rule_info.len() - i,
    {
        if !info_eq(&x.rule_info[i], &y.rule_info[i]) {
            return false;
        }
        i = i + 1;
    }
    true
}

/// Whether two specifications are the same.
pub fn spec_eq(x: &ParsingSpec, y: &ParsingSpec) -> (r: bool)
    ensures
        r == same_spec(*x, *y),
{
    if x.rules.len() != y.rules.len() || x.placeholders.len() != y.placeholders.len() || x.encodings.len()
        != y.encodings.len() || !same_text(&x.delimiters, &y.delimiters) {
        return false;
    }
    let mut i: usize = 0;
    while i < x.rules.len()
        invariant
            0 <= i <= x.rules@.len(),
            x.rules@.len() == y.rules@.len(),
            forall|k: int| 0 <= k < i ==> same_rule(#[trigger] x.rules@[k], y.rules@[k]),
        decreases x.rules.len() - i,
    {
        if !rule_eq(&x.rules[i], &y.rules[i]) {
            return false;
        }
        i = i + 1;
    }
    let mut j: usize = 0;
    while j < x.placeholders.len()
        invariant
            0 <= j <= x.placeholders@.len(),
            x.placeholders@.len() == y.placeholders@.len(),
            forall|k: int|
                0 <= k < j ==> (#[trigger] x.placeholders@[k]).0@ == y.placeholders@[k].0@ && same_regex(
                    x.placeholders@[k].1,
                    y.placeholders@[k].1,
                ),
        decreases x.placeholders.len() - j,
    {
        if !(same_text(&x.placeholders[j].0, &y.placeholders[j].0) && regex_eq(
            &x.placeholders[j].1,
            &y.placeholders[j].1,
        )) {
            return false;
        }
        j = j + 1;
    }
    let mut m: usize = 0;
    while m < x.encodings.len()
        invariant
            0 <= m <= x.encodings@.len(),
            x.encodings@.len() == y.encodings@.len(),
            forall|k: int| 0 <= k < m ==> same_encoding(#[trigger] x.encodings@[k], y.encodings@[k]),
        decreases x.encodings.len() - m,
    {
        if !(x.encodings[m].idx == y.encodings[m].idx && same_text(&x.encodings[m].name, &y.encodings[m].name)
            && regex_eq(&x.encodings[m].regex, &y.encodings[m].regex)) {
            return false;
        }
        m = m + 1;
    }
    true
}

impl PartialEq for ParsingSpec {
    fn eq(&self, other: &Self) -> (r: bool) {
        spec_eq(self, other)
    }
}

impl PartialEqSpecImpl for ParsingSpec {
    open spec fn obeys_eq_spec() -> bool {
        true
    }

    open spec fn eq_spec(&self, other: &Self) -> bool {
        same_spec(*self, *other)
    }
}

} // verus!
