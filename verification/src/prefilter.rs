//! Cheap, sound over-approximations of log shapes, used to discard shapes
//! that cannot match a search before any automaton is built.
//!
//! A [`Charset`] is a superset of the characters a rule can emit; a shape
//! rejected on this model could never have matched.

pub mod align;
pub mod cache;
pub mod shape;

use vstd::prelude::*;

use crate::interval_tree::Interval;
use crate::interval_tree::IntervalTree;
use crate::interval_tree::PolicyNoop;
use crate::interval_tree::Present;
use crate::interval_tree::all_wf;
use crate::interval_tree::covered;
use crate::interval_tree::entries_cover;
use crate::interval_tree::entries_wf;
use crate::interval_tree::insert_law;
use crate::interval_tree::value_at;
use crate::parsing_spec::ParsingSpec;
use crate::parsing_spec::RootRule;
use crate::parsing_spec::RuleInfo;
use crate::parsing_spec::rows_for_name;
use crate::parsing_spec::rule_rows;
use crate::parsing_spec::split_dots;
use crate::regex::Regex;
use crate::regex::language::regex_matches;
use crate::regex::language::matches_items;
use crate::regex::language::repeats_of;
use crate::text::char_code;

verus! {

/// The largest Unicode scalar value.
pub open spec fn max_char() -> int {
    0x10FFFF
}

/// Whether `regex` can emit the character with code `c`: its alphabet. A
/// negated class is complemented over all `u32` codes, and the expression a
/// placeholder stands for counts.
pub open spec fn alphabet(regex: Regex, c: int) -> bool
    decreases regex,
{
    match regex {
        Regex::AnyChar => 0 <= c <= max_char(),
        Regex::Literal(l) => c == l as int,
        Regex::Capture(sub_rule) => alphabet(sub_rule.regex, c),
        Regex::BracketedRanges { negated, items } => if negated {
            0 <= c <= u32::MAX && !in_ranges(items@, c)
        } else {
            in_ranges(items@, c)
        },
        Regex::KleeneClosure(item) => alphabet(*item, c),
        Regex::KleenePlus(item) => alphabet(*item, c),
        Regex::BoundedRepetition { item, .. } => alphabet(*item, c),
        Regex::Placeholder { item, .. } => alphabet(*item, c),
        Regex::Sequence(items) => exists|i: int| 0 <= i < items.len() && alphabet(#[trigger] items@[i], c),
        Regex::Alternation(items) => exists|i: int| 0 <= i < items.len() && alphabet(#[trigger] items@[i], c),
    }
}

/// Every character of a string `re` matches is in its alphabet.
pub proof fn lemma_matches_in_alphabet(re: Regex, w: Seq<char>)
    requires
        regex_matches(re, w),
    ensures
        forall|i: int| 0 <= i < w.len() ==> #[trigger] alphabet(re, w[i] as int),
    decreases re, w.len(), 0nat,
{
    match re {
        Regex::Capture(sub_rule) => {
            lemma_matches_in_alphabet(sub_rule.regex, w);
            assert forall|i: int| 0 <= i < w.len() implies #[trigger] alphabet(re, w[i] as int) by {
                assert(alphabet(sub_rule.regex, w[i] as int));
            }
        },
        Regex::KleeneClosure(item) => {
            lemma_repeats_in_alphabet(*item, w, 0, None);
            assert forall|i: int| 0 <= i < w.len() implies #[trigger] alphabet(re, w[i] as int) by {
                assert(alphabet(*item, w[i] as int));
            }
        },
        Regex::KleenePlus(item) => {
            lemma_repeats_in_alphabet(*item, w, 1, None);
            assert forall|i: int| 0 <= i < w.len() implies #[trigger] alphabet(re, w[i] as int) by {
                assert(alphabet(*item, w[i] as int));
            }
        },
        Regex::BoundedRepetition { min, max, item } => {
            lemma_repeats_in_alphabet(*item, w, min as nat, Some(max as nat));
            assert forall|i: int| 0 <= i < w.len() implies #[trigger] alphabet(re, w[i] as int) by {
                assert(alphabet(*item, w[i] as int));
            }
        },
        Regex::Sequence(items) => {
            lemma_matches_seq_in_alphabet(items@, w);
            assert forall|i: int| 0 <= i < w.len() implies alphabet(re, #[trigger] w[i] as int) by {
                let j = choose|j: int| 0 <= j < items@.len() && alphabet(#[trigger] items@[j], w[i] as int);
            }
        },
        Regex::Alternation(items) => {
            let j = choose|j: int| 0 <= j < items.len() && regex_matches(#[trigger] items@[j], w);
            lemma_matches_in_alphabet(items@[j], w);
            assert forall|i: int| 0 <= i < w.len() implies alphabet(re, #[trigger] w[i] as int) by {
                assert(alphabet(items@[j], w[i] as int));
            }
        },
        Regex::Placeholder { item, .. } => {
            lemma_matches_in_alphabet(*item, w);
            assert forall|i: int| 0 <= i < w.len() implies #[trigger] alphabet(re, w[i] as int) by {
                assert(alphabet(*item, w[i] as int));
            }
        },
        Regex::BracketedRanges { negated, items } => {
            let c = w[0] as int;
            crate::text::lemma_char_bound(w[0]);
            if negated {
                assert(!in_ranges(items@, c)) by {
                    if in_ranges(items@, c) {
                        let j = choose|j: int| 0 <= j < items@.len() && (#[trigger] items@[j]).0 as int <= c <= items@[j].1 as int;
                        assert(items@[j].0 as int <= w[0] as int <= items@[j].1 as int);
                    }
                }
            } else {
                let j = choose|j: int| 0 <= j < items.len() && (#[trigger] items@[j]).0 as int <= w[0] as int <= items@[j].1 as int;
                assert(in_ranges(items@, c));
            }
            assert forall|i: int| 0 <= i < w.len() implies #[trigger] alphabet(re, w[i] as int) by {
                assert(i == 0);
            }
        },
        Regex::AnyChar => {
            assert forall|i: int| 0 <= i < w.len() implies #[trigger] alphabet(re, w[i] as int) by {
                crate::text::lemma_char_bound(w[i]);
            }
        },
        Regex::Literal(l) => {
            assert forall|i: int| 0 <= i < w.len() implies #[trigger] alphabet(re, w[i] as int) by {
                assert(w[i] == seq![l][i]);
            }
        },
    }
}

proof fn lemma_matches_seq_in_alphabet(items: Seq<Regex>, w: Seq<char>)
    requires
        matches_items(items, w),
    ensures
        forall|i: int|
            0 <= i < w.len() ==> exists|j: int| 0 <= j < items.len() && alphabet(#[trigger] items[j], #[trigger] w[i] as int),
    decreases items, w.len(), 0nat,
{
    if items.len() > 0 {
        let init = items.subrange(0, items.len() - 1);
        let last = items[items.len() - 1];
        let k = choose|k: int|
            0 <= k <= w.len() && matches_items(init, #[trigger] w.subrange(0, k)) && regex_matches(
                last,
                w.subrange(k, w.len() as int),
            );
        let a = w.subrange(0, k);
        let b = w.subrange(k, w.len() as int);
        lemma_matches_seq_in_alphabet(init, a);
        lemma_matches_in_alphabet(last, b);
        assert forall|i: int| 0 <= i < w.len() implies exists|j: int|
            0 <= j < items.len() && alphabet(#[trigger] items[j], #[trigger] w[i] as int) by {
            if i < k {
                assert(a[i] == w[i]);
                let j = choose|j: int| 0 <= j < init.len() && alphabet(#[trigger] init[j], #[trigger] a[i] as int);
                assert(init[j] == items[j]);
            } else {
                assert(b[i - k] == w[i]);
                assert(alphabet(last, b[i - k] as int));
                assert(items[items.len() - 1] == last);
            }
        }
    }
}

proof fn lemma_repeats_in_alphabet(item: Regex, w: Seq<char>, min: nat, max: Option<nat>)
    requires
        repeats_of(item, w, min, max),
    ensures
        forall|i: int| 0 <= i < w.len() ==> alphabet(item, #[trigger] w[i] as int),
    decreases item, w.len(), 1nat,
{
    if w.len() > 0 {
        let k = choose|k: int|
            1 <= k <= w.len() && regex_matches(item, #[trigger] w.subrange(0, k)) && repeats_of(
                item,
                w.subrange(k, w.len() as int),
                if min > 0 {
                    (min - 1) as nat
                } else {
                    0
                },
                match max {
                    Some(m) => Some((m - 1) as nat),
                    None => None,
                },
            );
        let a = w.subrange(0, k);
        let b = w.subrange(k, w.len() as int);
        lemma_matches_in_alphabet(item, a);
        lemma_repeats_in_alphabet(
            item,
            b,
            if min > 0 {
                (min - 1) as nat
            } else {
                0
            },
            match max {
                Some(m) => Some((m - 1) as nat),
                None => None,
            },
        );
        assert forall|i: int| 0 <= i < w.len() implies alphabet(item, #[trigger] w[i] as int) by {
            if i < k {
                assert(a[i] == w[i]);
            } else {
                assert(b[i - k] == w[i]);
            }
        }
    }
}

/// Whether `c` lies in one of the inclusive ranges.
pub open spec fn in_ranges(items: Seq<(char, char)>, c: int) -> bool {
    exists|i: int| 0 <= i < items.len() && (#[trigger] items[i]).0 as int <= c <= items[i].1 as int
}

/// A set of characters, stored as disjoint intervals of code points.
#[derive(Debug)]
pub struct Charset(IntervalTree<u32, Present>);

impl Charset {
    /// Whether the code `c` is in the set.
    pub closed spec fn has(self, c: int) -> bool {
        entries_cover(self.0.entries_view(), c)
    }

    /// The empty set.
    pub fn empty() -> (r: Charset)
        ensures
            forall|c: int| !r.has(c),
    {
        Charset(IntervalTree::new())
    }

    /// Every character.
    pub fn all() -> (r: Charset)
        ensures
            forall|c: int| r.has(c) <==> 0 <= c <= max_char(),
    {
        let mut this: Charset = Charset::empty();
        let universe: Interval<u32> = Charset::universe();
        let ghost before = this;
        this.insert_interval(universe);
        proof {
            assert forall|c: int| this.has(c) <==> 0 <= c <= max_char() by {
                assert(this.has(c) <==> before.has(c) || universe.has(c));
            }
        }
        this
    }

    /// Whether the set is empty.
    pub fn is_empty(&self) -> (r: bool)
        ensures
            r == (forall|c: int| !self.has(c)),
    {
        let e: bool = self.0.is_empty();
        proof {
            let s = self.0.entries_view();
            if !e {
                assert(s[0].0.has(s[0].0.lo()));
                assert(self.has(s[0].0.lo()));
            }
        }
        e
    }

    /// Whether every character is in the set.
    pub fn is_universal(&self) -> (r: bool)
        ensures
            r == (forall|c: int| 0 <= c <= max_char() ==> self.has(c)),
    {
        let entries: &[(Interval<u32>, Present)] = self.0.iter();
        let ghost s = entries@;
        let mut cursor: u32 = 0;
        let mut i: usize = 0;
        while i < entries.len()
            invariant
                s == entries@,
                s == self.0.entries_view(),
                entries_wf(s),
                0 <= i <= entries@.len(),
                cursor <= max_char(),
                forall|c: int| 0 <= c < cursor ==> #[trigger] self.has(c),
                forall|k: int| 0 <= k < i ==> (#[trigger] s[k]).0.hi() < cursor,
                i > 0 ==> cursor == s[i - 1].0.hi() + 1,
            decreases entries.len() - i,
        {
            let interval: Interval<u32> = entries[i].0;
            if interval.start > cursor {
                proof {
                    assert forall|k: int| 0 <= k < s.len() implies !(#[trigger] s[k]).0.has(cursor as int) by {
                        if k > i {
                            assert(s[i as int].0.hi() < s[k].0.lo());
                        }
                    }
                    assert(!self.has(cursor as int));
                }
                return false;
            }
            if interval.end >= 0x10FFFF {
                proof {
                    assert forall|c: int| 0 <= c <= max_char() implies self.has(c) by {
                        if c >= cursor {
                            assert(s[i as int].0.has(c));
                        }
                    }
                }
                return true;
            }
            proof {
                assert forall|c: int| 0 <= c < interval.end + 1 implies #[trigger] self.has(c) by {
                    if c >= cursor {
                        assert(s[i as int].0.has(c));
                    }
                }
                assert forall|k: int| 0 <= k < i + 1 implies (#[trigger] s[k]).0.hi() < interval.end + 1 by {
                    if k < i {
                        assert(s[k].0.hi() < s[i as int].0.lo());
                    }
                }
            }
            cursor = interval.end + 1;
            i = i + 1;
        }
        proof {
            assert(!self.has(cursor as int));
        }
        false
    }

    /// Adds `c` to the set.
    pub fn insert(&mut self, c: char)
        ensures
            forall|x: int|
                #![trigger final(self).has(x)]
                #![trigger old(self).has(x)]
                final(self).has(x) <==> old(self).has(x) || x == c as int,
    {
        let code: u32 = char_code(c);
        let interval: Interval<u32> = Interval::new(code, code);
        self.insert_interval(interval);
        proof {
            assert forall|x: int| final(self).has(x) <==> old(self).has(x) || x == c as int by {
                assert(self.has(x) <==> old(self).has(x) || interval.has(x));
            }
        }
    }

    /// Adds every code in `interval` to the set.
    pub fn insert_interval(&mut self, interval: Interval<u32>)
        requires
            interval.wf(),
        ensures
            forall|x: int|
                #![trigger final(self).has(x)]
                #![trigger old(self).has(x)]
                final(self).has(x) <==> old(self).has(x) || interval.has(x),
    {
        let ghost before = self.0.entries_view();
        self.0.insert(interval, Present, PolicyNoop);
        proof {
            let after = self.0.entries_view();
            assert forall|x: int| entries_cover(after, x) <==> entries_cover(before, x) || interval.has(x) by {
                assert(insert_law(before, after, interval, Present, PolicyNoop, x));
                if entries_cover(before, x) {
                    assert(value_at(before, x) is Some);
                }
                if entries_cover(after, x) {
                    assert(value_at(after, x) is Some);
                }
            }
        }
    }

    /// Adds every character of `other` to the set.
    pub fn union(&mut self, other: &Charset)
        ensures
            forall|x: int|
                #![trigger final(self).has(x)]
                #![trigger old(self).has(x)]
                #![trigger other.has(x)]
                final(self).has(x) <==> old(self).has(x) || other.has(x),
    {
        let entries: &[(Interval<u32>, Present)] = other.0.iter();
        let mut i: usize = 0;
        while i < entries.len()
            invariant
                entries@ == other.0.entries_view(),
                entries_wf(entries@),
                0 <= i <= entries@.len(),
                forall|x: int|
                    self.has(x) <==> old(self).has(x) || exists|k: int|
                        0 <= k < i && (#[trigger] entries@[k]).0.has(x),
            decreases entries.len() - i,
        {
            let interval: Interval<u32> = entries[i].0;
            self.insert_interval(interval);
            proof {
                assert forall|x: int|
                    self.has(x) <==> old(self).has(x) || exists|k: int|
                        0 <= k < i + 1 && (#[trigger] entries@[k]).0.has(x) by {
                    if interval.has(x) {
                        assert(entries@[i as int].0.has(x));
                    }
                }
            }
            i = i + 1;
        }
    }

    /// Whether `c` is in the set.
    pub fn contains(&self, c: char) -> (r: bool)
        ensures
            r == self.has(c as int),
    {
        let code: u32 = char_code(c);
        let found: bool = self.0.lookup(code).is_some();
        proof {
            if self.has(c as int) {
                assert(value_at(self.0.entries_view(), c as int) is Some);
            }
        }
        found
    }

    /// Every Unicode scalar value, as one interval.
    fn universe() -> (r: Interval<u32>)
        ensures
            r.lo() == 0,
            r.hi() == max_char(),
            r.wf(),
    {
        Interval::new(0, 0x10FFFF)
    }

    /// Adds every character that `regex` can emit.
    #[verifier::loop_isolation(false)]
    pub fn add_regex(&mut self, regex: &Regex)
        requires
            regex.wf(),
        ensures
            forall|x: int|
                #![trigger final(self).has(x)]
                #![trigger old(self).has(x)]
                #![trigger alphabet(*regex, x)]
                final(self).has(x) <==> old(self).has(x) || alphabet(*regex, x),
            forall|w: Seq<char>|
                regex_matches(*regex, w) ==> forall|i: int| 0 <= i < w.len() ==> #[trigger] final(self).has(w[i] as int),
        decreases regex,
    {
        match regex {
            Regex::AnyChar => {
                let universe: Interval<u32> = Charset::universe();
                self.insert_interval(universe);
                proof {
                    assert forall|x: int| self.has(x) <==> old(self).has(x) || alphabet(*regex, x) by {
                        assert(self.has(x) <==> old(self).has(x) || universe.has(x));
                    }
                }
            },
            Regex::Literal(c) => self.insert(*c),
            Regex::Capture(sub_rule) => self.add_regex(&sub_rule.regex),
            Regex::BracketedRanges { negated, items } => {
                let mut intervals: Vec<Interval<u32>> = Vec::new();
                let mut i: usize = 0;
                while i < items.len()
                    invariant
                        0 <= i <= items.len(),
                        intervals@.len() == i,
                        all_wf(intervals@),
                        forall|k: int|
                            0 <= k < i ==> (#[trigger] intervals@[k]).lo() == items@[k].0 as int
                                && intervals@[k].hi() == items@[k].1 as int,
                    decreases items.len() - i,
                {
                    let low: u32 = char_code(items[i].0);
                    let high: u32 = char_code(items[i].1);
                    intervals.push(Interval::new(low, high));
                    i = i + 1;
                }
                proof {
                    assert forall|x: int| covered(intervals@, x) <==> in_ranges(items@, x) by {
                        if covered(intervals@, x) {
                            let j = choose|j: int| 0 <= j < intervals@.len() && #[trigger] intervals@[j].has(x);
                            assert(items@[j].0 as int <= x <= items@[j].1 as int);
                        }
                        if in_ranges(items@, x) {
                            let j = choose|j: int|
                                0 <= j < items@.len() && (#[trigger] items@[j]).0 as int <= x <= items@[j].1 as int;
                            assert(intervals@[j].has(x));
                        }
                    }
                }
                let to_add: Vec<Interval<u32>> = if *negated {
                    Interval::complement(&mut intervals)
                } else {
                    intervals
                };
                proof {
                    assert forall|x: int| covered(to_add@, x) <==> alphabet(*regex, x) by {
                        if covered(to_add@, x) {
                            let j = choose|j: int| 0 <= j < to_add@.len() && #[trigger] to_add@[j].has(x);
                            assert(0 <= to_add@[j].lo());
                            assert(to_add@[j].hi() <= u32::MAX);
                        }
                    }
                }
                let mut j: usize = 0;
                while j < to_add.len()
                    invariant
                        0 <= j <= to_add.len(),
                        all_wf(to_add@),
                        forall|x: int|
                            self.has(x) <==> old(self).has(x) || exists|k: int|
                                0 <= k < j && (#[trigger] to_add@[k]).has(x),
                    decreases to_add.len() - j,
                {
                    let interval: Interval<u32> = to_add[j];
                    self.insert_interval(interval);
                    proof {
                        assert forall|x: int|
                            self.has(x) <==> old(self).has(x) || exists|k: int|
                                0 <= k < j + 1 && (#[trigger] to_add@[k]).has(x) by {
                            if interval.has(x) {
                                assert(to_add@[j as int].has(x));
                            }
                        }
                    }
                    j = j + 1;
                }
            },
            Regex::KleeneClosure(item) | Regex::KleenePlus(item) | Regex::BoundedRepetition { item, .. }
            | Regex::Placeholder { item, .. } => self.add_regex(item),
            Regex::Sequence(items) | Regex::Alternation(items) => {
                let mut i: usize = 0;
                while i < items.len()
                    invariant
                        0 <= i <= items.len(),
                        forall|x: int|
                            self.has(x) <==> old(self).has(x) || exists|k: int|
                                0 <= k < i && alphabet(#[trigger] items@[k], x),
                    decreases items.len() - i,
                {
                    proof {
                        assert(decreases_to!(*regex => *items));
                        assert(decreases_to!(*items => items@[i as int]));
                    }
                    self.add_regex(&items[i]);
                    proof {
                        assert forall|x: int|
                            self.has(x) <==> old(self).has(x) || exists|k: int|
                                0 <= k < i + 1 && alphabet(#[trigger] items@[k], x) by {
                            if alphabet(items@[i as int], x) {
                                assert(0 <= i < i + 1);
                            }
                        }
                    }
                    i = i + 1;
                }
            },
        }
        proof {
            assert(forall|x: int| self.has(x) <==> old(self).has(x) || alphabet(*regex, x));
            assert forall|w: Seq<char>| regex_matches(*regex, w) implies forall|i: int|
                0 <= i < w.len() ==> #[trigger] self.has(w[i] as int) by {
                lemma_matches_in_alphabet(*regex, w);
                assert forall|i: int| 0 <= i < w.len() implies #[trigger] self.has(w[i] as int) by {
                    assert(alphabet(*regex, w[i] as int));
                }
            }
        }
    }
}

/// The characters any match of the (sub-)rules named `name` can contain:
/// every character when the name resolves to nothing.
pub fn charset_for_name(spec: &ParsingSpec, name: &str) -> (r: Charset)
    requires
        spec.wf(),
    ensures
        ({
            let rows = rows_for_name(spec.rules@, split_dots(name@));
            forall|c: int|
                0 <= c <= max_char() ==> (r.has(c) <==> (rows.len() == 0 || exists|k: int|
                    0 <= k < rows.len() && alphabet(#[trigger] rows[k].1, c)))
        }),
{
    let rows: Vec<(&RuleInfo, &Regex)> = spec.rules_for_name(name);
    let ghost expected = rows_for_name(spec.rules@, split_dots(name@));
    if rows.len() == 0 {
        let everything: Charset = Charset::all();
        proof {
            assert forall|c: int| 0 <= c <= max_char() implies everything.has(c) by {}
        }
        return everything;
    }
    proof {
        lemma_rows_wf(spec.rules@, split_dots(name@));
    }
    let mut charset: Charset = Charset::empty();
    let mut k: usize = 0;
    while k < rows.len()
        invariant
            0 <= k <= rows@.len(),
            expected == rows_for_name(spec.rules@, split_dots(name@)),
            rows@.len() == expected.len(),
            forall|q: int| 0 <= q < rows@.len() ==> *(#[trigger] rows@[q]).1 == expected[q].1,
            forall|q: int| 0 <= q < expected.len() ==> (#[trigger] expected[q]).1.wf(),
            forall|c: int|
                charset.has(c) <==> exists|q: int| 0 <= q < k && alphabet(#[trigger] expected[q].1, c),
        decreases rows.len() - k,
    {
        let regex: &Regex = rows[k].1;
        proof {
            assert(expected[k as int].1.wf());
        }
        charset.add_regex(regex);
        proof {
            assert forall|c: int|
                charset.has(c) <==> exists|q: int| 0 <= q < k + 1 && alphabet(#[trigger] expected[q].1, c) by {
                if alphabet(expected[k as int].1, c) {
                    assert(0 <= k < k + 1);
                }
            }
        }
        if charset.is_universal() {
            proof {
                assert forall|c: int| 0 <= c <= max_char() implies (charset.has(c) <==> exists|q: int|
                    0 <= q < expected.len() && alphabet(#[trigger] expected[q].1, c)) by {
                    if charset.has(c) {
                        let q = choose|q: int| 0 <= q < k + 1 && alphabet(#[trigger] expected[q].1, c);
                        assert(0 <= q < expected.len());
                    }
                }
            }
            return charset;
        }
        k = k + 1;
    }
    proof {
        assert forall|c: int| 0 <= c <= max_char() implies (charset.has(c) <==> exists|q: int|
            0 <= q < expected.len() && alphabet(#[trigger] expected[q].1, c)) by {}
    }
    charset
}

/// The expressions of the rows of a well-formed specification are well-formed.
proof fn lemma_rows_wf(rules: Seq<RootRule>, parts: Seq<Seq<char>>)
    requires
        forall|k: int| 0 <= k < rules.len() ==> (#[trigger] rules[k]).regex.regex.wf(),
    ensures
        forall|q: int|
            0 <= q < rows_for_name(rules, parts).len() ==> (#[trigger] rows_for_name(rules, parts)[q]).1.wf(),
    decreases rules.len(),
{
    if rules.len() > 0 {
        let init = rules.drop_last();
        lemma_rows_wf(init, parts);
        let rule = rules.last();
        let a = rows_for_name(init, parts);
        let b = rule_rows(rule, parts);
        assert(rule.regex.regex.wf());
        if parts.len() > 1 && rule.name@ == parts[0] {
            crate::parsing_spec::lemma_name_matches_wf(
                rule.regex.regex,
                parts[1],
                parts.subrange(2, parts.len() as int),
                rule.rule_info@.len(),
            );
        }
        assert forall|q: int| 0 <= q < (a + b).len() implies (#[trigger] (a + b)[q]).1.wf() by {
            if q >= a.len() {
                assert((a + b)[q] == b[q - a.len()]);
            }
        }
    }
}

} // verus!
