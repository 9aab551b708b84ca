//! Building automata from regular expressions: the standard construction,
//! with a pair of tagged moves around each capture and, where a branch or a
//! repetition skips captures, a chain of moves that clears their tags.

use vstd::prelude::*;

use crate::interval_tree::Interval;
use crate::interval_tree::IntervalTree;
use crate::interval_tree::PolicyUnique;
use crate::interval_tree::all_wf;
use crate::interval_tree::covered;
use crate::interval_tree::entries_wf;
use crate::interval_tree::insert_law;
use crate::interval_tree::lemma_value_at;
use crate::interval_tree::value_at;
use crate::nfa::CaptureTag;
use crate::nfa::NfaIdx;
use crate::nfa::NfaState;
use crate::nfa::Tnfa;
use crate::nfa::Transitions;
use crate::nfa::accepting_nil;
use crate::nfa::add_tags;
use crate::nfa::entry_targets;
use crate::nfa::extends_at;
use crate::nfa::lemma_extends_appended;
use crate::nfa::lemma_extends_then;
use crate::nfa::lemma_shifted_below;
use crate::nfa::shift_transitions;
use crate::nfa::lemma_extends_trans;
use crate::nfa::lemma_untagged_trans;
use crate::nfa::untagged_from;
use crate::nfa::has_same_tag;
use crate::nfa::same_tag;
use crate::nfa::states_wf;
use crate::nfa::tags_distinct;
use crate::nfa::simulation::accepts_input;
use crate::nfa::simulation::char_edge;
use crate::nfa::simulation::configuration;
use crate::nfa::simulation::eps_edge;
use crate::nfa::simulation::eps_reach;
use crate::nfa::simulation::eps_within;
use crate::regex::language::matches_items;
use crate::regex::language::regex_matches;
use crate::regex::language::repeats_of;
use crate::nfa::union::lemma_eps_reach_edge;
use crate::nfa::union::lemma_eps_reach_trans;
use crate::parsing_spec::Encoding;
use crate::parsing_spec::EncodingIdx;
use crate::parsing_spec::RuleIdx;
use crate::parsing_spec::SubRule;
use crate::regex::Regex;
use crate::parsing_spec::equality::lemma_equiv_same;
use crate::parsing_spec::equality::lemma_same_regex_symmetric;
use crate::parsing_spec::equality::lemma_same_regex_transitive;
use crate::parsing_spec::equality::same_sub_rule;
use crate::text::char_code;
use crate::text::lemma_char_bound;

verus! {

/// An upper bound on the number of tags the construction of `re` reports,
/// with `e` encodings.
pub open spec fn tag_bound(re: Regex, e: nat) -> nat
    decreases re,
{
    match re {
        Regex::Capture(sub_rule) => 2 * (e + 1) + tag_bound(sub_rule.regex, e),
        Regex::KleeneClosure(item) => tag_bound(*item, e),
        Regex::KleenePlus(item) => 2 * tag_bound(*item, e),
        Regex::BoundedRepetition { max, item, .. } => (max as nat) * tag_bound(*item, e),
        Regex::Sequence(items) => tag_bound_of_items(items@, e),
        Regex::Alternation(items) => tag_bound_of_items(items@, e),
        Regex::Placeholder { item, .. } => tag_bound(*item, e),
        _ => 0,
    }
}

pub open spec fn tag_bound_of_items(items: Seq<Regex>, e: nat) -> nat
    decreases items,
{
    if items.len() == 0 {
        0
    } else {
        tag_bound_of_items(items.subrange(0, items.len() - 1), e) + tag_bound(items[items.len() - 1], e)
    }
}

/// The states the variants of a leaf capture for the encodings can add: four
/// states each, and the intersection of the leaf's automaton (of `leaf`
/// states) with the encoding's automaton.
pub open spec fn splice_cost(encs: Seq<Encoding>, leaf: nat) -> nat
    decreases encs.len(),
{
    if encs.len() == 0 {
        0
    } else {
        splice_cost(encs.drop_last(), leaf) + 4 + leaf * encs.last().nfa.states@.len()
    }
}

/// An upper bound on the number of states the construction of a capture adds.
pub open spec fn capture_cost(sub_rule: SubRule, encs: Seq<Encoding>) -> nat
    decreases sub_rule, 0nat,
{
    4 + build_cost(sub_rule.regex, encs) + (if sub_rule.descendents == 0 {
        splice_cost(encs, 2 + build_cost(sub_rule.regex, Seq::empty()))
    } else {
        0
    }) + 2 * (encs.len() + 1) * encs.len()
}

/// An upper bound on the number of states the construction of `re` adds,
/// with the encodings `encs`.
pub open spec fn build_cost(re: Regex, encs: Seq<Encoding>) -> nat
    decreases re, 1nat,
{
    match re {
        Regex::Capture(sub_rule) => capture_cost(*sub_rule, encs),
        Regex::KleeneClosure(item) => 3 + build_cost(*item, encs) + tag_bound(*item, encs.len()),
        Regex::KleenePlus(item) => 4 + 2 * build_cost(*item, encs) + tag_bound(*item, encs.len()),
        Regex::BoundedRepetition { max, item, .. } => (max as nat) * (3 + build_cost(*item, encs)) + tag_bound(
            *item,
            encs.len(),
        ),
        Regex::Sequence(items) => sequence_cost(items@, encs),
        Regex::Alternation(items) => alternation_cost(items@, encs) + items@.len() * tag_bound_of_items(
            items@,
            encs.len(),
        ),
        Regex::Placeholder { item, .. } => build_cost(*item, encs),
        _ => 0,
    }
}

pub open spec fn sequence_cost(items: Seq<Regex>, encs: Seq<Encoding>) -> nat
    decreases items,
{
    if items.len() == 0 {
        0
    } else {
        sequence_cost(items.subrange(0, items.len() - 1), encs) + 1 + build_cost(items[items.len() - 1], encs)
    }
}

pub open spec fn alternation_cost(items: Seq<Regex>, encs: Seq<Encoding>) -> nat
    decreases items,
{
    if items.len() == 0 {
        0
    } else {
        alternation_cost(items.subrange(0, items.len() - 1), encs) + 2 + build_cost(items[items.len() - 1], encs)
    }
}

/// Each capture without nested captures (by its count) holds a pattern
/// without captures.
pub open spec fn leaves_tagless(re: Regex) -> bool
    decreases re,
{
    match re {
        Regex::Capture(sub_rule) => (sub_rule.descendents == 0 ==> tag_bound(sub_rule.regex, 0) == 0)
            && leaves_tagless(sub_rule.regex),
        Regex::KleeneClosure(item) => leaves_tagless(*item),
        Regex::KleenePlus(item) => leaves_tagless(*item),
        Regex::BoundedRepetition { item, .. } => leaves_tagless(*item),
        Regex::Sequence(items) => forall|k: int| 0 <= k < items.len() ==> leaves_tagless(#[trigger] items@[k]),
        Regex::Alternation(items) => forall|k: int| 0 <= k < items.len() ==> leaves_tagless(#[trigger] items@[k]),
        Regex::Placeholder { item, .. } => leaves_tagless(*item),
        _ => true,
    }
}

/// Every encoding's automaton is valid and has no tagged moves.
pub open spec fn encodings_ok(encs: Seq<Encoding>) -> bool {
    forall|e: int|
        0 <= e < encs.len() ==> (#[trigger] encs[e]).nfa.wf() && forall|i: int|
            0 <= i < encs[e].nfa.states@.len() ==> !((#[trigger] encs[e].nfa.states@[i]).transitions is Tagged)
}

/// Every entry of the tree moves to `target`.
pub open spec fn all_to(tree: IntervalTree<u32, NfaIdx>, target: NfaIdx) -> bool {
    forall|j: int| 0 <= j < tree.entries_view().len() ==> (#[trigger] tree.entries_view()[j]).1 == target
}

/// Inserting an interval for `target` into a tree whose entries all move to
/// `target` keeps every entry moving to `target`.
proof fn lemma_insert_uniform(
    before: Seq<(Interval<u32>, NfaIdx)>,
    after: Seq<(Interval<u32>, NfaIdx)>,
    new: Interval<u32>,
    target: NfaIdx,
)
    requires
        entries_wf(before),
        entries_wf(after),
        forall|p: int| insert_law(before, after, new, target, PolicyUnique, p),
        forall|j: int| 0 <= j < before.len() ==> (#[trigger] before[j]).1 == target,
    ensures
        forall|j: int| 0 <= j < after.len() ==> (#[trigger] after[j]).1 == target,
{
    assert forall|j: int| 0 <= j < after.len() implies (#[trigger] after[j]).1 == target by {
        let p = after[j].0.lo();
        lemma_value_at(after, j, p);
        assert(insert_law(before, after, new, target, PolicyUnique, p));
        match value_at(before, p) {
            Some(e) => {
                let k = crate::interval_tree::entry_index_at(before, p);
                assert(before[k].1 == target);
            },
            None => {},
        }
    }
}

/// A tree moving on the code points `lo..=hi` to `target`.
fn single_interval(lo: u32, hi: u32, target: NfaIdx) -> (r: IntervalTree<u32, NfaIdx>)
    requires
        lo <= hi,
    ensures
        all_to(r, target),
        forall|p: int|
            #![trigger value_at(r.entries_view(), p)]
            value_at(r.entries_view(), p) == if lo <= p <= hi {
                Some(target)
            } else {
                None
            },
{
    let mut tree: IntervalTree<u32, NfaIdx> = IntervalTree::new();
    let ghost before = tree.entries_view();
    let interval: Interval<u32> = Interval::new(lo, hi);
    tree.insert(interval, target, PolicyUnique);
    let entries: &[(Interval<u32>, NfaIdx)] = tree.iter();
    proof {
        lemma_insert_uniform(before, tree.entries_view(), interval, target);
        assert forall|p: int|
            #![trigger value_at(tree.entries_view(), p)]
            value_at(tree.entries_view(), p) == if lo <= p <= hi {
                Some(target)
            } else {
                None
            } by {
            assert(insert_law(before, tree.entries_view(), interval, target, PolicyUnique, p));
            assert(!crate::interval_tree::entries_cover(before, p));
        }
    }
    tree
}

/// A tree moving on every point of `intervals` to `target`.
fn tree_of(intervals: &Vec<Interval<u32>>, target: NfaIdx) -> (r: IntervalTree<u32, NfaIdx>)
    requires
        all_wf(intervals@),
    ensures
        all_to(r, target),
        forall|p: int|
            #![trigger value_at(r.entries_view(), p)]
            value_at(r.entries_view(), p) == if covered(intervals@, p) {
                Some(target)
            } else {
                None
            },
{
    let mut tree: IntervalTree<u32, NfaIdx> = IntervalTree::new();
    let mut i: usize = 0;
    proof {
        assert forall|p: int| !covered(intervals@.subrange(0, 0), p) by {}
    }
    while i < intervals.len()
        invariant
            0 <= i <= intervals@.len(),
            all_wf(intervals@),
            all_to(tree, target),
            forall|p: int|
                #![trigger value_at(tree.entries_view(), p)]
                value_at(tree.entries_view(), p) == if covered(intervals@.subrange(0, i as int), p) {
                    Some(target)
                } else {
                    None
                },
        decreases intervals@.len() - i,
    {
        let ghost before = tree.entries_view();
        let pre: &[(Interval<u32>, NfaIdx)] = tree.iter();
        let interval: Interval<u32> = intervals[i];
        proof {
            assert(intervals@[i as int].wf());
        }
        tree.insert(interval, target, PolicyUnique);
        let post: &[(Interval<u32>, NfaIdx)] = tree.iter();
        proof {
            let after = tree.entries_view();
            lemma_insert_uniform(before, after, interval, target);
            let prev = intervals@.subrange(0, i as int);
            let next = intervals@.subrange(0, i + 1);
            assert forall|p: int|
                #![trigger value_at(after, p)]
                value_at(after, p) == if covered(next, p) {
                    Some(target)
                } else {
                    None
                } by {
                assert(insert_law(before, after, interval, target, PolicyUnique, p));
                if covered(prev, p) {
                    let j = choose|j: int| 0 <= j < prev.len() && #[trigger] prev[j].has(p);
                    assert(next[j] == prev[j]);
                }
                if interval.has(p) {
                    assert(next[i as int] == interval);
                }
                if covered(next, p) && !interval.has(p) {
                    let j = choose|j: int| 0 <= j < next.len() && #[trigger] next[j].has(p);
                    assert(j != i);
                    assert(prev[j] == next[j]);
                }
                assert(value_at(before, p) == if covered(prev, p) {
                    Some(target)
                } else {
                    None
                });
            }
        }
        i = i + 1;
    }
    proof {
        assert(intervals@.subrange(0, intervals@.len() as int) =~= intervals@);
    }
    tree
}

/// Some range of `items` holds the code point `p`.
pub open spec fn class_has(items: Seq<(char, char)>, p: int) -> bool {
    exists|i: int| 0 <= i < items.len() && (#[trigger] items[i]).0 as int <= p <= items[i].1 as int
}

/// A tree moving to `target` on the code points of a character class (in the
/// whole `u32` range when negated).
fn class_tree(negated: bool, items: &Vec<(char, char)>, target: NfaIdx) -> (r: IntervalTree<u32, NfaIdx>)
    requires
        forall|i: int| 0 <= i < items@.len() ==> (#[trigger] items@[i]).0 as int <= items@[i].1 as int,
    ensures
        all_to(r, target),
        forall|p: int|
            #![trigger value_at(r.entries_view(), p)]
            0 <= p <= u32::MAX ==> value_at(r.entries_view(), p) == if class_has(items@, p) != negated {
                Some(target)
            } else {
                None
            },
{
    let mut intervals: Vec<Interval<u32>> = Vec::new();
    let mut i: usize = 0;
    while i < items.len()
        invariant
            0 <= i <= items@.len(),
            forall|k: int| 0 <= k < items@.len() ==> (#[trigger] items@[k]).0 as int <= items@[k].1 as int,
            intervals@.len() == i,
            forall|k: int|
                0 <= k < i ==> (#[trigger] intervals@[k]).lo() == items@[k].0 as int && intervals@[k].hi()
                    == items@[k].1 as int,
        decreases items@.len() - i,
    {
        let (start, end): (char, char) = items[i];
        proof {
            assert(items@[i as int].0 as int <= items@[i as int].1 as int);
        }
        intervals.push(Interval::new(char_code(start), char_code(end)));
        i = i + 1;
    }
    proof {
        assert forall|p: int| covered(intervals@, p) == class_has(items@, p) by {
            if covered(intervals@, p) {
                let j = choose|j: int| 0 <= j < intervals@.len() && #[trigger] intervals@[j].has(p);
                assert(items@[j].0 as int <= p <= items@[j].1 as int);
            }
            if class_has(items@, p) {
                let j = choose|j: int|
                    0 <= j < items@.len() && (#[trigger] items@[j]).0 as int <= p <= items@[j].1 as int;
                assert(intervals@[j].has(p));
            }
        }
    }
    if negated {
        let ghost original = intervals@;
        let complement: Vec<Interval<u32>> = Interval::complement(&mut intervals);
        let tree: IntervalTree<u32, NfaIdx> = tree_of(&complement, target);
        proof {
            assert forall|p: int|
                #![trigger value_at(tree.entries_view(), p)]
                0 <= p <= u32::MAX implies value_at(tree.entries_view(), p) == if class_has(items@, p)
                    != negated {
                    Some(target)
                } else {
                    None
                } by {
                assert(covered(complement@, p) == !covered(original, p));
            }
        }
        tree
    } else {
        tree_of(&intervals, target)
    }
}

proof fn lemma_prefix_step(items: Seq<Regex>, encs: Seq<Encoding>, i: int)
    requires
        0 <= i < items.len(),
    ensures
        sequence_cost(items.subrange(0, i + 1), encs) == sequence_cost(items.subrange(0, i), encs) + 1 + build_cost(items[i], encs),
        alternation_cost(items.subrange(0, i + 1), encs) == alternation_cost(items.subrange(0, i), encs) + 2 + build_cost(
            items[i], encs,
        ),
        tag_bound_of_items(items.subrange(0, i + 1), encs.len()) == tag_bound_of_items(items.subrange(0, i), encs.len()) + tag_bound(
            items[i], encs.len(),
        ),
{
    let next = items.subrange(0, i + 1);
    assert(next.subrange(0, next.len() - 1) =~= items.subrange(0, i));
    assert(next[next.len() - 1] == items[i]);
}

proof fn lemma_prefix_mono(items: Seq<Regex>, encs: Seq<Encoding>, i: int, j: int)
    requires
        0 <= i <= j <= items.len(),
    ensures
        sequence_cost(items.subrange(0, i), encs) <= sequence_cost(items.subrange(0, j), encs),
        alternation_cost(items.subrange(0, i), encs) <= alternation_cost(items.subrange(0, j), encs),
        tag_bound_of_items(items.subrange(0, i), encs.len()) <= tag_bound_of_items(items.subrange(0, j), encs.len()),
    decreases j - i,
{
    if i < j {
        lemma_prefix_mono(items, encs, i, j - 1);
        lemma_prefix_step(items, encs, j - 1);
    }
}

proof fn lemma_whole(items: Seq<Regex>)
    ensures
        items.subrange(0, items.len() as int) == items,
{
    assert(items.subrange(0, items.len() as int) =~= items);
}

/// The transitions of state `i` are empty.
pub open spec fn fresh(states: Seq<NfaState>, i: int) -> bool {
    0 <= i < states.len() && states[i].transitions.targets().len() == 0
}

/// A move (on a character or without input) from state `x` to state `y`.
pub open spec fn step(states: Seq<NfaState>, x: int, y: int) -> bool {
    0 <= x < states.len() && exists|u: int|
        0 <= u < states[x].transitions.targets().len() && (#[trigger] states[x].transitions.targets()[u]).0 == y
}

/// `w` is a walk of at least one state along moves.
pub open spec fn is_walk(states: Seq<NfaState>, w: Seq<int>) -> bool {
    &&& w.len() >= 1
    &&& forall|i: int| 0 <= i < w.len() - 1 ==> #[trigger] step(states, w[i], w[i + 1])
}

/// Some walk leads from `x` to `y`.
pub open spec fn reaches(states: Seq<NfaState>, x: int, y: int) -> bool {
    exists|w: Seq<int>| #[trigger] is_walk(states, w) && w[0] == x && w[w.len() - 1] == y
}

/// Whether `re` has a way through: the part built for it then leads from its
/// start to its end.
/// A single-character expression: any character, a literal or a class.
pub open spec fn is_leaf(re: Regex) -> bool {
    re is AnyChar || re is Literal || re is BracketedRanges
}

/// The code point `p` is one the single-character expression `re` matches.
pub open spec fn leaf_has(re: Regex, p: int) -> bool {
    match re {
        Regex::AnyChar => 0 <= p <= 0x10FFFF,
        Regex::Literal(c) => p == c as int,
        Regex::BracketedRanges { negated, items } => class_has(items@, p) != negated,
        _ => false,
    }
}

/// The moves `t` go to `target` on exactly the code points `re` matches.
pub open spec fn leaf_moves(t: Transitions, re: Regex, target: NfaIdx) -> bool {
    t matches Transitions::Interval(tree) && forall|p: int|
        0 <= p <= 0x10FFFF ==> #[trigger] value_at(tree.entries_view(), p) == (if leaf_has(re, p) {
            Some(target)
        } else {
            None
        })
}

pub open spec fn can_match(re: Regex) -> bool
    decreases re,
{
    match re {
        Regex::AnyChar => true,
        Regex::Literal(_) => true,
        Regex::Capture(sub_rule) => can_match(sub_rule.regex),
        Regex::BracketedRanges { negated, items } => exists|p: int|
            0 <= p <= 0x10FFFF && #[trigger] class_has(items@, p) != negated,
        Regex::KleeneClosure(_) => true,
        Regex::KleenePlus(item) => can_match(*item),
        Regex::BoundedRepetition { min, item, .. } => min == 0 || can_match(*item),
        Regex::Sequence(items) => forall|k: int| 0 <= k < items.len() ==> can_match(#[trigger] items@[k]),
        Regex::Alternation(items) => exists|k: int| 0 <= k < items.len() && can_match(#[trigger] items@[k]),
        Regex::Placeholder { item, .. } => can_match(*item),
    }
}

/// `t` is, up to `same_tag`, the opening or the closing tag of a capture
/// that `re` holds, for the rule `rule_idx` and without an encoding.
pub open spec fn capture_tag_of(re: Regex, rule_idx: RuleIdx, t: CaptureTag) -> bool
    decreases re,
{
    match re {
        Regex::Capture(sub_rule) => (t.rule_idx == rule_idx && same_sub_rule(*sub_rule, t.sub_rule)
            && t.maybe_encoding is None) || capture_tag_of(sub_rule.regex, rule_idx, t),
        Regex::KleeneClosure(item) => capture_tag_of(*item, rule_idx, t),
        Regex::KleenePlus(item) => capture_tag_of(*item, rule_idx, t),
        Regex::BoundedRepetition { max, item, .. } => max > 0 && capture_tag_of(*item, rule_idx, t),
        Regex::Sequence(items) => exists|k: int|
            0 <= k < items.len() && capture_tag_of(#[trigger] items@[k], rule_idx, t),
        Regex::Alternation(items) => exists|k: int|
            0 <= k < items.len() && capture_tag_of(#[trigger] items@[k], rule_idx, t),
        Regex::Placeholder { item, .. } => capture_tag_of(*item, rule_idx, t),
        _ => false,
    }
}

/// `tags` holds, up to `same_tag`, exactly the tags of the captures of `re`.
pub open spec fn tags_exact(tags: Seq<CaptureTag>, re: Regex, rule_idx: RuleIdx) -> bool {
    forall|x: CaptureTag| #[trigger] has_same_tag(tags, x) <==> capture_tag_of(re, rule_idx, x)
}

/// `tags` holds, up to `same_tag`, exactly the tags of the captures of `items`.
pub open spec fn tags_exact_items(tags: Seq<CaptureTag>, items: Seq<Regex>, rule_idx: RuleIdx) -> bool {
    forall|x: CaptureTag|
        #[trigger] has_same_tag(tags, x) <==> exists|k: int|
            0 <= k < items.len() && capture_tag_of(#[trigger] items[k], rule_idx, x)
}

/// The opening and closing tags made for one capture stand for exactly that
/// capture's tags.
proof fn lemma_pair_tags(pair: Seq<CaptureTag>, sub_rule: SubRule, rule_idx: RuleIdx)
    requires
        pair.len() == 2,
        forall|i: int|
            0 <= i < 2 ==> (#[trigger] pair[i]).rule_idx == rule_idx && pair[i].sub_rule.same_as(sub_rule)
                && pair[i].maybe_encoding is None,
        !pair[0].is_close,
        pair[1].is_close,
    ensures
        forall|x: CaptureTag|
            #[trigger] has_same_tag(pair, x) <==> (x.rule_idx == rule_idx && same_sub_rule(sub_rule, x.sub_rule)
                && x.maybe_encoding is None),
{
    assert forall|x: CaptureTag|
        #[trigger] has_same_tag(pair, x) <==> (x.rule_idx == rule_idx && same_sub_rule(sub_rule, x.sub_rule)
            && x.maybe_encoding is None) by {
        let p = if x.is_close { pair[1] } else { pair[0] };
        lemma_equiv_same(p.sub_rule.regex, sub_rule.regex);
        lemma_same_regex_symmetric(p.sub_rule.regex, sub_rule.regex);
        if has_same_tag(pair, x) {
            let i = choose|i: int| 0 <= i < pair.len() && same_tag(#[trigger] pair[i], x);
            lemma_equiv_same(pair[i].sub_rule.regex, sub_rule.regex);
            lemma_same_regex_symmetric(pair[i].sub_rule.regex, sub_rule.regex);
            lemma_same_regex_transitive(sub_rule.regex, pair[i].sub_rule.regex, x.sub_rule.regex);
        }
        if x.rule_idx == rule_idx && same_sub_rule(sub_rule, x.sub_rule) && x.maybe_encoding is None {
            lemma_same_regex_transitive(p.sub_rule.regex, sub_rule.regex, x.sub_rule.regex);
            if x.is_close {
                assert(same_tag(pair[1], x));
            } else {
                assert(same_tag(pair[0], x));
            }
        }
    }
}

/// Adding the tags of the next item to those of the items before it gives
/// the tags of one more item.
proof fn lemma_items_tags_step(
    before: Seq<CaptureTag>,
    t: Seq<CaptureTag>,
    after: Seq<CaptureTag>,
    items: Seq<Regex>,
    i: int,
    rule_idx: RuleIdx,
)
    requires
        0 <= i < items.len(),
        tags_exact_items(before, items.subrange(0, i), rule_idx),
        tags_exact(t, items[i], rule_idx),
        forall|x: CaptureTag| has_same_tag(after, x) <==> (has_same_tag(before, x) || has_same_tag(t, x)),
    ensures
        tags_exact_items(after, items.subrange(0, i + 1), rule_idx),
{
    let pre = items.subrange(0, i);
    let next = items.subrange(0, i + 1);
    assert forall|x: CaptureTag| #[trigger] has_same_tag(after, x) <==> exists|k: int|
        0 <= k < next.len() && capture_tag_of(#[trigger] next[k], rule_idx, x) by {
        if has_same_tag(before, x) {
            let k = choose|k: int| 0 <= k < pre.len() && capture_tag_of(#[trigger] pre[k], rule_idx, x);
            assert(next[k] == pre[k]);
        }
        if has_same_tag(t, x) {
            assert(next[i] == items[i]);
        }
        if exists|k: int| 0 <= k < next.len() && capture_tag_of(#[trigger] next[k], rule_idx, x) {
            let k = choose|k: int| 0 <= k < next.len() && capture_tag_of(#[trigger] next[k], rule_idx, x);
            if k < i {
                assert(pre[k] == next[k]);
            } else {
                assert(next[k] == items[i]);
            }
        }
    }
}

/// Adding the tags of a part to tags of the same part changes nothing.
proof fn lemma_tags_union_same(a: Seq<CaptureTag>, b: Seq<CaptureTag>, after: Seq<CaptureTag>, re: Regex, rule_idx: RuleIdx)
    requires
        tags_exact(a, re, rule_idx),
        tags_exact(b, re, rule_idx),
        forall|x: CaptureTag| has_same_tag(after, x) <==> (has_same_tag(a, x) || has_same_tag(b, x)),
    ensures
        tags_exact(after, re, rule_idx),
{
    assert forall|x: CaptureTag| #[trigger] has_same_tag(after, x) <==> capture_tag_of(re, rule_idx, x) by {
        assert(has_same_tag(a, x) <==> capture_tag_of(re, rule_idx, x));
    }
}

proof fn lemma_reach_self(states: Seq<NfaState>, x: int)
    ensures
        reaches(states, x, x),
{
    let w = seq![x];
    assert(is_walk(states, w));
}

proof fn lemma_reach_step(states: Seq<NfaState>, x: int, y: int, u: int)
    requires
        0 <= x < states.len(),
        0 <= u < states[x].transitions.targets().len(),
        states[x].transitions.targets()[u].0 == y,
    ensures
        reaches(states, x, y),
{
    let w = seq![x, y];
    assert(step(states, w[0], w[1]));
    assert(is_walk(states, w));
}

proof fn lemma_reach_trans(states: Seq<NfaState>, x: int, y: int, z: int)
    requires
        reaches(states, x, y),
        reaches(states, y, z),
    ensures
        reaches(states, x, z),
{
    let w1 = choose|w: Seq<int>| #[trigger] is_walk(states, w) && w[0] == x && w[w.len() - 1] == y;
    let w2 = choose|w: Seq<int>| #[trigger] is_walk(states, w) && w[0] == y && w[w.len() - 1] == z;
    let w = w1 + w2.drop_first();
    assert forall|i: int| 0 <= i < w.len() - 1 implies #[trigger] step(states, w[i], w[i + 1]) by {
        if i < w1.len() - 1 {
            assert(step(states, w1[i], w1[i + 1]));
        } else {
            let j = i - (w1.len() - 1);
            assert(step(states, w2[j], w2[j + 1]));
        }
    }
    assert(is_walk(states, w));
}

/// A walk survives a change of one state without moves (or of none).
proof fn lemma_reach_kept(before: Seq<NfaState>, after: Seq<NfaState>, c: int, x: int, y: int)
    requires
        reaches(before, x, y),
        extends_at(before, after, c),
        0 <= c < before.len() ==> before[c].transitions.targets().len() == 0,
    ensures
        reaches(after, x, y),
{
    let w = choose|w: Seq<int>| #[trigger] is_walk(before, w) && w[0] == x && w[w.len() - 1] == y;
    assert forall|i: int| 0 <= i < w.len() - 1 implies #[trigger] step(after, w[i], w[i + 1]) by {
        assert(step(before, w[i], w[i + 1]));
        assert(after[w[i]] == before[w[i]]);
    }
    assert(is_walk(after, w));
}

/// Every walk survives a change of one state without moves (or of none).
proof fn lemma_reach_kept_all(before: Seq<NfaState>, after: Seq<NfaState>, c: int)
    requires
        extends_at(before, after, c),
        0 <= c < before.len() ==> before[c].transitions.targets().len() == 0,
    ensures
        forall|x: int, y: int| reaches(before, x, y) ==> #[trigger] reaches(after, x, y),
{
    assert forall|x: int, y: int| reaches(before, x, y) implies #[trigger] reaches(after, x, y) by {
        lemma_reach_kept(before, after, c, x, y);
    }
}

/// A state moving on the code point `p` of its tree to `target` reaches it.
proof fn lemma_reach_tree(states: Seq<NfaState>, x: int, tree: IntervalTree<u32, NfaIdx>, target: NfaIdx, p: int)
    requires
        0 <= x < states.len(),
        states[x].transitions == Transitions::Interval(tree),
        value_at(tree.entries_view(), p) == Some(target),
    ensures
        reaches(states, x, target.0 as int),
{
    let s = tree.entries_view();
    let k = crate::interval_tree::entry_index_at(s, p);
    assert(states[x].transitions.targets()[k] == s[k].1);
    lemma_reach_step(states, x, target.0 as int, k);
}

/// One spontaneous move to `target`.
fn jump(target: NfaIdx) -> (r: Transitions)
    ensures
        r.targets() == seq![target],
        r is Spontaneous,
{
    let mut targets: Vec<NfaIdx> = Vec::new();
    targets.push(target);
    assert(targets@ =~= seq![target]);
    Transitions::Spontaneous(targets)
}

/// Spontaneous moves to `first`, then to `second`.
fn fork(first: NfaIdx, second: NfaIdx) -> (r: Transitions)
    ensures
        r.targets() == seq![first, second],
        r is Spontaneous,
{
    let mut targets: Vec<NfaIdx> = Vec::new();
    targets.push(first);
    targets.push(second);
    assert(targets@ =~= seq![first, second]);
    Transitions::Spontaneous(targets)
}

proof fn lemma_all_to_below(tree: IntervalTree<u32, NfaIdx>, target: NfaIdx, n: int)
    requires
        all_to(tree, target),
        target.0 < n,
    ensures
        Transitions::Interval(tree).targets_below(n),
{
    let t = Transitions::Interval(tree);
    assert forall|i: int| 0 <= i < t.targets().len() implies (#[trigger] t.targets()[i]).0 < n by {
        assert(t.targets()[i] == tree.entries_view()[i].1);
    }
}

impl Tnfa {
    /// From `current`, a chain of moves that clear each of `tags` in turn;
    /// returns the state at the end of the chain.
    fn negative_tags(&mut self, tags: &Vec<CaptureTag>, current: NfaIdx) -> (r: NfaIdx)
        requires
            states_wf(old(self).states@),
            fresh(old(self).states@, current.0 as int),
            old(self).states@.len() + tags@.len() <= usize::MAX,
        ensures
            states_wf(final(self).states@),
            final(self).states@.len() == old(self).states@.len() + tags@.len(),
            extends_at(old(self).states@, final(self).states@, current.0 as int),
            fresh(final(self).states@, r.0 as int),
            r == current || r.0 >= old(self).states@.len(),
            final(self).tags@ == old(self).tags@,
            tags@.len() == 0 ==> final(self).states@ == old(self).states@ && r == current,
            reaches(final(self).states@, current.0 as int, r.0 as int),
    {
        let ghost s0 = self.states@;
        let mut cur: NfaIdx = current;
        let mut i: usize = 0;
        proof {
            lemma_reach_self(s0, current.0 as int);
        }
        while i < tags.len()
            invariant
                0 <= i <= tags@.len(),
                s0.len() + tags@.len() <= usize::MAX,
                0 <= current.0 < s0.len(),
                states_wf(self.states@),
                self.states@.len() == s0.len() + i,
                extends_at(s0, self.states@, current.0 as int),
                fresh(self.states@, cur.0 as int),
                cur == current || cur.0 >= s0.len(),
                self.tags@ == old(self).tags@,
                i == 0 ==> self.states@ == s0 && cur == current,
                reaches(self.states@, current.0 as int, cur.0 as int),
            decreases tags@.len() - i,
        {
            let ghost s1 = self.states@;
            let next: NfaIdx = self.new_state();
            let ghost s2 = self.states@;
            let tag: CaptureTag = tags[i].deep_copy();
            let moves: Transitions = Transitions::Tagged { tag, positive: false, target: next };
            assert(moves.targets() =~= seq![next]);
            self.set_transitions(cur, moves);
            proof {
                assert(s2[cur.0 as int] == s1[cur.0 as int]);
                lemma_extends_then(s1, s2, self.states@, cur.0 as int);
                lemma_extends_trans(s0, s1, self.states@, current.0 as int, cur.0 as int);
                assert(self.states@[next.0 as int] == s2[next.0 as int]);
                lemma_reach_kept(s1, self.states@, cur.0 as int, current.0 as int, cur.0 as int);
                lemma_reach_step(self.states@, cur.0 as int, next.0 as int, 0);
                lemma_reach_trans(self.states@, current.0 as int, cur.0 as int, next.0 as int);
            }
            cur = next;
            i = i + 1;
        }
        cur
    }
}

/// The number of states the construction of `re` may add, with no
/// encodings, and the bound on its tags, when both fit in a `usize`.
pub fn construction_cost(re: &Regex) -> (r: Option<(usize, usize)>)
    requires
        re.wf(),
    ensures
        r matches Some((c, t)) ==> c == build_cost(*re, Seq::empty()) && t == tag_bound(*re, 0),
        r is None ==> build_cost(*re, Seq::empty()) + tag_bound(*re, 0) > usize::MAX,
    decreases re,
{
    let ghost e: Seq<Encoding> = Seq::empty();
    assert(e.len() == 0);
    match re {
        Regex::Capture(sub_rule) => {
            proof {
                assert(splice_cost(e, 2 + build_cost(sub_rule.regex, Seq::empty())) == 0);
                assert(capture_cost(**sub_rule, e) == 4 + build_cost(sub_rule.regex, e));
            }
            let (c, t) = match construction_cost(&sub_rule.regex) {
                Some(v) => v,
                None => return None,
            };
            if c > usize::MAX - 4 || t > usize::MAX - 2 {
                return None;
            }
            Some((c + 4, t + 2))
        },
        Regex::KleeneClosure(item) => {
            let (c, t) = match construction_cost(item) {
                Some(v) => v,
                None => return None,
            };
            if c > usize::MAX - 3 || t > usize::MAX - 3 - c {
                return None;
            }
            Some((3 + c + t, t))
        },
        Regex::KleenePlus(item) => {
            let (c, t) = match construction_cost(item) {
                Some(v) => v,
                None => return None,
            };
            if c > (usize::MAX - 4) / 2 || t > usize::MAX - 4 - 2 * c || t > usize::MAX / 2 {
                return None;
            }
            Some((4 + 2 * c + t, 2 * t))
        },
        Regex::BoundedRepetition { min, max, item } => {
            let (c, t) = match construction_cost(item) {
                Some(v) => v,
                None => {
                    proof {
                        let m = *max as int;
                        let bc = build_cost(**item, e) as int;
                        assert(m * (3 + bc) >= 3 + bc) by (nonlinear_arith)
                            requires
                                m >= 1,
                                bc >= 0,
                        ;
                    }
                    return None;
                },
            };
            let m: usize = *max as usize;
            if c > usize::MAX - 3 {
                proof {
                    assert(m * (3 + c) >= 3 + c) by (nonlinear_arith)
                        requires
                            m >= 1,
                    ;
                }
                return None;
            }
            let unit: usize = 3 + c;
            let whole: usize = match unit.checked_mul(m) {
                Some(v) => v,
                None => {
                    proof {
                        assert(unit * m == m * unit) by (nonlinear_arith);
                    }
                    return None;
                },
            };
            if t > usize::MAX - whole {
                proof {
                    assert(unit * m == m * unit) by (nonlinear_arith);
                }
                return None;
            }
            let tags: usize = match t.checked_mul(m) {
                Some(v) => v,
                None => {
                    proof {
                        assert(t * m == m * t) by (nonlinear_arith);
                    }
                    return None;
                },
            };
            proof {
                assert(unit * m == m * unit) by (nonlinear_arith);
                assert(t * m == m * t) by (nonlinear_arith);
            }
            Some((whole + t, tags))
        },
        Regex::Sequence(items) => {
            let n: usize = items.len();
            let mut c: usize = 0;
            let mut t: usize = 0;
            let mut i: usize = 0;
            proof {
                assert(items@.subrange(0, 0) =~= Seq::<Regex>::empty());
                lemma_whole(items@);
            }
            while i < n
                invariant
                    n == items@.len(),
                    0 <= i <= n,
                    e == Seq::<Encoding>::empty(),
                    forall|k: int| 0 <= k < items@.len() ==> (#[trigger] items@[k]).wf(),
                    c == sequence_cost(items@.subrange(0, i as int), e),
                    t == tag_bound_of_items(items@.subrange(0, i as int), 0),
                    sequence_cost(items@, e) == sequence_cost(items@.subrange(0, n as int), e),
                    tag_bound_of_items(items@, 0) == tag_bound_of_items(items@.subrange(0, n as int), 0),
                    build_cost(*re, e) == sequence_cost(items@, e),
                    tag_bound(*re, 0) == tag_bound_of_items(items@, 0),
                    *re == Regex::Sequence(*items),
                decreases n - i,
            {
                proof {
                    lemma_prefix_step(items@, e, i as int);
                    lemma_prefix_mono(items@, e, i + 1, n as int);
                    assert(items@[i as int].wf());
                    assert(decreases_to!(*re => items@[i as int]));
                }
                proof {
                    assert(e.len() == 0);
                    assert(build_cost(*re, e) >= c + 1 + build_cost(items@[i as int], e));
                    assert(tag_bound(*re, 0) >= t + tag_bound(items@[i as int], 0));
                }
                let (ci, ti) = match construction_cost(&items[i]) {
                    Some(v) => v,
                    None => return None,
                };
                if ci > usize::MAX - 1 || c > usize::MAX - 1 - ci || ti > usize::MAX - t {
                    return None;
                }
                if c + 1 + ci > usize::MAX - (t + ti) {
                    return None;
                }
                c = c + 1 + ci;
                t = t + ti;
                i = i + 1;
            }
            Some((c, t))
        },
        Regex::Alternation(items) => {
            let n: usize = items.len();
            let mut c: usize = 0;
            let mut t: usize = 0;
            let mut i: usize = 0;
            proof {
                assert(items@.subrange(0, 0) =~= Seq::<Regex>::empty());
                lemma_whole(items@);
            }
            while i < n
                invariant
                    n == items@.len(),
                    0 <= i <= n,
                    e == Seq::<Encoding>::empty(),
                    forall|k: int| 0 <= k < items@.len() ==> (#[trigger] items@[k]).wf(),
                    c == alternation_cost(items@.subrange(0, i as int), e),
                    t == tag_bound_of_items(items@.subrange(0, i as int), 0),
                    alternation_cost(items@, e) == alternation_cost(items@.subrange(0, n as int), e),
                    tag_bound_of_items(items@, 0) == tag_bound_of_items(items@.subrange(0, n as int), 0),
                    build_cost(*re, e) == alternation_cost(items@, e) + items@.len() * tag_bound_of_items(items@, 0),
                    tag_bound(*re, 0) == tag_bound_of_items(items@, 0),
                    *re == Regex::Alternation(*items),
                decreases n - i,
            {
                proof {
                    lemma_prefix_step(items@, e, i as int);
                    lemma_prefix_mono(items@, e, i + 1, n as int);
                    assert(items@[i as int].wf());
                    assert(decreases_to!(*re => items@[i as int]));
                }
                proof {
                    let nn = n as int;
                    let tb = tag_bound_of_items(items@, 0) as int;
                    assert(nn * tb >= 0) by (nonlinear_arith)
                        requires
                            nn >= 0,
                            tb >= 0,
                    ;
                    assert(e.len() == 0);
                    assert(build_cost(*re, e) >= c + 2 + build_cost(items@[i as int], e));
                    assert(tag_bound(*re, 0) >= t + tag_bound(items@[i as int], 0));
                }
                let (ci, ti) = match construction_cost(&items[i]) {
                    Some(v) => v,
                    None => {
                        proof {
                            let nn = n as int;
                            let tb = tag_bound_of_items(items@, 0) as int;
                            assert(nn * tb >= 0) by (nonlinear_arith)
                                requires
                                    nn >= 0,
                                    tb >= 0,
                            ;
                        }
                        return None;
                    },
                };
                if ci > usize::MAX - 2 || c > usize::MAX - 2 - ci || ti > usize::MAX - t {
                    proof {
                        let nn = n as int;
                        let tb = tag_bound_of_items(items@, 0) as int;
                        assert(nn * tb >= 0) by (nonlinear_arith)
                            requires
                                nn >= 0,
                                tb >= 0,
                        ;
                    }
                    return None;
                }
                c = c + 2 + ci;
                t = t + ti;
                i = i + 1;
            }
            let spread: usize = match t.checked_mul(n) {
                Some(v) => v,
                None => {
                    proof {
                        assert(t * n == n * t) by (nonlinear_arith);
                    }
                    return None;
                },
            };
            proof {
                assert(t * n == n * t) by (nonlinear_arith);
            }
            if c > usize::MAX - spread || c + spread > usize::MAX - t {
                return None;
            }
            Some((c + spread, t))
        },
        Regex::Placeholder { item, .. } => construction_cost(item),
        _ => Some((0, 0)),
    }
}

impl Tnfa {
    /// Copies `other` after the existing states: `current` moves
    /// spontaneously to the copy of its start, and the copy of each accepting
    /// state moves spontaneously to `target` instead of accepting.
    fn splice(&mut self, other: &Tnfa, current: NfaIdx, target: NfaIdx)
        requires
            states_wf(old(self).states@),
            fresh(old(self).states@, current.0 as int),
            target.0 < old(self).states@.len(),
            other.wf(),
            forall|i: int|
                0 <= i < other.states@.len() ==> !((#[trigger] other.states@[i]).transitions is Tagged),
            old(self).states@.len() + other.states@.len() <= usize::MAX,
        ensures
            states_wf(final(self).states@),
            final(self).states@.len() == old(self).states@.len() + other.states@.len(),
            extends_at(old(self).states@, final(self).states@, current.0 as int),
            untagged_from(old(self).states@, final(self).states@, current.0 as int),
            final(self).tags@ == old(self).tags@,
    {
        let ghost s0 = self.states@;
        let base: usize = self.states.len();
        let n: usize = other.states.len();
        let mut i: usize = 0;
        proof {
            assert(s0[current.0 as int].transitions.targets().len() == 0);
        }
        while i < n
            invariant
                n == other.states@.len(),
                base == s0.len(),
                base + n <= usize::MAX,
                0 <= i <= n,
                0 <= current.0 < s0.len(),
                states_wf(self.states@),
                self.states@.len() == base + i,
                extends_at(s0, self.states@, current.0 as int),
                untagged_from(s0, self.states@, current.0 as int),
                self.states@[current.0 as int] == s0[current.0 as int],
                self.tags@ == old(self).tags@,
            decreases n - i,
        {
            let ghost s1 = self.states@;
            self.new_state();
            proof {
                lemma_extends_trans(s0, s1, self.states@, current.0 as int, -1);
                lemma_untagged_trans(s0, s1, self.states@, current.0 as int, -1);
            }
            i = i + 1;
        }
        let ghost s2 = self.states@;
        self.set_transitions(current, jump(NfaIdx(base)));
        proof {
            lemma_extends_trans(s0, s2, self.states@, current.0 as int, current.0 as int);
            lemma_untagged_trans(s0, s2, self.states@, current.0 as int, current.0 as int);
        }
        let mut k: usize = 0;
        while k < n
            invariant
                n == other.states@.len(),
                base == s0.len(),
                base + n <= usize::MAX,
                other.wf(),
                forall|q: int|
                    0 <= q < other.states@.len() ==> !((#[trigger] other.states@[q]).transitions is Tagged),
                0 <= k <= n,
                0 <= current.0 < s0.len(),
                target.0 < s0.len(),
                states_wf(self.states@),
                self.states@.len() == base + n,
                extends_at(s0, self.states@, current.0 as int),
                untagged_from(s0, self.states@, current.0 as int),
                self.tags@ == old(self).tags@,
            decreases n - k,
        {
            let ghost s3 = self.states@;
            let ghost st = other.states@[k as int];
            proof {
                assert(st.transitions.targets_below(n as int));
            }
            if other.states[k].is_accepting() {
                self.set_transitions(NfaIdx(base + k), jump(target));
            } else {
                let moves: Transitions = shift_transitions(&other.states[k].transitions, base);
                proof {
                    lemma_shifted_below(st.transitions, moves, base as int, n as int);
                    assert(!(moves is Tagged));
                }
                self.set_transitions(NfaIdx(base + k), moves);
            }
            proof {
                lemma_extends_trans(s0, s3, self.states@, current.0 as int, (base + k) as int);
                lemma_untagged_trans(s0, s3, self.states@, current.0 as int, (base + k) as int);
            }
            k = k + 1;
        }
    }
}

/// The cost of the variants for the encodings up to `k`, and one more.
proof fn lemma_splice_step(encs: Seq<Encoding>, leaf: nat, k: int)
    requires
        0 <= k < encs.len(),
    ensures
        splice_cost(encs.subrange(0, k + 1), leaf) == splice_cost(encs.subrange(0, k), leaf) + 4 + leaf
            * encs[k].nfa.states@.len(),
{
    assert(encs.subrange(0, k + 1).drop_last() =~= encs.subrange(0, k));
}

/// The cost of the variants for a prefix of the encodings is at most that
/// for all of them.
proof fn lemma_splice_mono(encs: Seq<Encoding>, leaf: nat, k: int)
    requires
        0 <= k <= encs.len(),
    ensures
        splice_cost(encs.subrange(0, k), leaf) <= splice_cost(encs, leaf),
    decreases encs.len() - k,
{
    if k < encs.len() {
        lemma_splice_step(encs, leaf, k);
        lemma_splice_mono(encs, leaf, k + 1);
    } else {
        assert(encs.subrange(0, k) =~= encs);
    }
}

/// Appending states and then changing only appended ones leaves the states
/// that were there before unchanged.
proof fn lemma_extends_fresh(a: Seq<NfaState>, b: Seq<NfaState>, c: Seq<NfaState>, y: int)
    requires
        extends_at(a, b, -1),
        extends_at(b, c, y),
        y == -1 || a.len() <= y < b.len(),
    ensures
        extends_at(a, c, -1),
{
    assert forall|i: int| 0 <= i < a.len() && i != -1 implies #[trigger] c[i] == a[i] by {
        assert(c[i] == b[i]);
    }
}

impl Tnfa {
    /// The variant of a capture for one encoding, on new states: an opening
    /// move tagged with the encoding, a copy of `part` (the capture's pattern
    /// together with the encoding), and a closing tagged move. Gives the first
    /// and the last state and the two tags.
    fn encoded_variant(&mut self, rule_idx: RuleIdx, sub_rule: &SubRule, encoding: EncodingIdx, part: &Tnfa) -> (r: (
        NfaIdx,
        NfaIdx,
        Vec<CaptureTag>,
    ))
        requires
            states_wf(old(self).states@),
            part.wf(),
            forall|i: int| 0 <= i < part.states@.len() ==> !((#[trigger] part.states@[i]).transitions is Tagged),
            old(self).states@.len() + 4 + part.states@.len() <= usize::MAX,
        ensures
            states_wf(final(self).states@),
            final(self).states@.len() == old(self).states@.len() + 4 + part.states@.len(),
            extends_at(old(self).states@, final(self).states@, -1),
            old(self).states@.len() <= r.0.0 < final(self).states@.len(),
            old(self).states@.len() <= r.1.0,
            fresh(final(self).states@, r.1.0 as int),
            r.2@.len() == 2,
            final(self).tags@ == old(self).tags@,
    {
        let ghost s0 = self.states@;
        let start_outside: NfaIdx = self.new_state();
        let start_inside: NfaIdx = self.new_state();
        let end_inside: NfaIdx = self.new_state();
        let end_outside: NfaIdx = self.new_state();
        let ghost s4 = self.states@;
        proof {
            assert(s4.subrange(0, s0.len() as int) =~= s0);
            assert forall|i: int| 0 <= i < s0.len() implies #[trigger] s4[i] == s0[i] by {
                assert(s4[i] == s4.subrange(0, s0.len() as int)[i]);
            }
        }
        let open_tag: CaptureTag = CaptureTag {
            rule_idx,
            sub_rule: sub_rule.deep_copy(),
            maybe_encoding: Some(encoding),
            is_close: false,
        };
        let close_tag: CaptureTag = CaptureTag {
            rule_idx,
            sub_rule: sub_rule.deep_copy(),
            maybe_encoding: Some(encoding),
            is_close: true,
        };
        let opening: Transitions = Transitions::Tagged { tag: open_tag.deep_copy(), positive: true, target: start_inside };
        assert(opening.targets() =~= seq![start_inside]);
        self.set_transitions(start_outside, opening);
        let ghost s5 = self.states@;
        proof {
            lemma_extends_fresh(s0, s4, s5, start_outside.0 as int);
            assert(s5[start_inside.0 as int] == s4[start_inside.0 as int]);
        }
        self.splice(part, start_inside, end_inside);
        let ghost s6 = self.states@;
        proof {
            lemma_extends_fresh(s0, s5, s6, start_inside.0 as int);
            assert(s6[end_inside.0 as int] == s5[end_inside.0 as int]);
        }
        let closing: Transitions = Transitions::Tagged { tag: close_tag.deep_copy(), positive: true, target: end_outside };
        assert(closing.targets() =~= seq![end_outside]);
        self.set_transitions(end_inside, closing);
        proof {
            lemma_extends_fresh(s0, s6, self.states@, end_inside.0 as int);
            assert(self.states@[end_outside.0 as int] == s4[end_outside.0 as int]);
        }
        let mut pair: Vec<CaptureTag> = Vec::new();
        pair.push(open_tag);
        pair.push(close_tag);
        (start_outside, end_outside, pair)
    }

    /// Joins the variants of a capture: `current` moves to the start of each,
    /// and the end of each clears the tags of all the others before it moves
    /// on to `target`.
    fn join_variants(
        &mut self,
        Ghost(s0): Ghost<Seq<NfaState>>,
        starts: Vec<NfaIdx>,
        ends: &Vec<NfaIdx>,
        pairs: &Vec<Vec<CaptureTag>>,
        current: NfaIdx,
        target: NfaIdx,
    )
        requires
            states_wf(old(self).states@),
            extends_at(s0, old(self).states@, current.0 as int),
            0 <= current.0 < s0.len(),
            fresh(old(self).states@, current.0 as int),
            target.0 < s0.len(),
            1 <= starts@.len(),
            ends@.len() == starts@.len(),
            pairs@.len() == starts@.len(),
            forall|k: int| 0 <= k < starts@.len() ==> (#[trigger] starts@[k]).0 < old(self).states@.len(),
            forall|k: int|
                0 <= k < ends@.len() ==> s0.len() <= (#[trigger] ends@[k]).0 && fresh(old(self).states@, ends@[k].0 as int),
            forall|a: int, b: int| 0 <= a < b < ends@.len() ==> (#[trigger] ends@[a]).0 < (#[trigger] ends@[b]).0,
            forall|k: int| 0 <= k < pairs@.len() ==> (#[trigger] pairs@[k])@.len() == 2,
            old(self).states@.len() + 2 * starts@.len() * (starts@.len() - 1) <= usize::MAX,
        ensures
            states_wf(final(self).states@),
            final(self).states@.len() <= old(self).states@.len() + 2 * starts@.len() * (starts@.len() - 1),
            extends_at(s0, final(self).states@, current.0 as int),
            final(self).tags@ == old(self).tags@,
            forall|x: int, y: int| reaches(old(self).states@, x, y) ==> #[trigger] reaches(final(self).states@, x, y),
            forall|k: int|
                0 <= k < starts@.len() ==> #[trigger] reaches(final(self).states@, current.0 as int, starts@[k].0 as int),
            forall|k: int| 0 <= k < ends@.len() ==> #[trigger] reaches(final(self).states@, ends@[k].0 as int, target.0 as int),
    {
        let ghost s1 = self.states@;
        let ghost starts_view = starts@;
        let m: usize = starts.len();
        let ghost per: int = 2 * (m - 1);
        proof {
            assert(starts_view.len() * per == 2 * starts_view.len() * (starts_view.len() - 1)) by (nonlinear_arith)
                requires
                    per == 2 * (starts_view.len() - 1),
            ;
            assert forall|k: int| 0 <= k < m implies (#[trigger] starts_view[k]).0 < s1.len() by {}
        }
        self.set_transitions(current, Transitions::Spontaneous(starts));
        let ghost base = self.states@;
        proof {
            lemma_reach_kept_all(s1, base, current.0 as int);
            lemma_extends_trans(s0, s1, base, current.0 as int, current.0 as int);
            assert forall|k: int| 0 <= k < m implies #[trigger] reaches(base, current.0 as int, starts_view[k].0 as int) by {
                assert(base[current.0 as int].transitions.targets()[k] == starts_view[k]);
                lemma_reach_step(base, current.0 as int, starts_view[k].0 as int, k);
            }
            assert forall|k: int| 0 <= k < m implies fresh(base, (#[trigger] ends@[k]).0 as int) by {
                assert(base[ends@[k].0 as int] == s1[ends@[k].0 as int]);
            }
        }
        let mut i: usize = 0;
        while i < m
            invariant
                m == starts_view.len(),
                m == ends@.len(),
                m == pairs@.len(),
                per == 2 * (m - 1),
                0 <= i <= m,
                0 <= current.0 < s0.len(),
                target.0 < s0.len(),
                states_wf(self.states@),
                base.len() == s1.len(),
                s1.len() + m * per <= usize::MAX,
                self.states@.len() <= base.len() + i * per,
                extends_at(s0, self.states@, current.0 as int),
                self.tags@ == old(self).tags@,
                forall|k: int|
                    i <= k < m ==> s0.len() <= (#[trigger] ends@[k]).0 < base.len() && fresh(self.states@, ends@[k].0 as int),
                forall|a: int, b: int| 0 <= a < b < m ==> (#[trigger] ends@[a]).0 < (#[trigger] ends@[b]).0,
                forall|k: int| 0 <= k < m ==> (#[trigger] pairs@[k])@.len() == 2,
                forall|x: int, y: int| reaches(s1, x, y) ==> #[trigger] reaches(self.states@, x, y),
                forall|k: int| 0 <= k < m ==> #[trigger] reaches(self.states@, current.0 as int, starts_view[k].0 as int),
                forall|k: int| 0 <= k < i ==> #[trigger] reaches(self.states@, ends@[k].0 as int, target.0 as int),
            decreases m - i,
        {
            proof {
                lemma_mul_step(i as int, per, m as int);
            }
            let ghost si = self.states@;
            let end_i: NfaIdx = ends[i];
            let mut sub_current: NfaIdx = end_i;
            let mut j: usize = 0;
            let ghost mut added: int = 0;
            proof {
                lemma_reach_self(si, end_i.0 as int);
            }
            while j < m
                invariant
                    m == pairs@.len(),
                    per == 2 * (m - 1),
                    0 <= i < m,
                    0 <= j <= m,
                    added == 2 * (j - (if j > i { 1int } else { 0int })),
                    si.len() + per <= usize::MAX,
                    end_i == ends@[i as int],
                    s0.len() <= end_i.0 < si.len(),
                    states_wf(self.states@),
                    self.states@.len() == si.len() + added,
                    extends_at(si, self.states@, end_i.0 as int),
                    fresh(self.states@, sub_current.0 as int),
                    sub_current == end_i || sub_current.0 >= si.len(),
                    forall|k: int| 0 <= k < m ==> (#[trigger] pairs@[k])@.len() == 2,
                    self.tags@ == old(self).tags@,
                    reaches(self.states@, end_i.0 as int, sub_current.0 as int),
                    forall|x: int, y: int| reaches(si, x, y) ==> #[trigger] reaches(self.states@, x, y),
                decreases m - j,
            {
                if j != i {
                    let ghost sj = self.states@;
                    let ghost previous = sub_current;
                    sub_current = self.negative_tags(&pairs[j], sub_current);
                    proof {
                        lemma_extends_trans(si, sj, self.states@, end_i.0 as int, previous.0 as int);
                        lemma_reach_kept_all(sj, self.states@, previous.0 as int);
                        lemma_reach_trans(self.states@, end_i.0 as int, previous.0 as int, sub_current.0 as int);
                        added = added + 2;
                    }
                }
                j = j + 1;
            }
            let ghost sk = self.states@;
            self.set_transitions(sub_current, jump(target));
            proof {
                let f = self.states@;
                lemma_reach_kept_all(sk, f, sub_current.0 as int);
                lemma_reach_step(f, sub_current.0 as int, target.0 as int, 0);
                lemma_reach_trans(f, end_i.0 as int, sub_current.0 as int, target.0 as int);
                lemma_extends_trans(si, sk, f, end_i.0 as int, sub_current.0 as int);
                lemma_extends_trans(s0, si, f, current.0 as int, end_i.0 as int);
                lemma_reach_kept_all(si, f, end_i.0 as int);
                assert forall|k: int| i + 1 <= k < m implies fresh(f, (#[trigger] ends@[k]).0 as int) by {
                    assert(ends@[i as int].0 < ends@[k].0);
                    assert(f[ends@[k].0 as int] == si[ends@[k].0 as int]);
                }
                assert forall|k: int| 0 <= k < i + 1 implies #[trigger] reaches(f, ends@[k].0 as int, target.0 as int) by {
                    if k < i {
                        assert(reaches(si, ends@[k].0 as int, target.0 as int));
                    }
                }
                assert forall|k: int| 0 <= k < m implies #[trigger] reaches(f, current.0 as int, starts_view[k].0 as int) by {
                    assert(reaches(si, current.0 as int, starts_view[k].0 as int));
                }
                assert forall|x: int, y: int| reaches(s1, x, y) implies #[trigger] reaches(f, x, y) by {
                    assert(reaches(si, x, y));
                }
            }
            i = i + 1;
        }
    }
}

/// What the construction of a part needs: a valid automaton, a fresh state
/// to start from, a target state, and room for `extra` more states.
pub open spec fn build_pre(states: Seq<NfaState>, current: NfaIdx, target: NfaIdx, extra: nat) -> bool {
    &&& states_wf(states)
    &&& fresh(states, current.0 as int)
    &&& target.0 < states.len()
    &&& states.len() + extra <= usize::MAX
}

/// What the construction of a part keeps: a valid automaton, changed only at
/// `current` and by at most `extra` appended states.
pub open spec fn build_post(before: Seq<NfaState>, after: Seq<NfaState>, current: NfaIdx, extra: nat) -> bool {
    &&& states_wf(after)
    &&& after.len() <= before.len() + extra
    &&& extends_at(before, after, current.0 as int)
}

impl Tnfa {
    /// The variant of a capture without an encoding, on new states: an
    /// opening tagged move, the construction of the capture's pattern, and a
    /// closing tagged move. Gives the first and the last state, the two tags,
    /// and the tags of the captures inside.
    fn plain_variant(&mut self, rule_idx: RuleIdx, encodings: &Vec<Encoding>, sub_rule: &SubRule) -> (r: (
        NfaIdx,
        NfaIdx,
        Vec<CaptureTag>,
        Vec<CaptureTag>,
    ))
        requires
            states_wf(old(self).states@),
            old(self).states@.len() + 4 + build_cost(sub_rule.regex, encodings@) <= usize::MAX,
            sub_rule.regex.wf(),
            encodings@.len() > 0 ==> leaves_tagless(sub_rule.regex),
            encodings_ok(encodings@),
        ensures
            states_wf(final(self).states@),
            final(self).states@.len() <= old(self).states@.len() + 4 + build_cost(sub_rule.regex, encodings@),
            extends_at(old(self).states@, final(self).states@, -1),
            old(self).states@.len() <= r.0.0 < final(self).states@.len(),
            old(self).states@.len() <= r.1.0,
            fresh(final(self).states@, r.1.0 as int),
            can_match(sub_rule.regex) ==> reaches(final(self).states@, r.0.0 as int, r.1.0 as int),
            r.2@.len() == 2,
            forall|x: CaptureTag|
                #[trigger] has_same_tag(r.2@, x) <==> (x.rule_idx == rule_idx && same_sub_rule(*sub_rule, x.sub_rule)
                    && x.maybe_encoding is None),
            tags_distinct(r.3@),
            r.3@.len() <= tag_bound(sub_rule.regex, encodings@.len()),
            encodings@.len() == 0 ==> tags_exact(r.3@, sub_rule.regex, rule_idx),
            final(self).tags@ == old(self).tags@,
        decreases sub_rule, 1nat,
    {
        let ghost s0 = self.states@;
        let start_outside: NfaIdx = self.new_state();
        let ghost s1 = self.states@;
        let start_inside: NfaIdx = self.new_state();
        let ghost s2 = self.states@;
        let end_inside: NfaIdx = self.new_state();
        let ghost s3 = self.states@;
        let end_outside: NfaIdx = self.new_state();
        let ghost s4 = self.states@;
        proof {
            lemma_extends_fresh(s0, s1, s2, -1);
            lemma_extends_fresh(s0, s2, s3, -1);
            lemma_extends_fresh(s0, s3, s4, -1);
            assert(s4[start_inside.0 as int] == s2[start_inside.0 as int]) by {
                assert(s4[start_inside.0 as int] == s3[start_inside.0 as int]);
            }
            assert(s4[end_inside.0 as int] == s3[end_inside.0 as int]);
        }
        let open_tag: CaptureTag = CaptureTag {
            rule_idx,
            sub_rule: sub_rule.deep_copy(),
            maybe_encoding: None,
            is_close: false,
        };
        let close_tag: CaptureTag = CaptureTag {
            rule_idx,
            sub_rule: sub_rule.deep_copy(),
            maybe_encoding: None,
            is_close: true,
        };
        let opening: Transitions = Transitions::Tagged { tag: open_tag.deep_copy(), positive: true, target: start_inside };
        assert(opening.targets() =~= seq![start_inside]);
        self.set_transitions(start_outside, opening);
        let ghost s5 = self.states@;
        proof {
            lemma_extends_fresh(s0, s4, s5, start_outside.0 as int);
            assert(s5[start_inside.0 as int] == s4[start_inside.0 as int]);
            assert(s5[end_inside.0 as int] == s4[end_inside.0 as int]);
            assert(s5[end_outside.0 as int] == s4[end_outside.0 as int]);
            lemma_reach_step(s5, start_outside.0 as int, start_inside.0 as int, 0);
        }
        let inner: Vec<CaptureTag> = self.build_regex_nfa(rule_idx, encodings, &sub_rule.regex, start_inside, end_inside);
        let ghost s6 = self.states@;
        proof {
            lemma_extends_fresh(s0, s5, s6, start_inside.0 as int);
            assert(s6[end_inside.0 as int] == s5[end_inside.0 as int]);
            assert(s6[end_outside.0 as int] == s5[end_outside.0 as int]);
            lemma_reach_kept(s5, s6, start_inside.0 as int, start_outside.0 as int, start_inside.0 as int);
        }
        let closing: Transitions = Transitions::Tagged { tag: close_tag.deep_copy(), positive: true, target: end_outside };
        assert(closing.targets() =~= seq![end_outside]);
        self.set_transitions(end_inside, closing);
        proof {
            let f = self.states@;
            lemma_extends_fresh(s0, s6, f, end_inside.0 as int);
            assert(f[end_outside.0 as int] == s6[end_outside.0 as int]);
            lemma_reach_kept(s6, f, end_inside.0 as int, start_outside.0 as int, start_inside.0 as int);
            lemma_reach_step(f, end_inside.0 as int, end_outside.0 as int, 0);
            if can_match(sub_rule.regex) {
                lemma_reach_kept(s6, f, end_inside.0 as int, start_inside.0 as int, end_inside.0 as int);
                lemma_reach_trans(f, start_outside.0 as int, start_inside.0 as int, end_inside.0 as int);
                lemma_reach_trans(f, start_outside.0 as int, end_inside.0 as int, end_outside.0 as int);
            }
        }
        let mut pair: Vec<CaptureTag> = Vec::new();
        pair.push(open_tag);
        pair.push(close_tag);
        proof {
            lemma_pair_tags(pair@, *sub_rule, rule_idx);
        }
        (start_outside, end_outside, pair, inner)
    }

    /// The part for a capture: a variant for each encoding that the
    /// capture's pattern has a value in common with (for a capture without
    /// captures inside), and one without an encoding; each variant opens and
    /// closes the capture with tagged moves, and leaving it clears the tags
    /// of the other variants.
    fn capture(
        &mut self,
        rule_idx: RuleIdx,
        encodings: &Vec<Encoding>,
        sub_rule: &SubRule, current: NfaIdx, target: NfaIdx) -> (tags: Vec<
        CaptureTag,
    >)
        requires
            build_pre(old(self).states@, current, target, capture_cost(*sub_rule, encodings@)),
            sub_rule.regex.wf(),
            encodings@.len() > 0 ==> leaves_tagless(sub_rule.regex) && (sub_rule.descendents == 0 ==> tag_bound(
                sub_rule.regex,
                0,
            ) == 0),
            encodings_ok(encodings@),
        ensures
            build_post(old(self).states@, final(self).states@, current, capture_cost(*sub_rule, encodings@)),
            final(self).tags@ == old(self).tags@,
            tags_distinct(tags@),
            tags@.len() <= 2 * (encodings@.len() + 1) + tag_bound(sub_rule.regex, encodings@.len()),
            can_match(sub_rule.regex) ==> reaches(final(self).states@, current.0 as int, target.0 as int),
            encodings@.len() == 0 ==> forall|x: CaptureTag|
                #[trigger] has_same_tag(tags@, x) <==> ((x.rule_idx == rule_idx && same_sub_rule(*sub_rule, x.sub_rule)
                    && x.maybe_encoding is None) || capture_tag_of(sub_rule.regex, rule_idx, x)),
        decreases sub_rule, 2nat,
    {
        let ghost s0 = self.states@;
        let ghost e: int = encodings@.len() as int;
        let ghost leaf_cost: nat = 2 + build_cost(sub_rule.regex, Seq::empty());
        let ghost spliced: nat = if sub_rule.descendents == 0 {
            splice_cost(encodings@, leaf_cost)
        } else {
            0
        };
        let ghost joins: int = 2 * (e + 1) * e;
        proof {
            assert(0 <= joins) by (nonlinear_arith)
                requires
                    joins == 2 * (e + 1) * e,
                    0 <= e,
            ;
            assert(capture_cost(*sub_rule, encodings@) == 4 + build_cost(sub_rule.regex, encodings@) + spliced + joins);
        }
        let mut starts: Vec<NfaIdx> = Vec::new();
        let mut ends: Vec<NfaIdx> = Vec::new();
        let mut pairs: Vec<Vec<CaptureTag>> = Vec::new();
        let mut tags: Vec<CaptureTag> = Vec::new();
        if sub_rule.descendents == 0 && encodings.len() > 0 {
            proof {
                lemma_splice_step(encodings@, leaf_cost, 0);
                lemma_splice_mono(encodings@, leaf_cost, 1);
                let n0 = encodings@[0].nfa.states@.len();
                assert(leaf_cost <= leaf_cost * n0) by (nonlinear_arith)
                    requires
                        1 <= n0,
                ;
            }
            let leaf: Tnfa = Tnfa::for_regex(&sub_rule.regex);
            let mut k: usize = 0;
            while k < encodings.len()
                invariant
                    0 <= k <= encodings@.len(),
                    e == encodings@.len(),
                    spliced == splice_cost(encodings@, leaf_cost),
                    encodings_ok(encodings@),
                    leaf.wf(),
                    leaf.states@.len() <= leaf_cost,
                    forall|q: int| 0 <= q < leaf.states@.len() ==> !((#[trigger] leaf.states@[q]).transitions is Tagged),
                    s0.len() + 4 + build_cost(sub_rule.regex, encodings@) + spliced + joins <= usize::MAX,
                    0 <= joins,
                    0 <= current.0 < s0.len(),
                    states_wf(self.states@),
                    self.states@.len() <= s0.len() + splice_cost(encodings@.subrange(0, k as int), leaf_cost),
                    extends_at(s0, self.states@, current.0 as int),
                    self.states@[current.0 as int] == s0[current.0 as int],
                    self.tags@ == old(self).tags@,
                    starts@.len() == ends@.len(),
                    pairs@.len() == ends@.len(),
                    ends@.len() <= k,
                    forall|q: int| 0 <= q < starts@.len() ==> (#[trigger] starts@[q]).0 < self.states@.len(),
                    forall|q: int|
                        0 <= q < ends@.len() ==> s0.len() <= (#[trigger] ends@[q]).0 && fresh(self.states@, ends@[q].0 as int),
                    forall|a: int, b: int| 0 <= a < b < ends@.len() ==> (#[trigger] ends@[a]).0 < (#[trigger] ends@[b]).0,
                    forall|q: int| 0 <= q < pairs@.len() ==> (#[trigger] pairs@[q])@.len() == 2,
                    tags_distinct(tags@),
                    tags@.len() <= 2 * ends@.len(),
                decreases encodings@.len() - k,
            {
                let ghost ek = encodings@[k as int].nfa.states@.len();
                proof {
                    lemma_splice_step(encodings@, leaf_cost, k as int);
                    lemma_splice_mono(encodings@, leaf_cost, k + 1);
                    assert(leaf.states@.len() * ek <= leaf_cost * ek) by (nonlinear_arith)
                        requires
                            leaf.states@.len() <= leaf_cost,
                    ;
                }
                let part: Tnfa = leaf.intersect(&encodings[k].nfa);
                if part.can_accept() {
                    let ghost s1 = self.states@;
                    let (start, end, pair) = self.encoded_variant(rule_idx, sub_rule, encodings[k].idx, &part);
                    proof {
                        let f = self.states@;
                        lemma_extends_trans(s0, s1, f, current.0 as int, -1);
                        assert forall|q: int| 0 <= q < ends@.len() implies fresh(f, (#[trigger] ends@[q]).0 as int) by {
                            assert(f[ends@[q].0 as int] == s1[ends@[q].0 as int]);
                        }
                    }
                    starts.push(start);
                    ends.push(end);
                    add_tags(&mut tags, &pair);
                    pairs.push(pair);
                }
                k = k + 1;
            }
            proof {
                assert(encodings@.subrange(0, e) =~= encodings@);
            }
        }
        let ghost s2 = self.states@;
        let (start, end, pair, inner) = self.plain_variant(rule_idx, encodings, sub_rule);
        let ghost s3 = self.states@;
        proof {
            lemma_extends_trans(s0, s2, s3, current.0 as int, -1);
            lemma_reach_kept_all(s2, s3, -1);
            assert forall|q: int| 0 <= q < ends@.len() implies fresh(s3, (#[trigger] ends@[q]).0 as int) by {
                assert(s3[ends@[q].0 as int] == s2[ends@[q].0 as int]);
            }
        }
        let ghost before_tags = tags@;
        starts.push(start);
        ends.push(end);
        add_tags(&mut tags, &inner);
        let ghost with_inner = tags@;
        let ghost pair_view = pair@;
        add_tags(&mut tags, &pair);
        pairs.push(pair);
        let ghost m: int = starts@.len() as int;
        proof {
            assert(m <= e + 1);
            assert(sub_rule.descendents != 0 || e == 0 ==> m == 1);
            assert(2 * m * (m - 1) <= joins) by (nonlinear_arith)
                requires
                    1 <= m <= e + 1,
                    joins == 2 * (e + 1) * e,
            ;
            assert(s3[current.0 as int] == s0[current.0 as int]);
        }
        let ghost starts_view = starts@;
        self.join_variants(Ghost(s0), starts, &ends, &pairs, current, target);
        proof {
            let f = self.states@;
            assert(starts_view[m - 1] == start && ends@[m - 1] == end);
            assert(reaches(f, current.0 as int, starts_view[m - 1].0 as int));
            assert(reaches(f, ends@[m - 1].0 as int, target.0 as int));
            if can_match(sub_rule.regex) {
                assert(reaches(f, start.0 as int, end.0 as int));
                assert(reaches(f, current.0 as int, start.0 as int));
                assert(reaches(f, end.0 as int, target.0 as int));
                lemma_reach_trans(f, current.0 as int, start.0 as int, end.0 as int);
                lemma_reach_trans(f, current.0 as int, end.0 as int, target.0 as int);
            }
            if e == 0 {
                assert(before_tags.len() == 0);
                assert forall|x: CaptureTag|
                    #[trigger] has_same_tag(tags@, x) <==> ((x.rule_idx == rule_idx && same_sub_rule(*sub_rule, x.sub_rule)
                        && x.maybe_encoding is None) || capture_tag_of(sub_rule.regex, rule_idx, x)) by {
                    assert(has_same_tag(inner@, x) <==> capture_tag_of(sub_rule.regex, rule_idx, x));
                    assert(!has_same_tag(before_tags, x));
                    assert(has_same_tag(with_inner, x) <==> has_same_tag(inner@, x));
                    assert(has_same_tag(pair_view, x) <==> (x.rule_idx == rule_idx && same_sub_rule(*sub_rule, x.sub_rule)
                        && x.maybe_encoding is None));
                    assert(has_same_tag(tags@, x) <==> (has_same_tag(with_inner, x) || has_same_tag(pair_view, x)));
                }
            }
        }
        tags
    }

    /// The part for zero or more repetitions of `item`: into the item or past
    /// it (clearing the item's tags), and from the item's end back into it or
    /// out.
    fn kleene(
        &mut self,
        rule_idx: RuleIdx,
        encodings: &Vec<Encoding>,
        item: &Regex, current: NfaIdx, target: NfaIdx) -> (tags: Vec<
        CaptureTag,
    >)
        requires
            build_pre(old(self).states@, current, target, 3 + build_cost(*item, encodings@) + tag_bound(*item, encodings@.len())),
            item.wf(),
            encodings@.len() > 0 ==> leaves_tagless(*item),
            encodings_ok(encodings@),
        ensures
            build_post(old(self).states@, final(self).states@, current, 3 + build_cost(*item, encodings@) + tag_bound(*item, encodings@.len())),
            final(self).tags@ == old(self).tags@,
            tags_distinct(tags@),
            tags@.len() <= tag_bound(*item, encodings@.len()),
            tag_bound(*item, encodings@.len()) == 0 ==> untagged_from(old(self).states@, final(self).states@, current.0 as int),
            reaches(final(self).states@, current.0 as int, target.0 as int),
            encodings@.len() == 0 ==> tags_exact(tags@, *item, rule_idx),
            is_leaf(*item) ==> exists|st: int, en: int, sk: int|
                #[trigger] loop_layout(final(self).states@, *item, current.0 as int, st, en, sk, target.0 as int),
        decreases item, 2nat,
    {
        let ghost s0 = self.states@;
        let ghost quiet = tag_bound(*item, encodings@.len()) == 0;
        let item_start: NfaIdx = self.new_state();
        let ghost s1 = self.states@;
        proof {
            assert(s1[current.0 as int] == s0[current.0 as int]);
        }
        let item_end: NfaIdx = self.new_state();
        let ghost s2 = self.states@;
        let item_skip: NfaIdx = self.new_state();
        let ghost s3 = self.states@;
        proof {
            lemma_extends_trans(s0, s1, s2, current.0 as int, -1);
            if quiet {
                lemma_untagged_trans(s0, s1, s2, current.0 as int, -1);
            }
            lemma_extends_trans(s0, s2, s3, current.0 as int, -1);
            if quiet {
                lemma_untagged_trans(s0, s2, s3, current.0 as int, -1);
            }
            assert(s3[item_start.0 as int] == s2[item_start.0 as int]);
            assert(s2[item_start.0 as int] == s1[item_start.0 as int]);
            assert(s3[item_end.0 as int] == s2[item_end.0 as int]);
        }
        self.set_transitions(current, fork(item_start, item_skip));
        let ghost s4 = self.states@;
        proof {
            lemma_extends_trans(s0, s3, s4, current.0 as int, current.0 as int);
            if quiet {
                lemma_untagged_trans(s0, s3, s4, current.0 as int, current.0 as int);
            }
            assert(s4[item_start.0 as int] == s3[item_start.0 as int]);
            assert(s4[item_end.0 as int] == s3[item_end.0 as int]);
            assert(s4[item_skip.0 as int] == s3[item_skip.0 as int]);
            lemma_reach_step(s4, current.0 as int, item_skip.0 as int, 1);
        }
        let tags: Vec<CaptureTag> = self.build_regex_nfa(rule_idx, encodings, item, item_start, item_end);
        let ghost s5 = self.states@;
        proof {
            lemma_extends_trans(s0, s4, s5, current.0 as int, item_start.0 as int);
            if quiet {
                lemma_untagged_trans(s0, s4, s5, current.0 as int, item_start.0 as int);
            }
            assert(s5[item_skip.0 as int] == s4[item_skip.0 as int]);
            assert(s5[item_end.0 as int] == s4[item_end.0 as int]);
            lemma_reach_kept(s4, s5, item_start.0 as int, current.0 as int, item_skip.0 as int);
        }
        self.set_transitions(item_end, fork(item_start, target));
        let ghost s6 = self.states@;
        proof {
            lemma_reach_kept(s5, s6, item_end.0 as int, current.0 as int, item_skip.0 as int);
            lemma_extends_trans(s0, s5, s6, current.0 as int, item_end.0 as int);
            if quiet {
                lemma_untagged_trans(s0, s5, s6, current.0 as int, item_end.0 as int);
            }
            assert(s6[item_skip.0 as int] == s5[item_skip.0 as int]);
        }
        let after: NfaIdx = self.negative_tags(&tags, item_skip);
        let ghost s7 = self.states@;
        proof {
            assert(s6[item_skip.0 as int].transitions.targets().len() == 0);
        }
        proof {
            lemma_extends_trans(s0, s6, s7, current.0 as int, item_skip.0 as int);
            if quiet {
                lemma_untagged_trans(s0, s6, s7, current.0 as int, item_skip.0 as int);
            }
            lemma_reach_kept(s6, s7, item_skip.0 as int, current.0 as int, item_skip.0 as int);
        }
        self.set_transitions(after, jump(target));
        proof {
            lemma_extends_trans(s0, s7, self.states@, current.0 as int, after.0 as int);
            if quiet {
                lemma_untagged_trans(s0, s7, self.states@, current.0 as int, after.0 as int);
            }
            let f = self.states@;
            lemma_reach_kept(s7, f, after.0 as int, current.0 as int, item_skip.0 as int);
            lemma_reach_kept(s7, f, after.0 as int, item_skip.0 as int, after.0 as int);
            lemma_reach_step(f, after.0 as int, target.0 as int, 0);
            lemma_reach_trans(f, current.0 as int, item_skip.0 as int, after.0 as int);
            lemma_reach_trans(f, current.0 as int, after.0 as int, target.0 as int);
            if is_leaf(*item) {
                assert(tags@.len() == 0);
                assert(s7 == s6 && after == item_skip);
                let c = current.0 as int;
                let st = item_start.0 as int;
                let en = item_end.0 as int;
                let sk = item_skip.0 as int;
                assert(f[c] == s7[c]);
                assert(s6[c] == s5[c]);
                assert(s5[c] == s4[c]);
                assert(f[st] == s7[st]);
                assert(s6[st] == s5[st]);
                assert(f[en] == s7[en]);
                assert(loop_layout(f, *item, c, st, en, sk, target.0 as int));
            }
        }
        tags
    }
}

impl Tnfa {
    /// The part for `regex` from `current` to `target`: the standard
    /// construction, with tagged moves around captures. `current` must be a
    /// state without transitions; the tags of the captures are returned.
    pub(crate) fn build_regex_nfa(
        &mut self,
        rule_idx: RuleIdx,
        encodings: &Vec<Encoding>,
        regex: &Regex,
        current: NfaIdx,
        target: NfaIdx,
    ) -> (tags: Vec<CaptureTag>)
        requires
            build_pre(old(self).states@, current, target, build_cost(*regex, encodings@)),
            regex.wf(),
            encodings@.len() > 0 ==> leaves_tagless(*regex),
            encodings_ok(encodings@),
        ensures
            build_post(old(self).states@, final(self).states@, current, build_cost(*regex, encodings@)),
            final(self).tags@ == old(self).tags@,
            tags_distinct(tags@),
            tags@.len() <= tag_bound(*regex, encodings@.len()),
            tag_bound(*regex, encodings@.len()) == 0 ==> untagged_from(old(self).states@, final(self).states@, current.0 as int),
            can_match(*regex) ==> reaches(final(self).states@, current.0 as int, target.0 as int),
            encodings@.len() == 0 ==> tags_exact(tags@, *regex, rule_idx),
            is_leaf(*regex) ==> leaf_moves(final(self).states@[current.0 as int].transitions, *regex, target),
            is_chain(*regex) ==> exists|path: Seq<int>|
                #[trigger] chain_between(
                    final(self).states@,
                    regex->Sequence_0@,
                    path,
                    current.0 as int,
                    target.0 as int,
                    old(self).states@.len() as int,
                ),
            is_leaf_plus(*regex) ==> exists|m: int, st: int, en: int, sk: int|
                #[trigger] loop_layout(final(self).states@, *regex->KleenePlus_0, m, st, en, sk, target.0 as int)
                    && leaf_moves(final(self).states@[current.0 as int].transitions, *regex->KleenePlus_0, NfaIdx(m as usize))
                    && m >= old(self).states@.len(),
            is_leaf_star(*regex) ==> exists|st: int, en: int, sk: int|
                #[trigger] loop_layout(
                    final(self).states@,
                    *regex->KleeneClosure_0,
                    current.0 as int,
                    st,
                    en,
                    sk,
                    target.0 as int,
                ),
            is_leaf_bounded(*regex) ==> exists|p: Seq<int>, h: Seq<int>, k: Seq<int>|
                #[trigger] ladder_layout(
                    final(self).states@,
                    *regex->BoundedRepetition_item,
                    regex->BoundedRepetition_min as int,
                    regex->BoundedRepetition_max as int,
                    p,
                    h,
                    k,
                    target.0 as int,
                    old(self).states@.len() as int,
                ) && p[0] == current.0,
        decreases regex, 1nat,
    {
        let ghost s0 = self.states@;
        let ghost quiet = tag_bound(*regex, encodings@.len()) == 0;
        match regex {
            Regex::AnyChar => {
                let tree: IntervalTree<u32, NfaIdx> = single_interval(0, 0x10FFFF, target);
                proof {
                    lemma_all_to_below(tree, target, s0.len() as int);
                }
                self.set_transitions(current, Transitions::Interval(tree));
                proof {
                    assert(value_at(tree.entries_view(), 0) == Some(target));
                    lemma_reach_tree(self.states@, current.0 as int, tree, target, 0);
                }
                Vec::new()
            },
            Regex::Literal(c) => {
                let code: u32 = char_code(*c);
                let tree: IntervalTree<u32, NfaIdx> = single_interval(code, code, target);
                proof {
                    lemma_all_to_below(tree, target, s0.len() as int);
                }
                self.set_transitions(current, Transitions::Interval(tree));
                proof {
                    assert(value_at(tree.entries_view(), code as int) == Some(target));
                    lemma_reach_tree(self.states@, current.0 as int, tree, target, code as int);
                }
                Vec::new()
            },
            Regex::Capture(sub_rule) => {
                proof {
                    assert(build_cost(*regex, encodings@) == capture_cost(**sub_rule, encodings@));
                    assert(capture_cost(**sub_rule, encodings@) >= 4 + build_cost(sub_rule.regex, encodings@));
                }
                self.capture(rule_idx, encodings, sub_rule, current, target)
            },
            Regex::BracketedRanges { negated, items } => {
                let tree: IntervalTree<u32, NfaIdx> = class_tree(*negated, items, target);
                proof {
                    lemma_all_to_below(tree, target, s0.len() as int);
                }
                self.set_transitions(current, Transitions::Interval(tree));
                proof {
                    if can_match(*regex) {
                        let p = choose|p: int| 0 <= p <= 0x10FFFF && #[trigger] class_has(items@, p) != *negated;
                        assert(value_at(tree.entries_view(), p) == Some(target));
                        lemma_reach_tree(self.states@, current.0 as int, tree, target, p);
                    }
                }
                Vec::new()
            },
            Regex::KleeneClosure(item) => self.kleene(rule_idx, encodings, item, current, target),
            Regex::KleenePlus(item) => {
                let middle: NfaIdx = self.new_state();
                let ghost s1 = self.states@;
                proof {
                    assert(s1[current.0 as int] == s0[current.0 as int]);
                }
                let first: Vec<CaptureTag> = self.build_regex_nfa(rule_idx, encodings, item, current, middle);
                let ghost s2 = self.states@;
                proof {
                    lemma_extends_then(s0, s1, s2, current.0 as int);
                    if quiet {
                        lemma_untagged_trans(s0, s1, s2, current.0 as int, current.0 as int);
                    }
                    assert(s2[middle.0 as int] == s1[middle.0 as int]);
                }
                let mut tags: Vec<CaptureTag> = self.kleene(rule_idx, encodings, item, middle, target);
                proof {
                    if can_match(**item) {
                        lemma_reach_kept(s2, self.states@, middle.0 as int, current.0 as int, middle.0 as int);
                        lemma_reach_trans(self.states@, current.0 as int, middle.0 as int, target.0 as int);
                    }
                    lemma_extends_trans(s0, s2, self.states@, current.0 as int, middle.0 as int);
                    if quiet {
                        lemma_untagged_trans(s0, s2, self.states@, current.0 as int, middle.0 as int);
                    }
                }
                proof {
                    if is_leaf(**item) {
                        let f = self.states@;
                        let (st, en, sk) = choose|st: int, en: int, sk: int|
                            #[trigger] loop_layout(f, **item, middle.0 as int, st, en, sk, target.0 as int);
                        assert(f[current.0 as int] == s2[current.0 as int]);
                        assert(loop_layout(f, **item, middle.0 as int, st, en, sk, target.0 as int)
                            && leaf_moves(f[current.0 as int].transitions, **item, NfaIdx(middle.0 as usize))
                            && middle.0 >= s0.len());
                    }
                }
                let ghost kept = tags@;
                add_tags(&mut tags, &first);
                proof {
                    if encodings@.len() == 0 {
                        lemma_tags_union_same(kept, first@, tags@, **item, rule_idx);
                    }
                }
                tags
            },
            Regex::BoundedRepetition { min, max, item } => self.bounded(rule_idx, encodings, *min, *max, item, current, target),
            Regex::Sequence(items) => self.sequence(rule_idx, encodings, items, current, target),
            Regex::Alternation(items) => self.alternate(rule_idx, encodings, items, current, target),
            Regex::Placeholder { item, .. } => self.build_regex_nfa(rule_idx, encodings, item, current, target),
        }
    }

    /// The part for the items one after another.
    fn sequence(
        &mut self,
        rule_idx: RuleIdx,
        encodings: &Vec<Encoding>,
        items: &Vec<Regex>, current: NfaIdx, target: NfaIdx) -> (tags: Vec<
        CaptureTag,
    >)
        requires
            build_pre(old(self).states@, current, target, sequence_cost(items@, encodings@)),
            forall|i: int| 0 <= i < items@.len() ==> (#[trigger] items@[i]).wf(),
            encodings@.len() > 0 ==> forall|i: int| 0 <= i < items@.len() ==> leaves_tagless(#[trigger] items@[i]),
            encodings_ok(encodings@),
        ensures
            build_post(old(self).states@, final(self).states@, current, sequence_cost(items@, encodings@)),
            final(self).tags@ == old(self).tags@,
            tags_distinct(tags@),
            tags@.len() <= tag_bound_of_items(items@, encodings@.len()),
            tag_bound_of_items(items@, encodings@.len()) == 0 ==> untagged_from(old(self).states@, final(self).states@, current.0 as int),
            encodings@.len() == 0 ==> tags_exact_items(tags@, items@, rule_idx),
            (forall|k: int| 0 <= k < items@.len() ==> can_match(#[trigger] items@[k])) ==> reaches(
                final(self).states@,
                current.0 as int,
                target.0 as int,
            ),
            items@.len() >= 1 && (forall|k: int| 0 <= k < items@.len() ==> is_leaf(#[trigger] items@[k]))
                ==> exists|path: Seq<int>|
                #[trigger] chain_between(
                    final(self).states@,
                    items@,
                    path,
                    current.0 as int,
                    target.0 as int,
                    old(self).states@.len() as int,
                ),
        decreases items, 2nat,
    {
        let ghost s0 = self.states@;
        let ghost quiet = tag_bound_of_items(items@, encodings@.len()) == 0;
        let mut tags: Vec<CaptureTag> = Vec::new();
        let n: usize = items.len();
        if n == 0 {
            self.set_transitions(current, jump(target));
            proof {
                lemma_reach_step(self.states@, current.0 as int, target.0 as int, 0);
            }
            return tags;
        }
        let mut cur: NfaIdx = current;
        let mut i: usize = 0;
        let ghost leaves = forall|k: int| 0 <= k < items@.len() ==> is_leaf(#[trigger] items@[k]);
        let ghost mut path: Seq<int> = seq![current.0 as int];
        proof {
            assert(s0[current.0 as int].transitions.targets().len() == 0);
            lemma_reach_self(s0, current.0 as int);
        }
        while i < n
            invariant
                n == items@.len(),
                0 <= i <= n,
                forall|k: int| 0 <= k < items@.len() ==> (#[trigger] items@[k]).wf(),
                encodings@.len() > 0 ==> forall|k: int| 0 <= k < items@.len() ==> leaves_tagless(#[trigger] items@[k]),
                encodings_ok(encodings@),
                s0.len() + sequence_cost(items@, encodings@) <= usize::MAX,
                0 <= current.0 < s0.len(),
                target.0 < s0.len(),
                states_wf(self.states@),
                self.states@.len() <= s0.len() + sequence_cost(items@.subrange(0, i as int), encodings@),
                extends_at(s0, self.states@, current.0 as int),
                i < n ==> fresh(self.states@, cur.0 as int),
                i < n ==> (cur == current || cur.0 >= s0.len()),
                self.tags@ == old(self).tags@,
                tags_distinct(tags@),
                tags@.len() <= tag_bound_of_items(items@.subrange(0, i as int), encodings@.len()),
                encodings@.len() == 0 ==> tags_exact_items(tags@, items@.subrange(0, i as int), rule_idx),
                quiet == (tag_bound_of_items(items@, encodings@.len()) == 0),
                quiet ==> untagged_from(s0, self.states@, current.0 as int),
                i == n ==> cur == target,
                (forall|k: int| 0 <= k < i ==> can_match(#[trigger] items@[k])) ==> reaches(
                    self.states@,
                    current.0 as int,
                    cur.0 as int,
                ),
                leaves == (forall|k: int| 0 <= k < items@.len() ==> is_leaf(#[trigger] items@[k])),
                leaves ==> path.len() == i + 1,
                leaves ==> path[0] == current.0,
                leaves ==> path[i as int] == cur.0,
                leaves ==> forall|j: int| 0 < j <= i && j < n ==> #[trigger] path[j] >= s0.len(),
                leaves ==> forall|j: int| 0 <= j <= i ==> 0 <= #[trigger] path[j] < self.states@.len(),
                leaves ==> forall|j: int|
                    0 <= j < i ==> leaf_moves(
                        self.states@[path[j]].transitions,
                        #[trigger] items@[j],
                        NfaIdx(path[j + 1] as usize),
                    ),
                leaves && i < n ==> forall|j: int| 0 <= j < i ==> #[trigger] path[j] != cur.0,
            decreases n - i,
        {
            proof {
                lemma_prefix_step(items@, encodings@, i as int);
                lemma_prefix_mono(items@, encodings@, i + 1, n as int);
                lemma_whole(items@);
            }
            let ghost s1 = self.states@;
            let sub_target: NfaIdx = if i + 1 < n {
                self.new_state()
            } else {
                target
            };
            let ghost s2 = self.states@;
            proof {
                if i + 1 < n {
                    lemma_extends_trans(s0, s1, s2, current.0 as int, -1);
                    if quiet {
                        lemma_untagged_trans(s0, s1, s2, current.0 as int, -1);
                    }
                    assert(s2[cur.0 as int] == s1[cur.0 as int]);
                }
            }
            let ghost prefix_ok = forall|k: int| 0 <= k < i ==> can_match(#[trigger] items@[k]);
            let t: Vec<CaptureTag> = self.build_regex_nfa(rule_idx, encodings, &items[i], cur, sub_target);
            proof {
                if prefix_ok {
                    if i + 1 < n {
                        lemma_reach_kept(s1, s2, -1, current.0 as int, cur.0 as int);
                    }
                    lemma_reach_kept(s2, self.states@, cur.0 as int, current.0 as int, cur.0 as int);
                    if can_match(items@[i as int]) {
                        lemma_reach_trans(self.states@, current.0 as int, cur.0 as int, sub_target.0 as int);
                    }
                }
                assert((forall|k: int| 0 <= k < i + 1 ==> can_match(#[trigger] items@[k])) ==> prefix_ok
                    && can_match(items@[i as int]));
                lemma_extends_trans(s0, s2, self.states@, current.0 as int, cur.0 as int);
                if quiet {
                    lemma_untagged_trans(s0, s2, self.states@, current.0 as int, cur.0 as int);
                }
                if i + 1 < n {
                    assert(self.states@[sub_target.0 as int] == s2[sub_target.0 as int]);
                }
            }
            let ghost before_tags = tags@;
            add_tags(&mut tags, &t);
            proof {
                if encodings@.len() == 0 {
                    lemma_items_tags_step(before_tags, t@, tags@, items@, i as int, rule_idx);
                }
            }
            proof {
                if leaves {
                    let old_path = path;
                    path = path.push(sub_target.0 as int);
                    let s3 = self.states@;
                    assert(old_path[i as int] == cur.0);
                    assert forall|j: int| 0 <= j < i + 1 implies leaf_moves(
                        s3[path[j]].transitions,
                        #[trigger] items@[j],
                        NfaIdx(path[j + 1] as usize),
                    ) by {
                        assert(path[j] == old_path[j]);
                        if j < i {
                            assert(path[j + 1] == old_path[j + 1]);
                            assert(old_path[j] != cur.0);
                            assert(0 <= old_path[j] < s1.len());
                            if i + 1 < n {
                                assert(s2.subrange(0, s1.len() as int)[old_path[j]] == s2[old_path[j]]);
                            }
                            assert(s3[old_path[j]] == s2[old_path[j]]);
                            assert(s2[old_path[j]] == s1[old_path[j]]);
                        } else {
                            assert(j == i);
                            assert(path[j + 1] == sub_target.0);
                        }
                    }
                    assert forall|j: int| 0 <= j <= i + 1 implies 0 <= #[trigger] path[j] < s3.len() by {
                        if j <= i {
                            assert(path[j] == old_path[j]);
                        }
                    }
                    assert forall|j: int| 0 < j <= i + 1 && j < n implies #[trigger] path[j] >= s0.len() by {
                        if j <= i {
                            assert(path[j] == old_path[j]);
                        }
                    }
                    if i + 1 < n {
                        assert forall|j: int| 0 <= j < i + 1 implies #[trigger] path[j] != sub_target.0 by {
                            assert(path[j] == old_path[j]);
                        }
                    }
                }
            }
            cur = sub_target;
            i = i + 1;
        }
        proof {
            lemma_whole(items@);
            if leaves && n >= 1 {
                assert(chain_between(self.states@, items@, path, current.0 as int, target.0 as int, s0.len() as int));
            }
        }
        tags
    }
}

proof fn lemma_mul_step(i: int, c: int, n: int)
    requires
        0 <= i < n,
        0 <= c,
    ensures
        (i + 1) * c == i * c + c,
        (i + 1) * c <= n * c,
        0 <= i * c,
{
    assert((i + 1) * c == i * c + c) by (nonlinear_arith);
    assert((i + 1) * c <= n * c) by (nonlinear_arith)
        requires
            i + 1 <= n,
            0 <= c,
    ;
    assert(0 <= i * c) by (nonlinear_arith)
        requires
            0 <= i,
            0 <= c,
    ;
}

impl Tnfa {
    /// The part for a choice among the items: a move into each, and from the
    /// end of each, a chain clearing the tags of the others, then a move to
    /// `target`.
    fn alternate(
        &mut self,
        rule_idx: RuleIdx,
        encodings: &Vec<Encoding>,
        items: &Vec<Regex>, current: NfaIdx, target: NfaIdx) -> (tags: Vec<
        CaptureTag,
    >)
        requires
            build_pre(
                old(self).states@,
                current,
                target,
                alternation_cost(items@, encodings@) + items@.len() * tag_bound_of_items(items@, encodings@.len()),
            ),
            forall|i: int| 0 <= i < items@.len() ==> (#[trigger] items@[i]).wf(),
            encodings@.len() > 0 ==> forall|i: int| 0 <= i < items@.len() ==> leaves_tagless(#[trigger] items@[i]),
            encodings_ok(encodings@),
        ensures
            build_post(
                old(self).states@,
                final(self).states@,
                current,
                alternation_cost(items@, encodings@) + items@.len() * tag_bound_of_items(items@, encodings@.len()),
            ),
            final(self).tags@ == old(self).tags@,
            tags_distinct(tags@),
            tags@.len() <= tag_bound_of_items(items@, encodings@.len()),
            tag_bound_of_items(items@, encodings@.len()) == 0 ==> untagged_from(old(self).states@, final(self).states@, current.0 as int),
            encodings@.len() == 0 ==> tags_exact_items(tags@, items@, rule_idx),
            (exists|k: int| 0 <= k < items@.len() && can_match(#[trigger] items@[k])) ==> reaches(
                final(self).states@,
                current.0 as int,
                target.0 as int,
            ),
        decreases items, 2nat,
    {
        let ghost s0 = self.states@;
        let ghost tb: int = tag_bound_of_items(items@, encodings@.len()) as int;
        let ghost quiet = tb == 0;
        let n: usize = items.len();
        proof {
            lemma_whole(items@);
            assert(0 <= n * tb) by (nonlinear_arith)
                requires
                    0 <= tb,
            ;
        }
        proof {
            assert(s0[current.0 as int].transitions.targets().len() == 0);
        }
        let mut starts: Vec<NfaIdx> = Vec::new();
        let mut ends: Vec<NfaIdx> = Vec::new();
        let mut branch_tags: Vec<Vec<CaptureTag>> = Vec::new();
        let mut i: usize = 0;
        while i < n
            invariant
                n == items@.len(),
                0 <= i <= n,
                forall|k: int| 0 <= k < items@.len() ==> (#[trigger] items@[k]).wf(),
                encodings@.len() > 0 ==> forall|k: int| 0 <= k < items@.len() ==> leaves_tagless(#[trigger] items@[k]),
                encodings_ok(encodings@),
                s0.len() + alternation_cost(items@, encodings@) + n * tb <= usize::MAX,
                0 <= n * tb,
                tb == tag_bound_of_items(items@, encodings@.len()),
                fresh(s0, current.0 as int),
                target.0 < s0.len(),
                states_wf(self.states@),
                self.states@.len() <= s0.len() + alternation_cost(items@.subrange(0, i as int), encodings@),
                extends_at(s0, self.states@, current.0 as int),
                self.states@[current.0 as int] == s0[current.0 as int],
                self.tags@ == old(self).tags@,
                starts@.len() == i,
                ends@.len() == i,
                branch_tags@.len() == i,
                forall|k: int| 0 <= k < i ==> (#[trigger] starts@[k]).0 < self.states@.len(),
                forall|k: int|
                    0 <= k < i ==> s0.len() <= (#[trigger] ends@[k]).0 && fresh(self.states@, ends@[k].0 as int),
                forall|a: int, b: int| 0 <= a < b < i ==> (#[trigger] ends@[a]).0 < (#[trigger] ends@[b]).0,
                encodings@.len() == 0 ==> forall|k: int| 0 <= k < i ==> tags_exact((#[trigger] branch_tags@[k])@, items@[k], rule_idx),
                forall|k: int|
                    0 <= k < i ==> (#[trigger] branch_tags@[k])@.len() <= tag_bound(items@[k], encodings@.len()) && tags_distinct(
                        branch_tags@[k]@,
                    ),
                quiet == (tb == 0),
                quiet ==> untagged_from(s0, self.states@, current.0 as int),
                forall|k: int|
                    0 <= k < i && can_match(#[trigger] items@[k]) ==> reaches(
                        self.states@,
                        starts@[k].0 as int,
                        ends@[k].0 as int,
                    ),
            decreases n - i,
        {
            proof {
                lemma_prefix_step(items@, encodings@, i as int);
                lemma_prefix_mono(items@, encodings@, i + 1, n as int);
                lemma_whole(items@);
            }
            let ghost s1 = self.states@;
            let sub_start: NfaIdx = self.new_state();
            let ghost s2 = self.states@;
            let sub_target: NfaIdx = self.new_state();
            let ghost s3 = self.states@;
            proof {
                lemma_extends_trans(s0, s1, s2, current.0 as int, -1);
                if quiet {
                    lemma_untagged_trans(s0, s1, s2, current.0 as int, -1);
                }
                lemma_extends_trans(s0, s2, s3, current.0 as int, -1);
                if quiet {
                    lemma_untagged_trans(s0, s2, s3, current.0 as int, -1);
                }
                assert(s3[sub_start.0 as int] == s2[sub_start.0 as int]);
            }
            let t: Vec<CaptureTag> = self.build_regex_nfa(rule_idx, encodings, &items[i], sub_start, sub_target);
            proof {
                lemma_extends_trans(s0, s3, self.states@, current.0 as int, sub_start.0 as int);
                if quiet {
                    lemma_untagged_trans(s0, s3, self.states@, current.0 as int, sub_start.0 as int);
                }
                assert(self.states@[sub_target.0 as int] == s3[sub_target.0 as int]);
                assert forall|k: int| 0 <= k < i implies fresh(self.states@, (#[trigger] ends@[k]).0 as int) by {
                    assert(self.states@[ends@[k].0 as int] == s1[ends@[k].0 as int]);
                }
                lemma_reach_kept_all(s1, s2, -1);
                lemma_reach_kept_all(s2, s3, -1);
                lemma_reach_kept_all(s3, self.states@, sub_start.0 as int);
            }
            let ghost prev_starts = starts@;
            let ghost prev_ends = ends@;
            starts.push(sub_start);
            ends.push(sub_target);
            let ghost prev_tags = branch_tags@;
            branch_tags.push(t);
            proof {
                assert forall|k: int| 0 <= k < i + 1 && encodings@.len() == 0 implies tags_exact(
                    (#[trigger] branch_tags@[k])@,
                    items@[k],
                    rule_idx,
                ) by {
                    if k < i {
                        assert(branch_tags@[k] == prev_tags[k]);
                    }
                }
                assert forall|k: int|
                    0 <= k < i + 1 && can_match(#[trigger] items@[k]) implies reaches(
                    self.states@,
                    starts@[k].0 as int,
                    ends@[k].0 as int,
                ) by {
                    if k < i {
                        assert(starts@[k] == prev_starts[k]);
                        assert(ends@[k] == prev_ends[k]);
                        assert(reaches(s1, starts@[k].0 as int, ends@[k].0 as int));
                    }
                }
            }
            i = i + 1;
        }
        let ghost s4 = self.states@;
        proof {
            assert forall|k: int| 0 <= k < starts@.len() implies (#[trigger] starts@[k]).0 < s4.len() by {}
        }
        let ghost starts_view = starts@;
        self.set_transitions(current, Transitions::Spontaneous(starts));
        let ghost base = self.states@;
        proof {
            lemma_reach_kept_all(s4, base, current.0 as int);
            assert forall|k: int| 0 <= k < n implies #[trigger] reaches(base, current.0 as int, starts_view[k].0 as int) by {
                assert(base[current.0 as int].transitions.targets()[k] == starts_view[k]);
                lemma_reach_step(base, current.0 as int, starts_view[k].0 as int, k);
            }
            assert forall|k: int|
                0 <= k < n && can_match(#[trigger] items@[k]) implies reaches(
                base,
                starts_view[k].0 as int,
                ends@[k].0 as int,
            ) by {
                assert(reaches(s4, starts_view[k].0 as int, ends@[k].0 as int));
            }
            lemma_extends_trans(s0, s4, base, current.0 as int, current.0 as int);
            if quiet {
                lemma_untagged_trans(s0, s4, base, current.0 as int, current.0 as int);
            }
            assert forall|k: int| 0 <= k < n implies fresh(base, (#[trigger] ends@[k]).0 as int) by {
                assert(base[ends@[k].0 as int] == s4[ends@[k].0 as int]);
            }
        }
        let mut tags: Vec<CaptureTag> = Vec::new();
        let mut i: usize = 0;
        while i < n
            invariant
                n == items@.len(),
                0 <= i <= n,
                s0.len() + alternation_cost(items@, encodings@) + n * tb <= usize::MAX,
                tb == tag_bound_of_items(items@, encodings@.len()),
                0 <= current.0 < s0.len(),
                target.0 < s0.len(),
                base.len() <= s0.len() + alternation_cost(items@, encodings@),
                states_wf(self.states@),
                self.states@.len() <= base.len() + i * tb,
                extends_at(s0, self.states@, current.0 as int),
                self.tags@ == old(self).tags@,
                ends@.len() == n,
                branch_tags@.len() == n,
                forall|k: int|
                    i <= k < n ==> s0.len() <= (#[trigger] ends@[k]).0 < base.len() && fresh(
                        self.states@,
                        ends@[k].0 as int,
                    ),
                forall|a: int, b: int| 0 <= a < b < n ==> (#[trigger] ends@[a]).0 < (#[trigger] ends@[b]).0,
                encodings@.len() == 0 ==> forall|k: int| 0 <= k < n ==> tags_exact((#[trigger] branch_tags@[k])@, items@[k], rule_idx),
                encodings@.len() == 0 ==> tags_exact_items(tags@, items@.subrange(0, i as int), rule_idx),
                forall|k: int|
                    0 <= k < n ==> (#[trigger] branch_tags@[k])@.len() <= tag_bound(items@[k], encodings@.len()) && tags_distinct(
                        branch_tags@[k]@,
                    ),
                tags_distinct(tags@),
                tags@.len() <= tag_bound_of_items(items@.subrange(0, i as int), encodings@.len()),
                quiet == (tb == 0),
                quiet ==> untagged_from(s0, self.states@, current.0 as int),
                forall|k: int| 0 <= k < n ==> #[trigger] reaches(self.states@, current.0 as int, starts_view[k].0 as int),
                forall|k: int|
                    0 <= k < n && can_match(#[trigger] items@[k]) ==> reaches(
                        self.states@,
                        starts_view[k].0 as int,
                        ends@[k].0 as int,
                    ),
                forall|k: int| 0 <= k < i ==> #[trigger] reaches(self.states@, ends@[k].0 as int, target.0 as int),
            decreases n - i,
        {
            proof {
                lemma_mul_step(i as int, tb, n as int);
                lemma_prefix_step(items@, encodings@, i as int);
            }
            let ghost si = self.states@;
            let end_i: NfaIdx = ends[i];
            let mut sub_current: NfaIdx = end_i;
            let mut j: usize = 0;
            proof {
                lemma_reach_self(si, end_i.0 as int);
            }
            while j < n
                invariant
                    n == items@.len(),
                    0 <= i < n,
                    0 <= j <= n,
                    s0.len() + alternation_cost(items@, encodings@) + n * tb <= usize::MAX,
                    si.len() + tb <= base.len() + (i + 1) * tb,
                    (i + 1) * tb <= n * tb,
                    tb == tag_bound_of_items(items@, encodings@.len()),
                    base.len() <= s0.len() + alternation_cost(items@, encodings@),
                    end_i == ends@[i as int],
                    s0.len() <= end_i.0 < si.len(),
                    states_wf(self.states@),
                    self.states@.len() <= si.len() + tag_bound_of_items(items@.subrange(0, j as int), encodings@.len()),
                    extends_at(si, self.states@, end_i.0 as int),
                    fresh(self.states@, sub_current.0 as int),
                    sub_current == end_i || sub_current.0 >= si.len(),
                    branch_tags@.len() == n,
                    ends@.len() == n,
                    self.tags@ == old(self).tags@,
                    encodings@.len() == 0 ==> forall|k: int| 0 <= k < n ==> tags_exact((#[trigger] branch_tags@[k])@, items@[k], rule_idx),
                    forall|k: int|
                        0 <= k < n ==> (#[trigger] branch_tags@[k])@.len() <= tag_bound(items@[k], encodings@.len()),
                    quiet == (tb == 0),
                    quiet ==> self.states@ == si && sub_current == end_i,
                    reaches(self.states@, end_i.0 as int, sub_current.0 as int),
                    forall|x: int, y: int| reaches(si, x, y) ==> #[trigger] reaches(self.states@, x, y),
                decreases n - j,
            {
                proof {
                    lemma_prefix_step(items@, encodings@, j as int);
                    lemma_prefix_mono(items@, encodings@, j + 1, n as int);
                    lemma_whole(items@);
                }
                if j != i {
                    let ghost sj = self.states@;
                    let ghost previous = sub_current;
                    sub_current = self.negative_tags(&branch_tags[j], sub_current);
                    proof {
                        lemma_extends_trans(si, sj, self.states@, end_i.0 as int, previous.0 as int);
                        lemma_reach_kept_all(sj, self.states@, previous.0 as int);
                        assert(reaches(self.states@, end_i.0 as int, previous.0 as int));
                        lemma_reach_trans(self.states@, end_i.0 as int, previous.0 as int, sub_current.0 as int);
                    }
                }
                j = j + 1;
            }
            let ghost sk = self.states@;
            self.set_transitions(sub_current, jump(target));
            proof {
                let f = self.states@;
                lemma_reach_kept_all(sk, f, sub_current.0 as int);
                lemma_reach_step(f, sub_current.0 as int, target.0 as int, 0);
                assert(reaches(f, end_i.0 as int, sub_current.0 as int));
                lemma_reach_trans(f, end_i.0 as int, sub_current.0 as int, target.0 as int);
                assert forall|k: int| 0 <= k < n implies #[trigger] reaches(f, current.0 as int, starts_view[k].0 as int) by {
                    assert(reaches(si, current.0 as int, starts_view[k].0 as int));
                    assert(reaches(sk, current.0 as int, starts_view[k].0 as int));
                }
                assert forall|k: int|
                    0 <= k < n && can_match(#[trigger] items@[k]) implies reaches(
                    f,
                    starts_view[k].0 as int,
                    ends@[k].0 as int,
                ) by {
                    assert(reaches(si, starts_view[k].0 as int, ends@[k].0 as int));
                    assert(reaches(sk, starts_view[k].0 as int, ends@[k].0 as int));
                }
                assert forall|k: int| 0 <= k < i + 1 implies #[trigger] reaches(f, ends@[k].0 as int, target.0 as int) by {
                    if k < i {
                        assert(reaches(si, ends@[k].0 as int, target.0 as int));
                        assert(reaches(sk, ends@[k].0 as int, target.0 as int));
                    }
                }
                if quiet {
                    assert(si[end_i.0 as int].transitions.targets().len() == 0);
                    lemma_untagged_trans(s0, si, self.states@, current.0 as int, end_i.0 as int);
                }
                lemma_whole(items@);
                lemma_extends_trans(si, sk, self.states@, end_i.0 as int, sub_current.0 as int);
                lemma_extends_trans(s0, si, self.states@, current.0 as int, end_i.0 as int);
                if quiet {
                    lemma_untagged_trans(s0, si, self.states@, current.0 as int, end_i.0 as int);
                }
                assert forall|k: int| i + 1 <= k < n implies fresh(self.states@, (#[trigger] ends@[k]).0 as int) by {
                    assert(ends@[i as int].0 < ends@[k].0);
                    assert(self.states@[ends@[k].0 as int] == si[ends@[k].0 as int]);
                }
            }
            let ghost kept = tags@;
            add_tags(&mut tags, &branch_tags[i]);
            proof {
                if encodings@.len() == 0 {
                    lemma_items_tags_step(kept, branch_tags@[i as int]@, tags@, items@, i as int, rule_idx);
                }
            }
            i = i + 1;
        }
        proof {
            lemma_whole(items@);
            if exists|k: int| 0 <= k < items@.len() && can_match(#[trigger] items@[k]) {
                let k = choose|k: int| 0 <= k < items@.len() && can_match(#[trigger] items@[k]);
                let f = self.states@;
                assert(reaches(f, current.0 as int, starts_view[k].0 as int));
                assert(reaches(f, starts_view[k].0 as int, ends@[k].0 as int));
                assert(reaches(f, ends@[k].0 as int, target.0 as int));
                lemma_reach_trans(f, current.0 as int, starts_view[k].0 as int, ends@[k].0 as int);
                lemma_reach_trans(f, current.0 as int, ends@[k].0 as int, target.0 as int);
            }
        }
        tags
    }

    /// The part for `min..=max` repetitions of `item`: `min` required copies,
    /// then `max - min` optional ones, each of which may be skipped to
    /// `target` (the first one clearing the tags when nothing is required).
    fn bounded(
        &mut self,
        rule_idx: RuleIdx,
        encodings: &Vec<Encoding>,
        min: u32, max: u32, item: &Regex, current: NfaIdx, target: NfaIdx) -> (tags:
        Vec<CaptureTag>)
        requires
            build_pre(old(self).states@, current, target, (max as nat) * (3 + build_cost(*item, encodings@)) + tag_bound(*item, encodings@.len())),
            0 < max,
            min <= max,
            item.wf(),
            encodings@.len() > 0 ==> leaves_tagless(*item),
            encodings_ok(encodings@),
        ensures
            build_post(
                old(self).states@,
                final(self).states@,
                current,
                (max as nat) * (3 + build_cost(*item, encodings@)) + tag_bound(*item, encodings@.len()),
            ),
            final(self).tags@ == old(self).tags@,
            tags_distinct(tags@),
            tags@.len() <= (max as nat) * tag_bound(*item, encodings@.len()),
            (max as nat) * tag_bound(*item, encodings@.len()) == 0 ==> untagged_from(old(self).states@, final(self).states@, current.0 as int),
            (min == 0 || can_match(*item)) ==> reaches(final(self).states@, current.0 as int, target.0 as int),
            encodings@.len() == 0 ==> tags_exact(tags@, *item, rule_idx),
            is_leaf(*item) ==> exists|p: Seq<int>, h: Seq<int>, k: Seq<int>|
                #[trigger] ladder_layout(
                    final(self).states@,
                    *item,
                    min as int,
                    max as int,
                    p,
                    h,
                    k,
                    target.0 as int,
                    old(self).states@.len() as int,
                ) && p[0] == current.0,
        decreases item, 2nat,
    {
        let ghost s0 = self.states@;
        let ghost c: int = (3 + build_cost(*item, encodings@)) as int;
        let ghost tb: int = tag_bound(*item, encodings@.len()) as int;
        let ghost quiet = tb == 0;
        proof {
            assert(s0[current.0 as int].transitions.targets().len() == 0);
            if max * tb == 0 {
                assert(tb == 0) by (nonlinear_arith)
                    requires
                        max * tb == 0,
                        0 < max,
                        0 <= tb,
                ;
            }
        }
        let mut tags: Vec<CaptureTag> = Vec::new();
        let mut cur: NfaIdx = current;
        let mut i: u32 = 0;
        let ghost lf = is_leaf(*item);
        let ghost mut p: Seq<int> = seq![current.0 as int];
        let ghost mut h: Seq<int> = Seq::empty();
        let ghost mut k: Seq<int> = Seq::empty();
        proof {
            assert(0 * c == 0);
            lemma_reach_self(s0, current.0 as int);
        }
        while i < min
            invariant
                0 <= i <= min <= max,
                c == 3 + build_cost(*item, encodings@),
                tb == tag_bound(*item, encodings@.len()),
                item.wf(),
                encodings@.len() > 0 ==> leaves_tagless(*item),
                encodings_ok(encodings@),
                s0.len() + max * c + tb <= usize::MAX,
                0 <= current.0 < s0.len(),
                target.0 < s0.len(),
                states_wf(self.states@),
                self.states@.len() <= s0.len() + i * c,
                extends_at(s0, self.states@, current.0 as int),
                fresh(self.states@, cur.0 as int),
                cur == current || cur.0 >= s0.len(),
                self.tags@ == old(self).tags@,
                tags_distinct(tags@),
                tags@.len() <= i * tb,
                encodings@.len() == 0 ==> (i > 0 ==> tags_exact(tags@, *item, rule_idx)) && (i == 0 ==> tags@.len() == 0),
                quiet == (tb == 0),
                quiet ==> untagged_from(s0, self.states@, current.0 as int),
                (min == 0 || can_match(*item)) ==> reaches(self.states@, current.0 as int, cur.0 as int),
                lf == is_leaf(*item),
                lf ==> p.len() == i + 1 && h.len() == i && k.len() == i,
                lf ==> p[0] == current.0 && p[i as int] == cur.0,
                lf ==> forall|j: int| 0 <= j <= i ==> 0 <= #[trigger] p[j] < self.states@.len(),
                lf ==> forall|j: int| 0 < j <= i ==> #[trigger] p[j] >= s0.len(),
                lf ==> forall|j: int| 0 <= j < i && j < min ==> #[trigger] ladder_step(self.states@, *item, p, j),
                lf && i > 0 ==> forall|j: int| 0 <= j < i ==> #[trigger] p[j] < cur.0,
                lf ==> tags@.len() == 0,
            decreases min - i,
        {
            proof {
                lemma_mul_step(i as int, c, max as int);
                lemma_mul_step(i as int, tb, max as int);
            }
            let ghost s1 = self.states@;
            let sub_target: NfaIdx = self.new_state();
            let ghost s2 = self.states@;
            proof {
                lemma_extends_trans(s0, s1, s2, current.0 as int, -1);
                if quiet {
                    lemma_untagged_trans(s0, s1, s2, current.0 as int, -1);
                }
                assert(s2[cur.0 as int] == s1[cur.0 as int]);
            }
            let t: Vec<CaptureTag> = self.build_regex_nfa(rule_idx, encodings, item, cur, sub_target);
            proof {
                lemma_reach_kept_all(s1, s2, -1);
                lemma_reach_kept_all(s2, self.states@, cur.0 as int);
                if min == 0 || can_match(*item) {
                    assert(reaches(s2, current.0 as int, cur.0 as int));
                    assert(reaches(self.states@, current.0 as int, cur.0 as int));
                    lemma_reach_trans(self.states@, current.0 as int, cur.0 as int, sub_target.0 as int);
                }
                lemma_extends_trans(s0, s2, self.states@, current.0 as int, cur.0 as int);
                if quiet {
                    lemma_untagged_trans(s0, s2, self.states@, current.0 as int, cur.0 as int);
                }
                assert(self.states@[sub_target.0 as int] == s2[sub_target.0 as int]);
            }
            let ghost kept = tags@;
            add_tags(&mut tags, &t);
            proof {
                if encodings@.len() == 0 {
                    if i > 0 {
                        lemma_tags_union_same(kept, t@, tags@, *item, rule_idx);
                    } else {
                        assert forall|x: CaptureTag| #[trigger] has_same_tag(tags@, x) <==> capture_tag_of(*item, rule_idx, x) by {
                            assert(has_same_tag(t@, x) <==> capture_tag_of(*item, rule_idx, x));
                        }
                    }
                }
            }
            proof {
                if lf {
                    assert(t@.len() == 0);
                    assert(tags@.len() == 0);
                    let old_p = p;
                    p = p.push(sub_target.0 as int);
                    h = h.push(0);
                    k = k.push(0);
                    let s3 = self.states@;
                    assert forall|j: int| 0 <= j < i + 1 && j < min implies #[trigger] ladder_step(s3, *item, p, j) by {
                        assert(p[j] == old_p[j]);
                        if j < i {
                            assert(p[j + 1] == old_p[j + 1]);
                            assert(ladder_step(s1, *item, old_p, j));
                            assert(old_p[j] < cur.0);
                            assert(s2.subrange(0, s1.len() as int)[old_p[j]] == s2[old_p[j]]);
                            assert(s3[old_p[j]] == s2[old_p[j]]);
                        } else {
                            assert(p[j + 1] == sub_target.0);
                        }
                    }
                    assert forall|j: int| 0 <= j <= i + 1 implies 0 <= #[trigger] p[j] < s3.len() by {
                        if j <= i {
                            assert(p[j] == old_p[j]);
                        }
                    }
                    assert forall|j: int| 0 < j <= i + 1 implies #[trigger] p[j] >= s0.len() by {
                        if j <= i {
                            assert(p[j] == old_p[j]);
                        }
                    }
                    assert forall|j: int| 0 <= j < i + 1 implies #[trigger] p[j] < sub_target.0 by {
                        assert(p[j] == old_p[j]);
                    }
                }
            }
            cur = sub_target;
            i = i + 1;
        }
        while i < max
            invariant
                0 <= min <= i <= max,
                c == 3 + build_cost(*item, encodings@),
                tb == tag_bound(*item, encodings@.len()),
                item.wf(),
                encodings@.len() > 0 ==> leaves_tagless(*item),
                encodings_ok(encodings@),
                s0.len() + max * c + tb <= usize::MAX,
                0 <= current.0 < s0.len(),
                target.0 < s0.len(),
                states_wf(self.states@),
                self.states@.len() <= s0.len() + i * c + if i > 0 && min == 0 {
                    tb
                } else {
                    0
                },
                extends_at(s0, self.states@, current.0 as int),
                fresh(self.states@, cur.0 as int),
                cur == current || cur.0 >= s0.len(),
                self.tags@ == old(self).tags@,
                tags_distinct(tags@),
                tags@.len() <= i * tb,
                encodings@.len() == 0 ==> (i > 0 ==> tags_exact(tags@, *item, rule_idx)) && (i == 0 ==> tags@.len() == 0),
                quiet == (tb == 0),
                quiet ==> untagged_from(s0, self.states@, current.0 as int),
                (min == 0 || can_match(*item)) ==> reaches(self.states@, current.0 as int, cur.0 as int) || reaches(
                    self.states@,
                    current.0 as int,
                    target.0 as int,
                ),
                lf == is_leaf(*item),
                lf ==> p.len() == i + 1 && h.len() == i && k.len() == i,
                lf ==> p[0] == current.0 && p[i as int] == cur.0,
                lf ==> forall|j: int| 0 <= j <= i ==> 0 <= #[trigger] p[j] < self.states@.len(),
                lf ==> forall|j: int| 0 < j <= i ==> #[trigger] p[j] >= s0.len(),
                lf ==> forall|j: int| min <= j < i ==> s0.len() <= #[trigger] h[j] < self.states@.len(),
                lf ==> forall|j: int| min <= j < i ==> s0.len() <= #[trigger] k[j] < self.states@.len(),
                lf ==> forall|j: int| 0 <= j < min ==> #[trigger] ladder_step(self.states@, *item, p, j),
                lf ==> forall|j: int|
                    min <= j < i ==> #[trigger] ladder_choice(self.states@, *item, p, h, k, target.0 as int, j),
                lf && i > 0 ==> forall|j: int| 0 <= j < i ==> #[trigger] p[j] < cur.0,
                lf && i > 0 ==> forall|j: int| min <= j < i ==> #[trigger] h[j] < cur.0 && k[j] < cur.0,
                lf ==> tags@.len() == 0,
            decreases max - i,
        {
            proof {
                lemma_mul_step(i as int, c, max as int);
                lemma_mul_step(i as int, tb, max as int);
            }
            let ghost s1 = self.states@;
            let mut sub_skip: NfaIdx = self.new_state();
            let ghost s2 = self.states@;
            let sub_have: NfaIdx = self.new_state();
            let ghost s3 = self.states@;
            let sub_target: NfaIdx = self.new_state();
            let ghost s4 = self.states@;
            proof {
                lemma_extends_trans(s0, s1, s2, current.0 as int, -1);
                if quiet {
                    lemma_untagged_trans(s0, s1, s2, current.0 as int, -1);
                }
                lemma_extends_trans(s0, s2, s3, current.0 as int, -1);
                if quiet {
                    lemma_untagged_trans(s0, s2, s3, current.0 as int, -1);
                }
                lemma_extends_trans(s0, s3, s4, current.0 as int, -1);
                if quiet {
                    lemma_untagged_trans(s0, s3, s4, current.0 as int, -1);
                }
                assert(s4[cur.0 as int] == s1[cur.0 as int]) by {
                    assert(s4[cur.0 as int] == s3[cur.0 as int]);
                    assert(s3[cur.0 as int] == s2[cur.0 as int]);
                }
            }
            self.set_transitions(cur, fork(sub_have, sub_skip));
            let ghost s5 = self.states@;
            proof {
                lemma_reach_kept_all(s1, s2, -1);
                lemma_reach_kept_all(s2, s3, -1);
                lemma_reach_kept_all(s3, s4, -1);
                lemma_reach_kept_all(s4, s5, cur.0 as int);
                lemma_reach_step(s5, cur.0 as int, sub_skip.0 as int, 1);
                lemma_extends_trans(s0, s4, s5, current.0 as int, cur.0 as int);
                if quiet {
                    lemma_untagged_trans(s0, s4, s5, current.0 as int, cur.0 as int);
                }
                assert(s5[sub_have.0 as int] == s3[sub_have.0 as int]) by {
                    assert(s5[sub_have.0 as int] == s4[sub_have.0 as int]);
                }
                assert(s5[sub_skip.0 as int] == s2[sub_skip.0 as int]) by {
                    assert(s5[sub_skip.0 as int] == s4[sub_skip.0 as int]);
                    assert(s4[sub_skip.0 as int] == s3[sub_skip.0 as int]);
                }
            }
            let t: Vec<CaptureTag> = self.build_regex_nfa(rule_idx, encodings, item, sub_have, sub_target);
            let ghost s6 = self.states@;
            proof {
                lemma_reach_kept_all(s5, s6, sub_have.0 as int);
                assert(reaches(s6, cur.0 as int, sub_skip.0 as int));
                lemma_extends_trans(s0, s5, s6, current.0 as int, sub_have.0 as int);
                if quiet {
                    lemma_untagged_trans(s0, s5, s6, current.0 as int, sub_have.0 as int);
                }
                assert(s6[sub_target.0 as int] == s5[sub_target.0 as int]);
                assert(s6[sub_skip.0 as int] == s5[sub_skip.0 as int]);
            }
            let ghost kept = tags@;
            add_tags(&mut tags, &t);
            proof {
                if encodings@.len() == 0 {
                    if i > 0 {
                        lemma_tags_union_same(kept, t@, tags@, *item, rule_idx);
                    } else {
                        assert forall|x: CaptureTag| #[trigger] has_same_tag(tags@, x) <==> capture_tag_of(*item, rule_idx, x) by {
                            assert(has_same_tag(t@, x) <==> capture_tag_of(*item, rule_idx, x));
                        }
                    }
                }
            }
            let ghost old_skip = sub_skip;
            if i == 0 {
                sub_skip = self.negative_tags(&tags, sub_skip);
            }
            let ghost s7 = self.states@;
            proof {
                if quiet {
                    assert(tags@.len() <= (i + 1) * tb) by (nonlinear_arith)
                        requires
                            tags@.len() <= i * tb + tb,
                    ;
                    assert((i + 1) * tb == 0) by (nonlinear_arith)
                        requires
                            tb == 0,
                    ;
                    assert(s6[old_skip.0 as int].transitions.targets().len() == 0);
                }
                if i == 0 {
                    lemma_extends_trans(s0, s6, s7, current.0 as int, old_skip.0 as int);
                    if quiet {
                        lemma_untagged_trans(s0, s6, s7, current.0 as int, old_skip.0 as int);
                    }
                    assert(s7[sub_target.0 as int] == s6[sub_target.0 as int]);
                    lemma_reach_kept_all(s6, s7, old_skip.0 as int);
                    assert(reaches(s7, cur.0 as int, old_skip.0 as int));
                    lemma_reach_trans(s7, cur.0 as int, old_skip.0 as int, sub_skip.0 as int);
                } else {
                    assert(reaches(s7, cur.0 as int, sub_skip.0 as int));
                }
                if reaches(s4, current.0 as int, cur.0 as int) {
                    assert(reaches(s7, current.0 as int, cur.0 as int));
                }
                if reaches(s4, current.0 as int, target.0 as int) {
                    assert(reaches(s7, current.0 as int, target.0 as int));
                }
            }
            let ghost s7b = self.states@;
            self.set_transitions(sub_skip, jump(target));
            proof {
                lemma_reach_kept_all(s7b, self.states@, sub_skip.0 as int);
                lemma_reach_step(self.states@, sub_skip.0 as int, target.0 as int, 0);
                assert(reaches(self.states@, cur.0 as int, sub_skip.0 as int));
                lemma_reach_trans(self.states@, cur.0 as int, sub_skip.0 as int, target.0 as int);
                if reaches(s7b, current.0 as int, cur.0 as int) {
                    assert(reaches(self.states@, current.0 as int, cur.0 as int));
                    lemma_reach_trans(self.states@, current.0 as int, cur.0 as int, target.0 as int);
                }
                if reaches(s7b, current.0 as int, target.0 as int) {
                    assert(reaches(self.states@, current.0 as int, target.0 as int));
                }
                lemma_extends_trans(s0, s7, self.states@, current.0 as int, sub_skip.0 as int);
                if quiet {
                    lemma_untagged_trans(s0, s7, self.states@, current.0 as int, sub_skip.0 as int);
                }
                assert(self.states@[sub_target.0 as int] == s7[sub_target.0 as int]);
            }
            proof {
                if lf {
                    assert(t@.len() == 0);
                    assert(tags@.len() == 0);
                    assert(s7 == s6 && sub_skip == old_skip);
                    let f = self.states@;
                    let old_p = p;
                    let old_h = h;
                    let old_k = k;
                    p = p.push(sub_target.0 as int);
                    h = h.push(sub_have.0 as int);
                    k = k.push(sub_skip.0 as int);
                    let c0 = cur.0 as int;
                    assert forall|x: int| 0 <= x < s1.len() && x != c0 implies #[trigger] f[x] == s1[x] by {
                        assert(s2.subrange(0, s1.len() as int)[x] == s2[x]);
                        assert(s3.subrange(0, s2.len() as int)[x] == s3[x]);
                        assert(s4.subrange(0, s3.len() as int)[x] == s4[x]);
                        assert(s5[x] == s4[x]);
                        assert(s6[x] == s5[x]);
                        assert(f[x] == s7b[x]);
                    }
                    assert forall|j: int| 0 <= j < min implies #[trigger] ladder_step(f, *item, p, j) by {
                        assert(p[j] == old_p[j]);
                        assert(p[j + 1] == old_p[j + 1]);
                        assert(ladder_step(s1, *item, old_p, j));
                        assert(old_p[j] < cur.0);
                    }
                    assert forall|j: int| min <= j < i + 1 implies #[trigger] ladder_choice(
                        f,
                        *item,
                        p,
                        h,
                        k,
                        target.0 as int,
                        j,
                    ) by {
                        assert(p[j] == old_p[j]);
                        if j < i {
                            assert(h[j] == old_h[j]);
                            assert(k[j] == old_k[j]);
                            assert(p[j + 1] == old_p[j + 1]);
                            assert(ladder_choice(s1, *item, old_p, old_h, old_k, target.0 as int, j));
                            assert(old_p[j] < cur.0);
                            assert(old_h[j] < cur.0 && old_k[j] < cur.0);
                        } else {
                            assert(h[j] == sub_have.0 && k[j] == sub_skip.0 && p[j + 1] == sub_target.0);
                            assert(f[c0] == s5[c0]) by {
                                assert(s6[c0] == s5[c0]);
                            }
                            assert(f[sub_have.0 as int] == s6[sub_have.0 as int]);
                        }
                    }
                    assert forall|j: int| 0 <= j <= i + 1 implies 0 <= #[trigger] p[j] < f.len() by {
                        if j <= i {
                            assert(p[j] == old_p[j]);
                        }
                    }
                    assert forall|j: int| 0 < j <= i + 1 implies #[trigger] p[j] >= s0.len() by {
                        if j <= i {
                            assert(p[j] == old_p[j]);
                        }
                    }
                    assert forall|j: int| min <= j < i + 1 implies s0.len() <= #[trigger] h[j] < f.len() by {
                        if j < i {
                            assert(h[j] == old_h[j]);
                        }
                    }
                    assert forall|j: int| min <= j < i + 1 implies s0.len() <= #[trigger] k[j] < f.len() by {
                        if j < i {
                            assert(k[j] == old_k[j]);
                        }
                    }
                    assert forall|j: int| 0 <= j < i + 1 implies #[trigger] p[j] < sub_target.0 by {
                        assert(p[j] == old_p[j]);
                    }
                    assert forall|j: int| min <= j < i + 1 implies #[trigger] h[j] < sub_target.0 && k[j] < sub_target.0 by {
                        if j < i {
                            assert(h[j] == old_h[j]);
                            assert(k[j] == old_k[j]);
                        }
                    }
                }
            }
            cur = sub_target;
            i = i + 1;
        }
        let ghost s8 = self.states@;
        self.set_transitions(cur, jump(target));
        proof {
            lemma_reach_kept_all(s8, self.states@, cur.0 as int);
            lemma_reach_step(self.states@, cur.0 as int, target.0 as int, 0);
            if (min == 0 || can_match(*item)) {
                if reaches(s8, current.0 as int, cur.0 as int) {
                    assert(reaches(self.states@, current.0 as int, cur.0 as int));
                    lemma_reach_trans(self.states@, current.0 as int, cur.0 as int, target.0 as int);
                } else {
                    assert(reaches(self.states@, current.0 as int, target.0 as int));
                }
            }
            if quiet {
                lemma_untagged_trans(s0, s8, self.states@, current.0 as int, cur.0 as int);
            }
            if lf {
                let f = self.states@;
                let c0 = cur.0 as int;
                assert forall|j: int| 0 <= j < min implies #[trigger] ladder_step(f, *item, p, j) by {
                    assert(ladder_step(s8, *item, p, j));
                    assert(p[j] < c0);
                    assert(f[p[j]] == s8[p[j]]);
                }
                assert forall|j: int| min <= j < max implies #[trigger] ladder_choice(
                    f,
                    *item,
                    p,
                    h,
                    k,
                    target.0 as int,
                    j,
                ) by {
                    assert(ladder_choice(s8, *item, p, h, k, target.0 as int, j));
                    assert(p[j] < c0 && h[j] < c0 && k[j] < c0);
                    assert(f[p[j]] == s8[p[j]]);
                    assert(f[h[j]] == s8[h[j]]);
                    assert(f[k[j]] == s8[k[j]]);
                }
                assert(p[max as int] == c0);
                assert(ladder_layout(f, *item, min as int, max as int, p, h, k, target.0 as int, s0.len() as int));
            }
        }
        tags
    }
}

/// Where every state moves only on characters, no state reaches another
/// without reading.
proof fn lemma_no_spontaneous(states: Seq<NfaState>, i: int, j: int, k: nat)
    requires
        forall|q: int| 0 <= q < states.len() ==> (#[trigger] states[q]).transitions is Interval,
        eps_within(states, i, j, k),
    ensures
        i == j,
    decreases k,
{
    if k > 0 {
        if eps_within(states, i, j, (k - 1) as nat) {
            lemma_no_spontaneous(states, i, j, (k - 1) as nat);
        } else {
            let m = choose|m: int|
                0 <= m < states.len() && eps_within(states, i, m, (k - 1) as nat) && #[trigger] eps_edge(states, m, j);
            assert(states[m].transitions is Interval);
        }
    }
}

/// The configurations of the two-state automaton of a single-character
/// expression `re`: the start before reading, and the accepting state after
/// reading one character that `re` matches.
proof fn lemma_leaf_configurations(states: Seq<NfaState>, re: Regex, w: Seq<char>, k: nat, j: int)
    requires
        states.len() == 2,
        leaf_moves(states[0].transitions, re, NfaIdx(1)),
        states[1].transitions is Interval,
        states[1].transitions.targets().len() == 0,
        k <= w.len(),
    ensures
        configuration(states, w, k, j) <==> ((k == 0 && j == 0) || (k == 1 && j == 1 && leaf_has(re, w[0] as int))),
    decreases k,
{
    assert forall|q: int| 0 <= q < states.len() implies (#[trigger] states[q]).transitions is Interval by {
        if q == 0 {
        } else {
            assert(q == 1);
        }
    }
    if k == 0 {
        if eps_reach(states, 0, j) {
            let n = choose|n: nat| #[trigger] eps_within(states, 0, j, n);
            lemma_no_spontaneous(states, 0, j, n);
        }
        if j == 0 {
            assert(eps_within(states, 0, 0, 0));
        }
    } else {
        let c = w[k - 1];
        lemma_char_bound(c);
        let tree0 = states[0].transitions->Interval_0;
        let tree1 = states[1].transitions->Interval_0;
        assert(tree1.entries_view().len() == 0) by {
            assert(entry_targets(tree1.entries_view()).len() == tree1.entries_view().len());
        }
        if configuration(states, w, k, j) {
            let (a, b) = choose|a: int, b: int|
                0 <= a < states.len() && 0 <= b < states.len() && configuration(states, w, (k - 1) as nat, a)
                    && #[trigger] char_edge(states, a, w[k - 1], b) && eps_reach(states, b, j);
            lemma_leaf_configurations(states, re, w, (k - 1) as nat, a);
            let n = choose|n: nat| #[trigger] eps_within(states, b, j, n);
            lemma_no_spontaneous(states, b, j, n);
            if a == 1 {
                assert(value_at(tree1.entries_view(), c as int) is None);
                assert(false);
            }
            assert(a == 0 && k == 1);
            assert(value_at(tree0.entries_view(), c as int) == Some(NfaIdx(b as usize)));
            assert(leaf_has(re, c as int));
            assert(b == 1);
        }
        if k == 1 && j == 1 && leaf_has(re, w[0] as int) {
            assert(configuration(states, w, 0, 0)) by {
                assert(eps_within(states, 0, 0, 0));
            }
            assert(value_at(tree0.entries_view(), c as int) == Some(NfaIdx(1)));
            assert(char_edge(states, 0, w[0], 1));
            assert(eps_within(states, 1, 1, 0));
            assert(eps_reach(states, 1, 1));
        }
    }
}

/// The automaton of a single-character expression accepts exactly the
/// one-character strings whose character the expression matches.
pub proof fn lemma_leaf_language(states: Seq<NfaState>, re: Regex, w: Seq<char>)
    requires
        states.len() == 2,
        leaf_moves(states[0].transitions, re, NfaIdx(1)),
        states[1].transitions is Interval,
        states[1].transitions.targets().len() == 0,
        states[0].maybe_accepts_for_rule is None,
        states[1].maybe_accepts_for_rule is Some,
    ensures
        accepts_input(states, w) <==> (w.len() == 1 && leaf_has(re, w[0] as int)),
{
    if accepts_input(states, w) {
        let j = choose|j: int|
            0 <= j < states.len() && #[trigger] configuration(states, w, w.len(), j)
                && states[j].maybe_accepts_for_rule is Some;
        lemma_leaf_configurations(states, re, w, w.len(), j);
    }
    if w.len() == 1 && leaf_has(re, w[0] as int) {
        lemma_leaf_configurations(states, re, w, 1, 1);
        assert(configuration(states, w, w.len(), 1));
    }
}

/// The loop of a repeated single-character expression `item`, from `c` to
/// `t`: `c` moves without input into the loop at `st` or past it at `sk`;
/// `st` moves on what `item` matches to `en`, which moves back to `st` or on
/// to `t`; `sk` moves on to `t`.
pub open spec fn loop_layout(states: Seq<NfaState>, item: Regex, c: int, st: int, en: int, sk: int, t: int) -> bool {
    &&& 0 <= c < states.len()
    &&& 0 <= st < states.len()
    &&& 0 <= en < states.len()
    &&& 0 <= sk < states.len()
    &&& 0 <= t < states.len()
    &&& states.len() <= usize::MAX
    &&& states[c].transitions is Spontaneous
    &&& states[c].transitions.targets() == seq![NfaIdx(st as usize), NfaIdx(sk as usize)]
    &&& leaf_moves(states[st].transitions, item, NfaIdx(en as usize))
    &&& states[en].transitions is Spontaneous
    &&& states[en].transitions.targets() == seq![NfaIdx(st as usize), NfaIdx(t as usize)]
    &&& states[sk].transitions is Spontaneous
    &&& states[sk].transitions.targets() == seq![NfaIdx(t as usize)]
}

/// `re` repeats a single-character expression between `min` and `max` times.
pub open spec fn is_leaf_bounded(re: Regex) -> bool {
    re matches Regex::BoundedRepetition { item, .. } && is_leaf(*item)
}

/// Step `j` of a ladder: `p[j]` moves on what `item` matches to `p[j + 1]`.
pub open spec fn ladder_step(states: Seq<NfaState>, item: Regex, p: Seq<int>, j: int) -> bool {
    leaf_moves(states[p[j]].transitions, item, NfaIdx(p[j + 1] as usize))
}

/// Optional step `j` of a ladder: `p[j]` moves without input to `h[j]`,
/// which moves on what `item` matches to `p[j + 1]`, or to `k[j]`, which
/// moves on to `t`.
pub open spec fn ladder_choice(
    states: Seq<NfaState>,
    item: Regex,
    p: Seq<int>,
    h: Seq<int>,
    k: Seq<int>,
    t: int,
    j: int,
) -> bool {
    &&& states[p[j]].transitions is Spontaneous
    &&& states[p[j]].transitions.targets() == seq![NfaIdx(h[j] as usize), NfaIdx(k[j] as usize)]
    &&& leaf_moves(states[h[j]].transitions, item, NfaIdx(p[j + 1] as usize))
    &&& states[k[j]].transitions is Spontaneous
    &&& states[k[j]].transitions.targets() == seq![NfaIdx(t as usize)]
}

/// The states of `min` to `max` repetitions of the single-character
/// expression `item`, from `p[0]` to `t`: `min` steps, then `max - min`
/// optional ones, each of which may instead move on to `t`, and from `p[max]`
/// a move on to `t`. Its inner states are at least `base`.
pub open spec fn ladder_layout(
    states: Seq<NfaState>,
    item: Regex,
    min: int,
    max: int,
    p: Seq<int>,
    h: Seq<int>,
    k: Seq<int>,
    t: int,
    base: int,
) -> bool {
    &&& 0 <= min <= max
    &&& p.len() == max + 1
    &&& h.len() == max
    &&& k.len() == max
    &&& states.len() <= usize::MAX
    &&& 0 <= t < states.len()
    &&& t < base
    &&& forall|j: int| 0 <= j <= max ==> 0 <= #[trigger] p[j] < states.len()
    &&& forall|j: int| 0 < j <= max ==> #[trigger] p[j] >= base
    &&& forall|j: int| min <= j < max ==> base <= #[trigger] h[j] < states.len()
    &&& forall|j: int| min <= j < max ==> base <= #[trigger] k[j] < states.len()
    &&& forall|j: int| 0 <= j < min ==> #[trigger] ladder_step(states, item, p, j)
    &&& forall|j: int| min <= j < max ==> #[trigger] ladder_choice(states, item, p, h, k, t, j)
    &&& states[p[max]].transitions is Spontaneous
    &&& states[p[max]].transitions.targets() == seq![NfaIdx(t as usize)]
}

/// The states a ladder can be in at rung `i`, before reading on.
pub open spec fn ladder_at(min: int, max: int, p: Seq<int>, h: Seq<int>, k: Seq<int>, t: int, i: int, x: int) -> bool {
    ||| (0 <= i < min && x == p[i])
    ||| (min <= i < max && (x == p[i] || x == h[i] || x == k[i] || x == t))
    ||| (i == max && (x == p[max] || x == t))
}

/// `re` repeats a single-character expression one or more times.
pub open spec fn is_leaf_plus(re: Regex) -> bool {
    re matches Regex::KleenePlus(item) && is_leaf(*item)
}

/// `re` repeats a single-character expression zero or more times.
pub open spec fn is_leaf_star(re: Regex) -> bool {
    re matches Regex::KleeneClosure(item) && is_leaf(*item)
}

/// The first `i` characters of `w` are all matched by `item`.
pub open spec fn all_leaf(item: Regex, w: Seq<char>, i: int) -> bool {
    forall|l: int| 0 <= l < i ==> leaf_has(item, #[trigger] w[l] as int)
}

/// `re` is a sequence of one or more single-character expressions.
pub open spec fn is_chain(re: Regex) -> bool {
    re matches Regex::Sequence(items) && items@.len() >= 1 && forall|k: int|
        0 <= k < items@.len() ==> is_leaf(#[trigger] items@[k])
}

/// The first `i` characters of `w` are, one by one, matched by the
/// single-character expressions `items`.
pub open spec fn chain_prefix(items: Seq<Regex>, w: Seq<char>, i: int) -> bool {
    forall|l: int| 0 <= l < i ==> leaf_has(#[trigger] items[l], w[l] as int)
}

/// `w` spells, character by character, what the single-character
/// expressions `items` match.
pub open spec fn chain_has(items: Seq<Regex>, w: Seq<char>) -> bool {
    w.len() == items.len() && chain_prefix(items, w, w.len() as int)
}

/// The states `path` lead one to the next: `path[j]` moves on exactly what
/// `items[j]` matches, to `path[j + 1]`; it runs from `from` to `to`, and its
/// inner states are at least `base`.
pub open spec fn chain_between(
    states: Seq<NfaState>,
    items: Seq<Regex>,
    path: Seq<int>,
    from: int,
    to: int,
    base: int,
) -> bool {
    &&& path.len() == items.len() + 1
    &&& forall|j: int| 0 <= j < path.len() ==> 0 <= #[trigger] path[j] < states.len()
    &&& forall|j: int|
        0 <= j < items.len() ==> leaf_moves(states[path[j]].transitions, #[trigger] items[j], NfaIdx(path[j + 1] as usize))
    &&& path[0] == from
    &&& path[items.len() as int] == to
    &&& forall|j: int| 0 < j < items.len() ==> #[trigger] path[j] >= base
}

/// From a state that moves only on characters, nothing is reached without
/// reading.
proof fn lemma_no_spontaneous_from(states: Seq<NfaState>, i: int, j: int, k: nat)
    requires
        0 <= i < states.len(),
        states[i].transitions is Interval,
        eps_within(states, i, j, k),
    ensures
        i == j,
    decreases k,
{
    if k > 0 {
        if eps_within(states, i, j, (k - 1) as nat) {
            lemma_no_spontaneous_from(states, i, j, (k - 1) as nat);
        } else {
            let m = choose|m: int|
                0 <= m < states.len() && eps_within(states, i, m, (k - 1) as nat) && #[trigger] eps_edge(states, m, j);
            lemma_no_spontaneous_from(states, i, m, (k - 1) as nat);
        }
    }
}

/// The configurations of an automaton along a chain from state 0 to state 1:
/// after `i` characters, the `i`-th state of the chain, as long as the
/// characters read match the chain's expressions.
proof fn lemma_chain_configurations(
    states: Seq<NfaState>,
    items: Seq<Regex>,
    path: Seq<int>,
    w: Seq<char>,
    i: nat,
    x: int,
)
    requires
        chain_between(states, items, path, 0, 1, 2),
        items.len() >= 1,
        states.len() <= usize::MAX,
        states[1].transitions is Interval,
        states[1].transitions.targets().len() == 0,
        i <= w.len(),
    ensures
        configuration(states, w, i, x) <==> (i <= items.len() && x == path[i as int] && chain_prefix(items, w, i as int)),
    decreases i,
{
    let k = items.len() as int;
    assert(path[0] == 0);
    assert(leaf_moves(states[path[0]].transitions, items[0], NfaIdx(path[1] as usize)));
    if i == 0 {
        if eps_reach(states, 0, x) {
            let n = choose|n: nat| #[trigger] eps_within(states, 0, x, n);
            lemma_no_spontaneous_from(states, 0, x, n);
        }
        if x == 0 {
            assert(eps_within(states, 0, 0, 0));
        }
    } else {
        let c = w[i - 1];
        lemma_char_bound(c);
        let tree1 = states[1].transitions->Interval_0;
        assert(tree1.entries_view().len() == 0) by {
            assert(entry_targets(tree1.entries_view()).len() == tree1.entries_view().len());
        }
        if configuration(states, w, i, x) {
            let (a, b) = choose|a: int, b: int|
                0 <= a < states.len() && 0 <= b < states.len() && configuration(states, w, (i - 1) as nat, a)
                    && #[trigger] char_edge(states, a, w[i - 1], b) && eps_reach(states, b, x);
            lemma_chain_configurations(states, items, path, w, (i - 1) as nat, a);
            if i - 1 == k {
                assert(path[k] == 1);
                assert(value_at(tree1.entries_view(), c as int) is None);
                assert(false);
            }
            assert(leaf_moves(states[path[i - 1]].transitions, items[i - 1], NfaIdx(path[i as int] as usize)));
            let tree = states[a].transitions->Interval_0;
            assert(value_at(tree.entries_view(), c as int) == Some(NfaIdx(b as usize)));
            assert(leaf_has(items[i - 1], c as int));
            assert(NfaIdx(b as usize) == NfaIdx(path[i as int] as usize));
            assert(b == path[i as int]);
            if i < k {
                assert(leaf_moves(states[path[i as int]].transitions, items[i as int], NfaIdx(path[i + 1int] as usize)));
            }
            let n = choose|n: nat| #[trigger] eps_within(states, b, x, n);
            lemma_no_spontaneous_from(states, b, x, n);
            assert forall|l: int| 0 <= l < i implies leaf_has(#[trigger] items[l], w[l] as int) by {
                if l < i - 1 {
                    assert(chain_prefix(items, w, i - 1));
                }
            }
        }
        if i <= k && x == path[i as int] && chain_prefix(items, w, i as int) {
            let a = path[i - 1];
            assert(chain_prefix(items, w, i - 1)) by {
                assert forall|l: int| 0 <= l < i - 1 implies leaf_has(#[trigger] items[l], w[l] as int) by {
                    assert(chain_prefix(items, w, i as int));
                }
            }
            lemma_chain_configurations(states, items, path, w, (i - 1) as nat, a);
            assert(leaf_moves(states[path[i - 1]].transitions, items[i - 1], NfaIdx(path[i as int] as usize)));
            assert(leaf_has(items[i - 1], c as int));
            assert(char_edge(states, a, w[i - 1], x));
            assert(eps_within(states, x, x, 0));
            assert(eps_reach(states, x, x));
            assert(0 <= a < states.len() && 0 <= x < states.len());
        }
    }
}

/// An automaton whose only accepting state 1 ends a chain from state 0
/// accepts exactly the strings the chain spells.
pub proof fn lemma_chain_language(states: Seq<NfaState>, items: Seq<Regex>, path: Seq<int>, w: Seq<char>)
    requires
        chain_between(states, items, path, 0, 1, 2),
        items.len() >= 1,
        states.len() <= usize::MAX,
        states[1].transitions is Interval,
        states[1].transitions.targets().len() == 0,
        states[1].maybe_accepts_for_rule is Some,
        forall|i: int| 0 <= i < states.len() && i != 1 ==> (#[trigger] states[i]).maybe_accepts_for_rule is None,
    ensures
        accepts_input(states, w) <==> chain_has(items, w),
{
    let k = items.len() as int;
    if accepts_input(states, w) {
        let x = choose|x: int|
            0 <= x < states.len() && #[trigger] configuration(states, w, w.len(), x)
                && states[x].maybe_accepts_for_rule is Some;
        lemma_chain_configurations(states, items, path, w, w.len(), x);
        if w.len() < k {
            if w.len() > 0 {
                assert(path[w.len() as int] >= 2);
            }
            assert(x != 1);
        }
    }
    if chain_has(items, w) {
        lemma_chain_configurations(states, items, path, w, w.len(), 1);
        assert(configuration(states, w, w.len(), 1));
    }
}

/// Without reading, the loop of [`loop_layout`] leads from `c` exactly to
/// `c`, `st`, `sk` and `t`, and from `en` exactly to `en`, `st` and `t`.
proof fn lemma_loop_closure(
    states: Seq<NfaState>,
    item: Regex,
    c: int,
    st: int,
    en: int,
    sk: int,
    t: int,
    from: int,
    x: int,
    n: nat,
)
    requires
        loop_layout(states, item, c, st, en, sk, t),
        states[t].transitions is Interval,
        from == c || from == en,
        eps_within(states, from, x, n),
    ensures
        from == c ==> (x == c || x == st || x == sk || x == t),
        from == en ==> (x == en || x == st || x == t),
    decreases n,
{
    if n > 0 {
        if eps_within(states, from, x, (n - 1) as nat) {
            lemma_loop_closure(states, item, c, st, en, sk, t, from, x, (n - 1) as nat);
        } else {
            let y = choose|y: int|
                0 <= y < states.len() && eps_within(states, from, y, (n - 1) as nat) && #[trigger] eps_edge(states, y, x);
            lemma_loop_closure(states, item, c, st, en, sk, t, from, y, (n - 1) as nat);
            let u = choose|u: int|
                0 <= u < states[y].transitions.targets().len() && (#[trigger] states[y].transitions.targets()[u]).0 == x;
            if y == c {
                assert(u == 0 || u == 1);
            } else if y == en {
                assert(u == 0 || u == 1);
            } else if y == sk {
                assert(u == 0);
            }
        }
    }
}

proof fn lemma_loop_reach(states: Seq<NfaState>, item: Regex, c: int, st: int, en: int, sk: int, t: int)
    requires
        loop_layout(states, item, c, st, en, sk, t),
    ensures
        eps_reach(states, c, c),
        eps_reach(states, c, st),
        eps_reach(states, c, sk),
        eps_reach(states, c, t),
        eps_reach(states, en, en),
        eps_reach(states, en, st),
        eps_reach(states, en, t),
{
    assert(eps_within(states, c, c, 0));
    assert(eps_within(states, en, en, 0));
    assert(states[c].transitions.targets()[0].0 == st);
    assert(states[c].transitions.targets()[1].0 == sk);
    assert(states[en].transitions.targets()[0].0 == st);
    assert(states[en].transitions.targets()[1].0 == t);
    assert(states[sk].transitions.targets()[0].0 == t);
    lemma_eps_reach_edge(states, c, st);
    lemma_eps_reach_edge(states, c, sk);
    lemma_eps_reach_edge(states, sk, t);
    lemma_eps_reach_trans(states, c, sk, t);
    lemma_eps_reach_edge(states, en, st);
    lemma_eps_reach_edge(states, en, t);
}

/// The configurations of the automaton of a single-character expression
/// repeated one or more times: the start before reading; then, while every
/// character read matches, the states around the loop's entry after one
/// character, and around its end after more.
proof fn lemma_plus_configurations(
    states: Seq<NfaState>,
    item: Regex,
    m: int,
    st: int,
    en: int,
    sk: int,
    w: Seq<char>,
    i: nat,
    x: int,
)
    requires
        loop_layout(states, item, m, st, en, sk, 1),
        leaf_moves(states[0].transitions, item, NfaIdx(m as usize)),
        states[1].transitions is Interval,
        states[1].transitions.targets().len() == 0,
        i <= w.len(),
    ensures
        configuration(states, w, i, x) <==> ((i == 0 && x == 0) || (i == 1 && all_leaf(item, w, 1) && (x == m || x
            == st || x == sk || x == 1)) || (i >= 2 && all_leaf(item, w, i as int) && (x == en || x == st || x == 1))),
    decreases i,
{
    if i == 0 {
        if eps_reach(states, 0, x) {
            let n = choose|n: nat| #[trigger] eps_within(states, 0, x, n);
            lemma_no_spontaneous_from(states, 0, x, n);
        }
        if x == 0 {
            assert(eps_within(states, 0, 0, 0));
        }
    } else {
        let c = w[i - 1];
        lemma_char_bound(c);
        let tree1 = states[1].transitions->Interval_0;
        assert(tree1.entries_view().len() == 0) by {
            assert(entry_targets(tree1.entries_view()).len() == tree1.entries_view().len());
        }
        lemma_loop_reach(states, item, m, st, en, sk, 1);
        if configuration(states, w, i, x) {
            let (a, b) = choose|a: int, b: int|
                0 <= a < states.len() && 0 <= b < states.len() && configuration(states, w, (i - 1) as nat, a)
                    && #[trigger] char_edge(states, a, w[i - 1], b) && eps_reach(states, b, x);
            lemma_plus_configurations(states, item, m, st, en, sk, w, (i - 1) as nat, a);
            let n = choose|n: nat| #[trigger] eps_within(states, b, x, n);
            if i == 1 {
                assert(a == 0);
                let tree0 = states[0].transitions->Interval_0;
                assert(value_at(tree0.entries_view(), c as int) == Some(NfaIdx(b as usize)));
                assert(leaf_has(item, c as int));
                assert(NfaIdx(b as usize) == NfaIdx(m as usize));
                assert(b == m);
                lemma_loop_closure(states, item, m, st, en, sk, 1, m, x, n);
            } else {
                if a == 1 {
                    assert(value_at(tree1.entries_view(), c as int) is None);
                    assert(false);
                }
                assert(a == st);
                let tree = states[st].transitions->Interval_0;
                assert(value_at(tree.entries_view(), c as int) == Some(NfaIdx(b as usize)));
                assert(leaf_has(item, c as int));
                assert(NfaIdx(b as usize) == NfaIdx(en as usize));
                assert(b == en);
                lemma_loop_closure(states, item, m, st, en, sk, 1, en, x, n);
            }
            assert forall|l: int| 0 <= l < i implies leaf_has(item, #[trigger] w[l] as int) by {
                if l < i - 1 {
                    assert(all_leaf(item, w, i - 1));
                }
            }
        }
        if i == 1 && all_leaf(item, w, 1) && (x == m || x == st || x == sk || x == 1) {
            lemma_plus_configurations(states, item, m, st, en, sk, w, 0, 0);
            assert(leaf_has(item, w[0] as int));
            assert(char_edge(states, 0, w[i - 1], m));
            assert(eps_reach(states, m, x));
            assert(0 <= m < states.len());
        }
        if i >= 2 && all_leaf(item, w, i as int) && (x == en || x == st || x == 1) {
            assert(all_leaf(item, w, i - 1)) by {
                assert forall|l: int| 0 <= l < i - 1 implies leaf_has(item, #[trigger] w[l] as int) by {
                    assert(all_leaf(item, w, i as int));
                }
            }
            lemma_plus_configurations(states, item, m, st, en, sk, w, (i - 1) as nat, st);
            assert(leaf_has(item, w[i - 1] as int));
            assert(char_edge(states, st, w[i - 1], en));
            assert(eps_reach(states, en, x));
        }
    }
}

/// The automaton of a single-character expression repeated one or more
/// times accepts exactly the non-empty strings of characters it matches.
pub proof fn lemma_plus_language(
    states: Seq<NfaState>,
    item: Regex,
    m: int,
    st: int,
    en: int,
    sk: int,
    w: Seq<char>,
)
    requires
        loop_layout(states, item, m, st, en, sk, 1),
        leaf_moves(states[0].transitions, item, NfaIdx(m as usize)),
        states[1].transitions is Interval,
        states[1].transitions.targets().len() == 0,
        states[1].maybe_accepts_for_rule is Some,
        forall|i: int| 0 <= i < states.len() && i != 1 ==> (#[trigger] states[i]).maybe_accepts_for_rule is None,
    ensures
        accepts_input(states, w) <==> (w.len() >= 1 && all_leaf(item, w, w.len() as int)),
{
    if accepts_input(states, w) {
        let x = choose|x: int|
            0 <= x < states.len() && #[trigger] configuration(states, w, w.len(), x)
                && states[x].maybe_accepts_for_rule is Some;
        lemma_plus_configurations(states, item, m, st, en, sk, w, w.len(), x);
    }
    if w.len() >= 1 && all_leaf(item, w, w.len() as int) {
        lemma_plus_configurations(states, item, m, st, en, sk, w, w.len(), 1);
        assert(configuration(states, w, w.len(), 1));
    }
}

/// The configurations of the automaton of a single-character expression
/// repeated zero or more times: the states around the loop's entry before
/// reading, and, while every character read matches, around its end after.
proof fn lemma_star_configurations(
    states: Seq<NfaState>,
    item: Regex,
    st: int,
    en: int,
    sk: int,
    w: Seq<char>,
    i: nat,
    x: int,
)
    requires
        loop_layout(states, item, 0, st, en, sk, 1),
        states[1].transitions is Interval,
        states[1].transitions.targets().len() == 0,
        i <= w.len(),
    ensures
        configuration(states, w, i, x) <==> ((i == 0 && (x == 0 || x == st || x == sk || x == 1)) || (i >= 1
            && all_leaf(item, w, i as int) && (x == en || x == st || x == 1))),
    decreases i,
{
    lemma_loop_reach(states, item, 0, st, en, sk, 1);
    if i == 0 {
        if eps_reach(states, 0, x) {
            let n = choose|n: nat| #[trigger] eps_within(states, 0, x, n);
            lemma_loop_closure(states, item, 0, st, en, sk, 1, 0, x, n);
        }
    } else {
        let c = w[i - 1];
        lemma_char_bound(c);
        let tree1 = states[1].transitions->Interval_0;
        assert(tree1.entries_view().len() == 0) by {
            assert(entry_targets(tree1.entries_view()).len() == tree1.entries_view().len());
        }
        if configuration(states, w, i, x) {
            let (a, b) = choose|a: int, b: int|
                0 <= a < states.len() && 0 <= b < states.len() && configuration(states, w, (i - 1) as nat, a)
                    && #[trigger] char_edge(states, a, w[i - 1], b) && eps_reach(states, b, x);
            lemma_star_configurations(states, item, st, en, sk, w, (i - 1) as nat, a);
            let n = choose|n: nat| #[trigger] eps_within(states, b, x, n);
            if a == 1 {
                assert(value_at(tree1.entries_view(), c as int) is None);
                assert(false);
            }
            assert(a == st);
            let tree = states[st].transitions->Interval_0;
            assert(value_at(tree.entries_view(), c as int) == Some(NfaIdx(b as usize)));
            assert(leaf_has(item, c as int));
            assert(NfaIdx(b as usize) == NfaIdx(en as usize));
            assert(b == en);
            lemma_loop_closure(states, item, 0, st, en, sk, 1, en, x, n);
            assert forall|l: int| 0 <= l < i implies leaf_has(item, #[trigger] w[l] as int) by {
                if l < i - 1 {
                    assert(all_leaf(item, w, i - 1));
                }
            }
        }
        if i >= 1 && all_leaf(item, w, i as int) && (x == en || x == st || x == 1) {
            assert(all_leaf(item, w, i - 1)) by {
                assert forall|l: int| 0 <= l < i - 1 implies leaf_has(item, #[trigger] w[l] as int) by {
                    assert(all_leaf(item, w, i as int));
                }
            }
            lemma_star_configurations(states, item, st, en, sk, w, (i - 1) as nat, st);
            assert(leaf_has(item, w[i - 1] as int));
            assert(char_edge(states, st, w[i - 1], en));
            assert(eps_reach(states, en, x));
        }
    }
}

/// The automaton of a single-character expression repeated zero or more
/// times accepts exactly the strings of characters it matches.
pub proof fn lemma_star_language(states: Seq<NfaState>, item: Regex, st: int, en: int, sk: int, w: Seq<char>)
    requires
        loop_layout(states, item, 0, st, en, sk, 1),
        states[1].transitions is Interval,
        states[1].transitions.targets().len() == 0,
        states[1].maybe_accepts_for_rule is Some,
        forall|i: int| 0 <= i < states.len() && i != 1 ==> (#[trigger] states[i]).maybe_accepts_for_rule is None,
    ensures
        accepts_input(states, w) <==> all_leaf(item, w, w.len() as int),
{
    if accepts_input(states, w) {
        let x = choose|x: int|
            0 <= x < states.len() && #[trigger] configuration(states, w, w.len(), x)
                && states[x].maybe_accepts_for_rule is Some;
        lemma_star_configurations(states, item, st, en, sk, w, w.len(), x);
    }
    if all_leaf(item, w, w.len() as int) {
        lemma_star_configurations(states, item, st, en, sk, w, w.len(), 1);
        assert(configuration(states, w, w.len(), 1));
    }
}

/// Without reading, a ladder leads from rung `i` exactly to the states of
/// [`ladder_at`].
proof fn lemma_ladder_closure(
    states: Seq<NfaState>,
    item: Regex,
    min: int,
    max: int,
    p: Seq<int>,
    h: Seq<int>,
    k: Seq<int>,
    t: int,
    base: int,
    i: int,
    x: int,
    n: nat,
)
    requires
        ladder_layout(states, item, min, max, p, h, k, t, base),
        states[t].transitions is Interval,
        0 <= i <= max,
        eps_within(states, p[i], x, n),
    ensures
        ladder_at(min, max, p, h, k, t, i, x),
    decreases n,
{
    if n == 0 {
        assert(x == p[i]);
    } else {
        if eps_within(states, p[i], x, (n - 1) as nat) {
            lemma_ladder_closure(states, item, min, max, p, h, k, t, base, i, x, (n - 1) as nat);
        } else {
            let y = choose|y: int|
                0 <= y < states.len() && eps_within(states, p[i], y, (n - 1) as nat) && #[trigger] eps_edge(states, y, x);
            lemma_ladder_closure(states, item, min, max, p, h, k, t, base, i, y, (n - 1) as nat);
            let u = choose|u: int|
                0 <= u < states[y].transitions.targets().len() && (#[trigger] states[y].transitions.targets()[u]).0 == x;
            if i < min {
                assert(ladder_step(states, item, p, i));
            } else if i < max {
                assert(ladder_choice(states, item, p, h, k, t, i));
                if y == p[i] {
                    assert(u == 0 || u == 1);
                } else if y == k[i] {
                    assert(u == 0);
                }
            } else {
                if y == p[max] {
                    assert(u == 0);
                }
            }
        }
    }
}

proof fn lemma_ladder_reach(
    states: Seq<NfaState>,
    item: Regex,
    min: int,
    max: int,
    p: Seq<int>,
    h: Seq<int>,
    k: Seq<int>,
    t: int,
    base: int,
    i: int,
    x: int,
)
    requires
        ladder_layout(states, item, min, max, p, h, k, t, base),
        0 <= i <= max,
        ladder_at(min, max, p, h, k, t, i, x),
    ensures
        eps_reach(states, p[i], x),
{
    assert(eps_within(states, p[i], p[i], 0));
    if min <= i < max {
        assert(ladder_choice(states, item, p, h, k, t, i));
        assert(states[p[i]].transitions.targets()[0].0 == h[i]);
        assert(states[p[i]].transitions.targets()[1].0 == k[i]);
        assert(states[k[i]].transitions.targets()[0].0 == t);
        lemma_eps_reach_edge(states, p[i], h[i]);
        lemma_eps_reach_edge(states, p[i], k[i]);
        lemma_eps_reach_edge(states, k[i], t);
        lemma_eps_reach_trans(states, p[i], k[i], t);
    } else if i == max {
        assert(states[p[max]].transitions.targets()[0].0 == t);
        lemma_eps_reach_edge(states, p[max], t);
    }
}

/// The configurations of the automaton of a single-character expression
/// repeated `min` to `max` times: while every character read matches, the
/// states of rung `i` after `i` characters, up to `max`.
proof fn lemma_ladder_configurations(
    states: Seq<NfaState>,
    item: Regex,
    min: int,
    max: int,
    p: Seq<int>,
    h: Seq<int>,
    k: Seq<int>,
    w: Seq<char>,
    i: nat,
    x: int,
)
    requires
        ladder_layout(states, item, min, max, p, h, k, 1, 2),
        p[0] == 0,
        states[1].transitions is Interval,
        states[1].transitions.targets().len() == 0,
        i <= w.len(),
    ensures
        configuration(states, w, i, x) <==> (i <= max && all_leaf(item, w, i as int) && ladder_at(
            min,
            max,
            p,
            h,
            k,
            1,
            i as int,
            x,
        )),
    decreases i,
{
    if i == 0 {
        if eps_reach(states, 0, x) {
            let n = choose|n: nat| #[trigger] eps_within(states, 0, x, n);
            lemma_ladder_closure(states, item, min, max, p, h, k, 1, 2, 0, x, n);
        }
        if ladder_at(min, max, p, h, k, 1, 0, x) {
            lemma_ladder_reach(states, item, min, max, p, h, k, 1, 2, 0, x);
        }
    } else {
        let c = w[i - 1];
        lemma_char_bound(c);
        let tree1 = states[1].transitions->Interval_0;
        assert(tree1.entries_view().len() == 0) by {
            assert(entry_targets(tree1.entries_view()).len() == tree1.entries_view().len());
        }
        let j = i - 1;
        if configuration(states, w, i, x) {
            let (a, b) = choose|a: int, b: int|
                0 <= a < states.len() && 0 <= b < states.len() && configuration(states, w, (i - 1) as nat, a)
                    && #[trigger] char_edge(states, a, w[i - 1], b) && eps_reach(states, b, x);
            lemma_ladder_configurations(states, item, min, max, p, h, k, w, (i - 1) as nat, a);
            if a == 1 {
                assert(value_at(tree1.entries_view(), c as int) is None);
                assert(false);
            }
            if j == max {
                assert(states[p[max]].transitions is Spontaneous);
                assert(false);
            }
            if j < min {
                assert(ladder_step(states, item, p, j));
                assert(a == p[j]);
            } else {
                assert(ladder_choice(states, item, p, h, k, 1, j));
                if a == p[j] || a == k[j] {
                    assert(false);
                }
                assert(a == h[j]);
            }
            let tree = states[a].transitions->Interval_0;
            assert(value_at(tree.entries_view(), c as int) == Some(NfaIdx(b as usize)));
            assert(leaf_has(item, c as int));
            assert(NfaIdx(b as usize) == NfaIdx(p[i as int] as usize));
            assert(b == p[i as int]);
            let n = choose|n: nat| #[trigger] eps_within(states, b, x, n);
            lemma_ladder_closure(states, item, min, max, p, h, k, 1, 2, i as int, x, n);
            assert forall|l: int| 0 <= l < i implies leaf_has(item, #[trigger] w[l] as int) by {
                if l < i - 1 {
                    assert(all_leaf(item, w, i - 1));
                }
            }
        }
        if i <= max && all_leaf(item, w, i as int) && ladder_at(min, max, p, h, k, 1, i as int, x) {
            assert(all_leaf(item, w, i - 1)) by {
                assert forall|l: int| 0 <= l < i - 1 implies leaf_has(item, #[trigger] w[l] as int) by {
                    assert(all_leaf(item, w, i as int));
                }
            }
            let a = if j < min {
                p[j]
            } else {
                h[j]
            };
            assert(ladder_at(min, max, p, h, k, 1, j, a));
            lemma_ladder_configurations(states, item, min, max, p, h, k, w, (i - 1) as nat, a);
            assert(leaf_has(item, c as int));
            if j < min {
                assert(ladder_step(states, item, p, j));
            } else {
                assert(ladder_choice(states, item, p, h, k, 1, j));
            }
            assert(char_edge(states, a, w[i - 1], p[i as int]));
            lemma_ladder_reach(states, item, min, max, p, h, k, 1, 2, i as int, x);
            assert(0 <= a < states.len() && 0 <= p[i as int] < states.len());
        }
    }
}

/// The automaton of a single-character expression repeated `min` to `max`
/// times accepts exactly the strings of `min` to `max` characters it
/// matches.
pub proof fn lemma_ladder_language(
    states: Seq<NfaState>,
    item: Regex,
    min: int,
    max: int,
    p: Seq<int>,
    h: Seq<int>,
    k: Seq<int>,
    w: Seq<char>,
)
    requires
        ladder_layout(states, item, min, max, p, h, k, 1, 2),
        p[0] == 0,
        states[1].transitions is Interval,
        states[1].transitions.targets().len() == 0,
        states[1].maybe_accepts_for_rule is Some,
        forall|i: int| 0 <= i < states.len() && i != 1 ==> (#[trigger] states[i]).maybe_accepts_for_rule is None,
    ensures
        accepts_input(states, w) <==> (min <= w.len() <= max && all_leaf(item, w, w.len() as int)),
{
    if accepts_input(states, w) {
        let x = choose|x: int|
            0 <= x < states.len() && #[trigger] configuration(states, w, w.len(), x)
                && states[x].maybe_accepts_for_rule is Some;
        lemma_ladder_configurations(states, item, min, max, p, h, k, w, w.len(), x);
        if w.len() < min {
            let i = w.len() as int;
            if i > 0 {
                assert(p[i] >= 2);
            }
        }
    }
    if min <= w.len() <= max && all_leaf(item, w, w.len() as int) {
        lemma_ladder_configurations(states, item, min, max, p, h, k, w, w.len(), 1);
        assert(configuration(states, w, w.len(), 1));
    }
}

/// A single-character expression matches exactly the one-character
/// strings whose character it matches.
proof fn lemma_leaf_matches(re: Regex, w: Seq<char>)
    requires
        is_leaf(re),
    ensures
        regex_matches(re, w) <==> (w.len() == 1 && leaf_has(re, w[0] as int)),
{
    if w.len() == 1 {
        lemma_char_bound(w[0]);
        match re {
            Regex::Literal(c) => {
                if w[0] as int == c as int {
                    assert(w =~= seq![c]);
                }
            },
            _ => {},
        }
    }
}

/// A sequence of single-character expressions matches exactly what it
/// spells.
proof fn lemma_chain_matches(items: Seq<Regex>, w: Seq<char>)
    requires
        forall|k: int| 0 <= k < items.len() ==> is_leaf(#[trigger] items[k]),
    ensures
        matches_items(items, w) <==> chain_has(items, w),
    decreases items.len(),
{
    if items.len() > 0 {
        let n = items.len() - 1;
        let init = items.subrange(0, n);
        let last = items[n];
        assert(is_leaf(last));
        if matches_items(items, w) {
            let k = choose|k: int|
                0 <= k <= w.len() && matches_items(init, #[trigger] w.subrange(0, k)) && regex_matches(
                    last,
                    w.subrange(k, w.len() as int),
                );
            lemma_chain_matches(init, w.subrange(0, k));
            lemma_leaf_matches(last, w.subrange(k, w.len() as int));
            assert forall|l: int| 0 <= l < w.len() implies leaf_has(#[trigger] items[l], w[l] as int) by {
                if l < n {
                    assert(init[l] == items[l]);
                    assert(w.subrange(0, k)[l] == w[l]);
                } else {
                    assert(w.subrange(k, w.len() as int)[0] == w[l]);
                }
            }
        }
        if chain_has(items, w) {
            let k = n;
            let a = w.subrange(0, k);
            let b = w.subrange(k, w.len() as int);
            assert forall|l: int| 0 <= l < a.len() implies leaf_has(#[trigger] init[l], a[l] as int) by {
                assert(leaf_has(items[l], w[l] as int));
            }
            lemma_chain_matches(init, a);
            assert(leaf_has(items[n], w[n] as int));
            assert(b[0] == w[n]);
            lemma_leaf_matches(last, b);
            assert(matches_items(init, w.subrange(0, k)) && regex_matches(last, w.subrange(k, w.len() as int)));
        }
    } else {
        if w.len() == 0 {
            assert(chain_prefix(items, w, 0));
        }
    }
}

/// Repeating a single-character expression: the strings of the allowed
/// lengths whose characters it all matches.
proof fn lemma_leaf_repeats(item: Regex, w: Seq<char>, min: nat, max: Option<nat>)
    requires
        is_leaf(item),
    ensures
        repeats_of(item, w, min, max) <==> (min <= w.len() && (max matches Some(m) ==> w.len() <= m) && all_leaf(
            item,
            w,
            w.len() as int,
        )),
    decreases w.len(),
{
    let min1: nat = if min > 0 {
        (min - 1) as nat
    } else {
        0
    };
    let max1: Option<nat> = match max {
        Some(m) => Some((m - 1) as nat),
        None => None,
    };
    if w.len() == 0 {
        lemma_leaf_matches(item, w);
    } else {
        let b = w.subrange(1, w.len() as int);
        lemma_leaf_repeats(item, b, min1, max1);
        if repeats_of(item, w, min, max) {
            let k = choose|k: int|
                1 <= k <= w.len() && regex_matches(item, #[trigger] w.subrange(0, k)) && repeats_of(
                    item,
                    w.subrange(k, w.len() as int),
                    min1,
                    max1,
                );
            lemma_leaf_matches(item, w.subrange(0, k));
            assert(k == 1);
            assert(w.subrange(0, k)[0] == w[0]);
            assert forall|l: int| 0 <= l < w.len() implies leaf_has(item, #[trigger] w[l] as int) by {
                if l > 0 {
                    assert(b[l - 1] == w[l]);
                    assert(all_leaf(item, b, b.len() as int));
                }
            }
        }
        if min <= w.len() && (max matches Some(m) ==> w.len() <= m) && all_leaf(item, w, w.len() as int) {
            assert(leaf_has(item, w[0] as int));
            assert(w.subrange(0, 1)[0] == w[0]);
            lemma_leaf_matches(item, w.subrange(0, 1));
            assert forall|l: int| 0 <= l < b.len() implies leaf_has(item, #[trigger] b[l] as int) by {
                assert(b[l] == w[l + 1]);
            }
            assert(regex_matches(item, w.subrange(0, 1)) && repeats_of(item, w.subrange(1, w.len() as int), min1, max1));
        }
    }
}

/// The simple forms whose automata are stated exactly.
pub open spec fn simple_form(re: Regex) -> bool {
    is_leaf(re) || is_chain(re) || is_leaf_plus(re) || is_leaf_star(re) || is_leaf_bounded(re)
}

impl Tnfa {
    /// The automaton for `regex` as the rule `rule_idx`, with variants of
    /// its leaf captures for `encodings`: from the start state 0 the
    /// construction of `regex` leads to state 1, the only accepting state,
    /// which accepts for `rule_idx` and has no transitions.
    pub fn for_single_rule(rule_idx: RuleIdx, regex: &Regex, encodings: &Vec<Encoding>) -> (r: Tnfa)
        requires
            regex.wf(),
            encodings@.len() > 0 ==> leaves_tagless(*regex),
            encodings_ok(encodings@),
            2 + build_cost(*regex, encodings@) <= usize::MAX,
        ensures
            r.wf(),
            2 <= r.states@.len() <= 2 + build_cost(*regex, encodings@),
            r.states@[1].maybe_accepts_for_rule == Some(rule_idx),
            r.states@[1].transitions.targets().len() == 0,
            r.states@[1].transitions is Interval,
            forall|i: int|
                0 <= i < r.states@.len() && i != 1 ==> (#[trigger] r.states@[i]).maybe_accepts_for_rule is None,
            r.tags@.len() <= tag_bound(*regex, encodings@.len()),
            tag_bound(*regex, encodings@.len()) == 0 ==> forall|i: int|
                0 <= i < r.states@.len() ==> !((#[trigger] r.states@[i]).transitions is Tagged),
            can_match(*regex) ==> reaches(r.states@, 0, 1),
            encodings@.len() == 0 ==> tags_exact(r.tags@, *regex, rule_idx),
            is_leaf(*regex) ==> leaf_moves(r.states@[0].transitions, *regex, NfaIdx(1)),
            is_chain(*regex) ==> exists|path: Seq<int>| #[trigger] chain_between(r.states@, regex->Sequence_0@, path, 0, 1, 2),
            is_leaf_plus(*regex) ==> exists|m: int, st: int, en: int, sk: int|
                #[trigger] loop_layout(r.states@, *regex->KleenePlus_0, m, st, en, sk, 1) && leaf_moves(
                    r.states@[0].transitions,
                    *regex->KleenePlus_0,
                    NfaIdx(m as usize),
                ),
            is_leaf_star(*regex) ==> exists|st: int, en: int, sk: int|
                #[trigger] loop_layout(r.states@, *regex->KleeneClosure_0, 0, st, en, sk, 1),
            is_leaf_bounded(*regex) ==> exists|p: Seq<int>, h: Seq<int>, k: Seq<int>|
                #[trigger] ladder_layout(
                    r.states@,
                    *regex->BoundedRepetition_item,
                    regex->BoundedRepetition_min as int,
                    regex->BoundedRepetition_max as int,
                    p,
                    h,
                    k,
                    1,
                    2,
                ) && p[0] == 0,
        decreases regex, 2nat,
    {
        let mut nfa: Tnfa = Tnfa::new();
        let ghost s0 = nfa.states@;
        let rule_start: NfaIdx = NfaIdx::begin();
        let rule_end: NfaIdx = nfa.new_state();
        let ghost s1 = nfa.states@;
        proof {
            assert(s1[0] == s0[0]);
        }
        let tags: Vec<CaptureTag> = nfa.build_regex_nfa(rule_idx, encodings, regex, rule_start, rule_end);
        let ghost s2 = nfa.states@;
        proof {
            assert(s2[1] == s1[1]);
        }
        let ghost s2b = nfa.states@;
        nfa.set_accepting(rule_end, rule_idx);
        nfa.tags = tags;
        proof {
            if can_match(*regex) {
                let w = choose|w: Seq<int>| #[trigger] is_walk(s2b, w) && w[0] == 0 && w[w.len() - 1] == 1;
                assert forall|i: int| 0 <= i < w.len() - 1 implies #[trigger] step(nfa.states@, w[i], w[i + 1]) by {
                    assert(step(s2b, w[i], w[i + 1]));
                    assert(nfa.states@[w[i]].transitions == s2b[w[i]].transitions);
                }
                assert(is_walk(nfa.states@, w));
            }
            if tag_bound(*regex, encodings@.len()) == 0 {
                assert forall|i: int| 0 <= i < nfa.states@.len() implies !((#[trigger] nfa.states@[i]).transitions is Tagged) by {
                    if i == 1 {
                        assert(s2[1].transitions.targets().len() == 0);
                    } else {
                        assert(nfa.states@[i] == s2[i]);
                    }
                }
            }
            assert forall|i: int|
                0 <= i < nfa.states@.len() && i != 1 implies (#[trigger] nfa.states@[i]).maybe_accepts_for_rule is None by {
                assert(nfa.states@[i] == s2[i]);
                if i == 0 {
                    assert(s2[0].maybe_accepts_for_rule == s1[0].maybe_accepts_for_rule);
                }
            }
            if is_chain(*regex) {
                let items = regex->Sequence_0@;
                let path = choose|path: Seq<int>| #[trigger] chain_between(s2b, items, path, 0, 1, 2);
                assert forall|j: int| 0 <= j < items.len() implies leaf_moves(
                    nfa.states@[path[j]].transitions,
                    #[trigger] items[j],
                    NfaIdx(path[j + 1] as usize),
                ) by {
                    assert(nfa.states@[path[j]].transitions == s2b[path[j]].transitions);
                }
                assert(chain_between(nfa.states@, items, path, 0, 1, 2));
            }
            if is_leaf_plus(*regex) {
                let item = *regex->KleenePlus_0;
                let (m, st, en, sk) = choose|m: int, st: int, en: int, sk: int|
                    #[trigger] loop_layout(s2b, item, m, st, en, sk, 1) && leaf_moves(
                        s2b[0].transitions,
                        item,
                        NfaIdx(m as usize),
                    ) && m >= 2;
                let f = nfa.states@;
                assert(f[0].transitions == s2b[0].transitions);
                assert(f[m].transitions == s2b[m].transitions);
                assert(f[st].transitions == s2b[st].transitions);
                assert(f[en].transitions == s2b[en].transitions);
                assert(f[sk].transitions == s2b[sk].transitions);
                assert(f[1].transitions == s2b[1].transitions);
                assert(loop_layout(f, item, m, st, en, sk, 1));
            }
            if is_leaf_star(*regex) {
                let item = *regex->KleeneClosure_0;
                let (st, en, sk) = choose|st: int, en: int, sk: int| #[trigger] loop_layout(s2b, item, 0, st, en, sk, 1);
                let f = nfa.states@;
                assert(f[0].transitions == s2b[0].transitions);
                assert(f[st].transitions == s2b[st].transitions);
                assert(f[en].transitions == s2b[en].transitions);
                assert(f[sk].transitions == s2b[sk].transitions);
                assert(f[1].transitions == s2b[1].transitions);
                assert(loop_layout(f, item, 0, st, en, sk, 1));
            }
            if is_leaf_bounded(*regex) {
                let item = *regex->BoundedRepetition_item;
                let mn = regex->BoundedRepetition_min as int;
                let mx = regex->BoundedRepetition_max as int;
                let (p, h, k) = choose|p: Seq<int>, h: Seq<int>, k: Seq<int>|
                    #[trigger] ladder_layout(s2b, item, mn, mx, p, h, k, 1, 2) && p[0] == 0;
                let f = nfa.states@;
                assert forall|x: int| 0 <= x < f.len() implies #[trigger] f[x].transitions == s2b[x].transitions by {}
                assert forall|j: int| 0 <= j < mn implies #[trigger] ladder_step(f, item, p, j) by {
                    assert(ladder_step(s2b, item, p, j));
                    assert(f[p[j]].transitions == s2b[p[j]].transitions);
                }
                assert forall|j: int| mn <= j < mx implies #[trigger] ladder_choice(f, item, p, h, k, 1, j) by {
                    assert(ladder_choice(s2b, item, p, h, k, 1, j));
                    assert(f[p[j]].transitions == s2b[p[j]].transitions);
                    assert(f[h[j]].transitions == s2b[h[j]].transitions);
                    assert(f[k[j]].transitions == s2b[k[j]].transitions);
                }
                assert(f[p[mx]].transitions == s2b[p[mx]].transitions);
                assert(ladder_layout(f, item, mn, mx, p, h, k, 1, 2));
            }
        }
        nfa
    }

    /// The automaton for `regex` with no rule and no encodings, for search,
    /// encodings and intersections: as [`Tnfa::for_single_rule`] for the rule
    /// index 0. For a single-character expression, a sequence of them, or one
    /// repeated zero or more or one or more times, it accepts exactly the
    /// strings the expression matches.
    pub fn for_regex(regex: &Regex) -> (r: Tnfa)
        requires
            regex.wf(),
            2 + build_cost(*regex, Seq::empty()) <= usize::MAX,
        ensures
            r.wf(),
            accepting_nil(r.states@),
            2 <= r.states@.len() <= 2 + build_cost(*regex, Seq::empty()),
            r.states@[1].maybe_accepts_for_rule == Some(RuleIdx(0)),
            r.states@[1].transitions is Interval,
            forall|i: int|
                0 <= i < r.states@.len() && i != 1 ==> (#[trigger] r.states@[i]).maybe_accepts_for_rule is None,
            r.tags@.len() <= tag_bound(*regex, 0),
            tag_bound(*regex, 0) == 0 ==> forall|i: int|
                0 <= i < r.states@.len() ==> !((#[trigger] r.states@[i]).transitions is Tagged),
            can_match(*regex) ==> reaches(r.states@, 0, 1),
            tags_exact(r.tags@, *regex, RuleIdx(0)),
            is_leaf(*regex) ==> leaf_moves(r.states@[0].transitions, *regex, NfaIdx(1)),
            is_leaf(*regex) ==> forall|w: Seq<char>|
                #[trigger] accepts_input(r.states@, w) <==> (w.len() == 1 && leaf_has(*regex, w[0] as int)),
            is_chain(*regex) ==> forall|w: Seq<char>|
                #[trigger] accepts_input(r.states@, w) <==> chain_has(regex->Sequence_0@, w),
            is_leaf_plus(*regex) ==> forall|w: Seq<char>|
                #[trigger] accepts_input(r.states@, w) <==> (w.len() >= 1 && all_leaf(
                    *regex->KleenePlus_0,
                    w,
                    w.len() as int,
                )),
            is_leaf_star(*regex) ==> forall|w: Seq<char>|
                #[trigger] accepts_input(r.states@, w) <==> all_leaf(*regex->KleeneClosure_0, w, w.len() as int),
            is_leaf_bounded(*regex) ==> forall|w: Seq<char>|
                #[trigger] accepts_input(r.states@, w) <==> (regex->BoundedRepetition_min <= w.len()
                    <= regex->BoundedRepetition_max && all_leaf(*regex->BoundedRepetition_item, w, w.len() as int)),
            simple_form(*regex) ==> forall|w: Seq<char>| #[trigger] accepts_input(r.states@, w) <==> regex_matches(*regex, w),
        decreases regex, 3nat,
    {
        let none: Vec<Encoding> = Vec::new();
        proof {
            assert(none@ =~= Seq::<Encoding>::empty());
        }
        let r: Tnfa = Self::for_single_rule(RuleIdx::nil(), regex, &none);
        proof {
            if is_leaf(*regex) {
                assert(build_cost(*regex, Seq::empty()) == 0);
                assert forall|w: Seq<char>|
                    #[trigger] accepts_input(r.states@, w) <==> (w.len() == 1 && leaf_has(*regex, w[0] as int)) by {
                    lemma_leaf_language(r.states@, *regex, w);
                }
            }
            if is_chain(*regex) {
                let items = regex->Sequence_0@;
                let path = choose|path: Seq<int>| #[trigger] chain_between(r.states@, items, path, 0, 1, 2);
                assert forall|w: Seq<char>| #[trigger] accepts_input(r.states@, w) <==> chain_has(items, w) by {
                    lemma_chain_language(r.states@, items, path, w);
                }
            }
            if is_leaf_plus(*regex) {
                let item = *regex->KleenePlus_0;
                let (m, st, en, sk) = choose|m: int, st: int, en: int, sk: int|
                    #[trigger] loop_layout(r.states@, item, m, st, en, sk, 1) && leaf_moves(
                        r.states@[0].transitions,
                        item,
                        NfaIdx(m as usize),
                    );
                assert forall|w: Seq<char>|
                    #[trigger] accepts_input(r.states@, w) <==> (w.len() >= 1 && all_leaf(item, w, w.len() as int)) by {
                    lemma_plus_language(r.states@, item, m, st, en, sk, w);
                }
            }
            if is_leaf_star(*regex) {
                let item = *regex->KleeneClosure_0;
                let (st, en, sk) = choose|st: int, en: int, sk: int|
                    #[trigger] loop_layout(r.states@, item, 0, st, en, sk, 1);
                assert forall|w: Seq<char>|
                    #[trigger] accepts_input(r.states@, w) <==> all_leaf(item, w, w.len() as int) by {
                    lemma_star_language(r.states@, item, st, en, sk, w);
                }
            }
            if is_leaf_bounded(*regex) {
                let item = *regex->BoundedRepetition_item;
                let mn = regex->BoundedRepetition_min as int;
                let mx = regex->BoundedRepetition_max as int;
                let (p, h, k) = choose|p: Seq<int>, h: Seq<int>, k: Seq<int>|
                    #[trigger] ladder_layout(r.states@, item, mn, mx, p, h, k, 1, 2) && p[0] == 0;
                assert forall|w: Seq<char>|
                    #[trigger] accepts_input(r.states@, w) <==> (mn <= w.len() <= mx && all_leaf(item, w, w.len() as int)) by {
                    lemma_ladder_language(r.states@, item, mn, mx, p, h, k, w);
                }
            }
            assert forall|w: Seq<char>| simple_form(*regex) implies #[trigger] accepts_input(r.states@, w) <==> regex_matches(
                *regex,
                w,
            ) by {
                if is_leaf(*regex) {
                    lemma_leaf_matches(*regex, w);
                } else if is_chain(*regex) {
                    let items = regex->Sequence_0@;
                    lemma_chain_matches(items, w);
                } else if is_leaf_plus(*regex) {
                    lemma_leaf_repeats(*regex->KleenePlus_0, w, 1, None);
                } else if is_leaf_star(*regex) {
                    lemma_leaf_repeats(*regex->KleeneClosure_0, w, 0, None);
                } else {
                    lemma_leaf_repeats(
                        *regex->BoundedRepetition_item,
                        w,
                        regex->BoundedRepetition_min as nat,
                        Some(regex->BoundedRepetition_max as nat),
                    );
                }
            }
        }
        r
    }
}

} // verus!
