//! The strings a regular expression matches.

use vstd::prelude::*;

use crate::regex::Regex;

verus! {

/// Whether `re` matches all of `w`. A capture or a placeholder matches what
/// its expression matches; a class matches one character inside (or, when
/// negated, outside) its ranges.
pub open spec fn regex_matches(re: Regex, w: Seq<char>) -> bool
    decreases re, w.len(), 0nat,
{
    match re {
        Regex::AnyChar => w.len() == 1,
        Regex::Literal(c) => w == seq![c],
        Regex::Capture(sub_rule) => regex_matches(sub_rule.regex, w),
        Regex::BracketedRanges { negated, items } => w.len() == 1 && (exists|i: int|
            0 <= i < items.len() && (#[trigger] items@[i]).0 as int <= w[0] as int <= items@[i].1 as int) != negated,
        Regex::KleeneClosure(item) => repeats_of(*item, w, 0, None),
        Regex::KleenePlus(item) => repeats_of(*item, w, 1, None),
        Regex::BoundedRepetition { min, max, item } => repeats_of(*item, w, min as nat, Some(max as nat)),
        Regex::Sequence(items) => matches_items(items@, w),
        Regex::Alternation(items) => exists|i: int| 0 <= i < items.len() && regex_matches(#[trigger] items@[i], w),
        Regex::Placeholder { item, .. } => regex_matches(*item, w),
    }
}

/// Whether `w` splits into pieces matched by `items`, one after another.
pub open spec fn matches_items(items: Seq<Regex>, w: Seq<char>) -> bool
    decreases items, w.len(), 0nat,
{
    if items.len() == 0 {
        w.len() == 0
    } else {
        exists|k: int|
            0 <= k <= w.len() && matches_items(items.subrange(0, items.len() - 1), #[trigger] w.subrange(0, k))
                && regex_matches(items[items.len() - 1], w.subrange(k, w.len() as int))
    }
}

/// Whether `w` splits into at least `min` and (when bounded) at most `max`
/// pieces, each matched by `item`.
pub open spec fn repeats_of(item: Regex, w: Seq<char>, min: nat, max: Option<nat>) -> bool
    decreases item, w.len(), 1nat,
{
    if w.len() == 0 {
        min == 0 || regex_matches(item, w)
    } else {
        max != Some(0nat) && exists|k: int|
            1 <= k <= w.len() && regex_matches(item, #[trigger] w.subrange(0, k)) && repeats_of(
                item,
                w.subrange(k, w.len() as int),
                if min > 0 {
                    (min - 1) as nat
                } else {
                    0
                },
                match max {
                    Some(m) => Some((m - 1) as nat),
                    None => None,
                },
            )
    }
}

} // verus!
