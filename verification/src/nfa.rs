//! Tagged nondeterministic finite automata over Unicode scalar values.
//!
//! A [`Tnfa`] is a list of states; state 0 is the start. Each state has
//! transitions of one kind only: on character intervals, spontaneous
//! (priority-ordered epsilon moves), or a single tagged epsilon move that
//! opens or closes a capture. Accepting states carry the rule they accept for.

pub mod regex_construction;
pub mod simulation;
pub mod intersection;
pub mod union;
pub mod concatenation;

use vstd::prelude::*;

use crate::interval_tree::Interval;
use crate::interval_tree::IntervalTree;
use crate::interval_tree::Policy;
use crate::interval_tree::PolicyUnique;
use crate::interval_tree::entries_cover;
use crate::interval_tree::lemma_value_at;
use crate::interval_tree::value_at;
use crate::nfa::concatenation::concat_layout;
use crate::nfa::concatenation::lemma_concat_language;
use crate::nfa::concatenation::split_at;
use crate::nfa::simulation::accepts_input;
use crate::nfa::union::lemma_union_language;
use crate::nfa::union::union_layout;
use crate::parsing_spec::EncodingIdx;
use crate::parsing_spec::RuleIdx;
use crate::parsing_spec::SubRule;
use crate::parsing_spec::equality::lemma_equiv_same;
use crate::parsing_spec::equality::lemma_same_regex_symmetric;
use crate::parsing_spec::equality::lemma_same_regex_transitive;
use crate::parsing_spec::equality::same_sub_rule;
use crate::parsing_spec::equality::sub_rule_eq;

verus! {

/// Index of a state in a [`Tnfa`].
#[derive(Debug, Clone, Copy, PartialEq, Eq, Structural, PartialOrd, Ord, Hash)]
pub struct NfaIdx(pub usize);

impl NfaIdx {
    /// The start state.
    pub fn begin() -> (r: NfaIdx)
        ensures
            r.0 == 0,
    {
        NfaIdx(0)
    }
}

impl Policy<NfaIdx> for PolicyUnique {
    open spec fn allows(&self, existing: NfaIdx, new: NfaIdx) -> bool {
        existing == new
    }

    open spec fn combines(&self, existing: NfaIdx, new: NfaIdx, result: NfaIdx) -> bool {
        result == existing
    }

    fn combine(&self, existing: &mut NfaIdx, new: NfaIdx) {
    }
}

/// The opening or closing tag of a capture.
#[derive(Debug)]
pub struct CaptureTag {
    pub rule_idx: RuleIdx,
    pub sub_rule: SubRule,
    pub maybe_encoding: Option<EncodingIdx>,
    /// Opening tags order before closing ones.
    pub is_close: bool,
}

/// The same tag: the same rule, capture, encoding and side.
pub open spec fn same_tag(a: CaptureTag, b: CaptureTag) -> bool {
    &&& a.rule_idx == b.rule_idx
    &&& same_sub_rule(a.sub_rule, b.sub_rule)
    &&& a.maybe_encoding == b.maybe_encoding
    &&& a.is_close == b.is_close
}

/// No tag occurs twice.
pub open spec fn tags_distinct(tags: Seq<CaptureTag>) -> bool {
    forall|i: int, j: int| 0 <= i < j < tags.len() ==> !same_tag(#[trigger] tags[i], #[trigger] tags[j])
}

/// Some tag of `tags` is the same as `t`.
pub open spec fn has_same_tag(tags: Seq<CaptureTag>, t: CaptureTag) -> bool {
    exists|i: int| 0 <= i < tags.len() && same_tag(#[trigger] tags[i], t)
}

pub proof fn lemma_same_tag_symmetric(a: CaptureTag, b: CaptureTag)
    requires
        same_tag(a, b),
    ensures
        same_tag(b, a),
{
    lemma_same_regex_symmetric(a.sub_rule.regex, b.sub_rule.regex);
}

pub proof fn lemma_same_tag_transitive(a: CaptureTag, b: CaptureTag, c: CaptureTag)
    requires
        same_tag(a, b),
        same_tag(b, c),
    ensures
        same_tag(a, c),
{
    lemma_same_regex_transitive(a.sub_rule.regex, b.sub_rule.regex, c.sub_rule.regex);
}

/// The outgoing transitions of a state, all of one kind.
#[derive(Debug)]
pub enum Transitions {
    /// On the characters of each interval (by code point) to the state beside
    /// it; a state with no transitions at all uses an empty tree.
    Interval(IntervalTree<u32, NfaIdx>),
    /// Priority-ordered epsilon moves.
    Spontaneous(Vec<NfaIdx>),
    /// One epsilon move that sets (`positive`) or clears a tag.
    Tagged { tag: CaptureTag, positive: bool, target: NfaIdx },
}

/// The targets of the entries, in order.
pub open spec fn entry_targets(s: Seq<(Interval<u32>, NfaIdx)>) -> Seq<NfaIdx> {
    Seq::new(s.len(), |i: int| s[i].1)
}

impl Transitions {
    /// The successor states, in order, with repetitions.
    pub open spec fn targets(self) -> Seq<NfaIdx> {
        match self {
            Transitions::Interval(tree) => entry_targets(tree.entries_view()),
            Transitions::Spontaneous(targets) => targets@,
            Transitions::Tagged { target, .. } => seq![target],
        }
    }

    /// Every successor is below `n`.
    pub open spec fn targets_below(self, n: int) -> bool {
        forall|i: int| 0 <= i < self.targets().len() ==> (#[trigger] self.targets()[i]).0 < n
    }

    /// The number of transitions.
    pub fn len(&self) -> (r: usize)
        ensures
            r == self.targets().len(),
    {
        match self {
            Transitions::Interval(tree) => tree.len(),
            Transitions::Spontaneous(targets) => targets.len(),
            Transitions::Tagged { .. } => 1,
        }
    }

    /// The successor states, in order, with repetitions.
    pub fn successors(&self) -> (r: Vec<NfaIdx>)
        ensures
            r@ == self.targets(),
    {
        match self {
            Transitions::Interval(tree) => {
                let entries: &[(Interval<u32>, NfaIdx)] = tree.iter();
                let mut out: Vec<NfaIdx> = Vec::new();
                let mut i: usize = 0;
                while i < entries.len()
                    invariant
                        0 <= i <= entries@.len(),
                        entries@ == tree.entries_view(),
                        out@ == entry_targets(entries@).subrange(0, i as int),
                    decreases entries@.len() - i,
                {
                    out.push(entries[i].1);
                    i = i + 1;
                }
                assert(out@ =~= entry_targets(entries@));
                out
            },
            Transitions::Spontaneous(targets) => {
                let mut out: Vec<NfaIdx> = Vec::new();
                let mut i: usize = 0;
                while i < targets.len()
                    invariant
                        0 <= i <= targets@.len(),
                        out@ == targets@.subrange(0, i as int),
                    decreases targets@.len() - i,
                {
                    out.push(targets[i]);
                    i = i + 1;
                }
                assert(out@ =~= targets@);
                out
            },
            Transitions::Tagged { target, .. } => {
                let mut out: Vec<NfaIdx> = Vec::new();
                out.push(*target);
                assert(out@ =~= seq![*target]);
                out
            },
        }
    }
}

/// `b` is `a` with every target moved up by `off`.
pub open spec fn shifted(a: Transitions, b: Transitions, off: int) -> bool {
    match (a, b) {
        (Transitions::Interval(x), Transitions::Interval(y)) => {
            &&& x.entries_view().len() == y.entries_view().len()
            &&& forall|i: int|
                0 <= i < x.entries_view().len() ==> (#[trigger] y.entries_view()[i]).0 == x.entries_view()[i].0
                    && y.entries_view()[i].1.0 == x.entries_view()[i].1.0 + off
            &&& forall|p: int|
                #[trigger] value_at(y.entries_view(), p) == match value_at(x.entries_view(), p) {
                    Some(v) => Some(NfaIdx((v.0 + off) as usize)),
                    None => None,
                }
        },
        (Transitions::Spontaneous(x), Transitions::Spontaneous(y)) => {
            &&& x.len() == y.len()
            &&& forall|i: int| 0 <= i < x.len() ==> (#[trigger] y@[i]).0 == x@[i].0 + off
        },
        (
            Transitions::Tagged { tag: t1, positive: p1, target: g1 },
            Transitions::Tagged { tag: t2, positive: p2, target: g2 },
        ) => same_tag(t1, t2) && p1 == p2 && g2.0 == g1.0 + off,
        _ => false,
    }
}

/// A state of a [`Tnfa`].
#[derive(Debug)]
pub struct NfaState {
    /// The state's own index in its automaton.
    pub idx: NfaIdx,
    pub transitions: Transitions,
    /// The rule this state accepts for, if it is accepting.
    pub maybe_accepts_for_rule: Option<RuleIdx>,
    /// The encoding of the accepted value, if any.
    pub maybe_encoding: Option<EncodingIdx>,
}

/// A tagged NFA; state 0 is the start.
#[derive(Debug)]
pub struct Tnfa {
    pub states: Vec<NfaState>,
    /// Every tag used by a tagged transition, each once.
    pub tags: Vec<CaptureTag>,
}

/// Each state knows its index and every transition stays inside the list.
pub open spec fn states_wf(states: Seq<NfaState>) -> bool {
    forall|i: int|
        0 <= i < states.len() ==> (#[trigger] states[i]).idx.0 == i && states[i].transitions.targets_below(
            states.len() as int,
        )
}

/// `b` is `a` moved up by `off`: the same state with the index and all targets
/// shifted.
pub open spec fn state_shifted(a: NfaState, b: NfaState, off: int) -> bool {
    &&& b.idx.0 == a.idx.0 + off
    &&& shifted(a.transitions, b.transitions, off)
    &&& b.maybe_accepts_for_rule == a.maybe_accepts_for_rule
    &&& b.maybe_encoding == a.maybe_encoding
}

/// Every accepting state accepts for no rule and has no transitions, as
/// automata built for search, encodings and intersections have.
pub open spec fn accepting_nil(states: Seq<NfaState>) -> bool {
    forall|i: int|
        0 <= i < states.len() && (#[trigger] states[i]).maybe_accepts_for_rule is Some
            ==> states[i].maybe_accepts_for_rule == Some(RuleIdx(0)) && states[i].transitions.targets().len()
            == 0
}

impl Tnfa {
    /// A valid automaton: a start state, consistent indices, and distinct tags.
    pub open spec fn wf(&self) -> bool {
        &&& self.states.len() >= 1
        &&& states_wf(self.states@)
        &&& tags_distinct(self.tags@)
    }
}

/// The state `i` can reach an accepting state in at most `k` transitions of
/// any kind.
pub open spec fn reaches_within(states: Seq<NfaState>, i: int, k: nat) -> bool
    decreases k,
{
    if k == 0 {
        states[i].maybe_accepts_for_rule is Some
    } else {
        reaches_within(states, i, (k - 1) as nat) || exists|t: int|
            0 <= t < states[i].transitions.targets().len() && reaches_within(
                states,
                (#[trigger] states[i].transitions.targets()[t]).0 as int,
                (k - 1) as nat,
            )
    }
}

/// The state `i` can reach an accepting state.
pub open spec fn live(states: Seq<NfaState>, i: int) -> bool {
    exists|k: nat| reaches_within(states, i, k)
}

/// The number of `false` entries.
pub open spec fn count_false(s: Seq<bool>) -> nat
    decreases s.len(),
{
    if s.len() == 0 {
        0
    } else {
        count_false(s.drop_last()) + if s.last() {
            0nat
        } else {
            1nat
        }
    }
}

pub proof fn lemma_count_false_set(s: Seq<bool>, i: int)
    requires
        0 <= i < s.len(),
        !s[i],
    ensures
        count_false(s.update(i, true)) + 1 == count_false(s),
    decreases s.len(),
{
    if i < s.len() - 1 {
        lemma_count_false_set(s.drop_last(), i);
        assert(s.update(i, true).drop_last() =~= s.drop_last().update(i, true));
    } else {
        assert(s.update(i, true).drop_last() =~= s.drop_last());
    }
}

pub proof fn lemma_count_false_bound(s: Seq<bool>)
    ensures
        count_false(s) <= s.len(),
    decreases s.len(),
{
    if s.len() > 0 {
        lemma_count_false_bound(s.drop_last());
    }
}

/// A set of states that holds every accepting state and every state with a
/// successor in it holds every live state.
proof fn lemma_closed_holds_live(states: Seq<NfaState>, marked: Seq<bool>, i: int, k: nat)
    requires
        states_wf(states),
        marked.len() == states.len(),
        0 <= i < states.len(),
        forall|j: int| 0 <= j < states.len() && (#[trigger] states[j]).maybe_accepts_for_rule is Some ==> marked[j],
        forall|j: int, t: int|
            0 <= j < states.len() && 0 <= t < states[j].transitions.targets().len() && marked[
                (#[trigger] states[j].transitions.targets()[t]).0 as int] ==> marked[j],
        reaches_within(states, i, k),
    ensures
        marked[i],
    decreases k,
{
    if k > 0 {
        if reaches_within(states, i, (k - 1) as nat) {
            lemma_closed_holds_live(states, marked, i, (k - 1) as nat);
        } else {
            let t = choose|t: int|
                0 <= t < states[i].transitions.targets().len() && reaches_within(
                    states,
                    (#[trigger] states[i].transitions.targets()[t]).0 as int,
                    (k - 1) as nat,
                );
            let j = states[i].transitions.targets()[t].0 as int;
            assert(states[i].transitions.targets_below(states.len() as int));
            lemma_closed_holds_live(states, marked, j, (k - 1) as nat);
        }
    }
}

impl NfaState {
    pub fn is_accepting(&self) -> (r: bool)
        ensures
            r == (self.maybe_accepts_for_rule is Some),
    {
        self.maybe_accepts_for_rule.is_some()
    }
}

impl Tnfa {
    /// An automaton with only the start state, which has no transitions and
    /// does not accept.
    pub fn new() -> (r: Tnfa)
        ensures
            r.wf(),
            r.states.len() == 1,
            r.states@[0].transitions.targets().len() == 0,
            r.states@[0].transitions is Interval,
            r.states@[0].maybe_accepts_for_rule is None,
            r.states@[0].maybe_encoding is None,
            r.tags@.len() == 0,
    {
        let mut states: Vec<NfaState> = Vec::new();
        states.push(
            NfaState {
                idx: NfaIdx::begin(),
                transitions: Transitions::Interval(IntervalTree::new()),
                maybe_accepts_for_rule: None,
                maybe_encoding: None,
            },
        );
        let r = Tnfa { states, tags: Vec::new() };
        assert(r.states@[0].transitions.targets() =~= Seq::<NfaIdx>::empty());
        r
    }

    /// The tags of the captures, each once.
    pub fn tags(&self) -> (r: &Vec<CaptureTag>)
        ensures
            r@ == self.tags@,
    {
        &self.tags
    }

    /// Appends a state with no transitions that does not accept.
    pub fn new_state(&mut self) -> (r: NfaIdx)
        requires
            old(self).states.len() < usize::MAX,
        ensures
            r.0 == old(self).states.len(),
            final(self).states@.len() == old(self).states@.len() + 1,
            final(self).states@.subrange(0, r.0 as int) == old(self).states@,
            final(self).states@[r.0 as int].idx == r,
            final(self).states@[r.0 as int].transitions is Interval,
            final(self).states@[r.0 as int].transitions.targets().len() == 0,
            final(self).states@[r.0 as int].maybe_accepts_for_rule is None,
            final(self).states@[r.0 as int].maybe_encoding is None,
            final(self).tags@ == old(self).tags@,
            extends_at(old(self).states@, final(self).states@, -1),
            untagged_from(old(self).states@, final(self).states@, -1),
            states_wf(old(self).states@) ==> states_wf(final(self).states@),
    {
        let idx: NfaIdx = NfaIdx(self.states.len());
        self.states.push(
            NfaState {
                idx,
                transitions: Transitions::Interval(IntervalTree::new()),
                maybe_accepts_for_rule: None,
                maybe_encoding: None,
            },
        );
        assert(self.states@.subrange(0, idx.0 as int) =~= old(self).states@);
        assert(self.states@[idx.0 as int].transitions.targets() =~= Seq::<NfaIdx>::empty());
        proof {
            assert forall|i: int| 0 <= i < old(self).states@.len() implies #[trigger] self.states@[i]
                == old(self).states@[i] by {
                assert(self.states@.subrange(0, idx.0 as int)[i] == self.states@[i]);
            }
            if states_wf(old(self).states@) {
                assert forall|i: int| 0 <= i < self.states@.len() implies (#[trigger] self.states@[i]).idx.0 == i
                    && self.states@[i].transitions.targets_below(self.states@.len() as int) by {
                    if i < idx.0 {
                        assert(self.states@[i] == old(self).states@[i]);
                        assert(old(self).states@[i].transitions.targets_below(old(self).states@.len() as int));
                    }
                }
            }
        }
        idx
    }

    /// For each state, whether it can reach an accepting state.
    pub fn compute_live_states(&self) -> (r: Vec<bool>)
        requires
            states_wf(self.states@),
        ensures
            r@.len() == self.states@.len(),
            forall|i: int| 0 <= i < r@.len() ==> r@[i] == live(self.states@, i),
    {
        let ghost states = self.states@;
        let n: usize = self.states.len();
        let mut acceptable: Vec<bool> = Vec::new();
        let mut i: usize = 0;
        while i < n
            invariant
                n == states.len(),
                states == self.states@,
                0 <= i <= n,
                acceptable@.len() == i,
                forall|j: int| 0 <= j < i ==> acceptable@[j] == (states[j].maybe_accepts_for_rule is Some),
            decreases n - i,
        {
            acceptable.push(self.states[i].is_accepting());
            i = i + 1;
        }
        proof {
            assert forall|j: int| 0 <= j < n && #[trigger] acceptable@[j] implies live(states, j) by {
                assert(reaches_within(states, j, 0));
            }
        }
        let mut changed: bool = true;
        while changed
            invariant
                n == states.len(),
                states == self.states@,
                states_wf(states),
                acceptable@.len() == n,
                forall|j: int|
                    0 <= j < n && (#[trigger] states[j]).maybe_accepts_for_rule is Some ==> acceptable@[j],
                forall|j: int| 0 <= j < n && #[trigger] acceptable@[j] ==> live(states, j),
                !changed ==> forall|j: int, t: int|
                    0 <= j < n && 0 <= t < states[j].transitions.targets().len()
                        && acceptable@[(#[trigger] states[j].transitions.targets()[t]).0 as int] ==> acceptable@[j],
            decreases count_false(acceptable@) + if changed {
                1nat
            } else {
                0nat
            },
        {
            let ghost before = acceptable@;
            changed = false;
            let mut j: usize = 0;
            while j < n
                invariant
                    n == states.len(),
                    states == self.states@,
                    states_wf(states),
                    acceptable@.len() == n,
                    0 <= j <= n,
                    forall|a: int|
                        0 <= a < n && (#[trigger] states[a]).maybe_accepts_for_rule is Some ==> acceptable@[a],
                    forall|a: int| 0 <= a < n && #[trigger] acceptable@[a] ==> live(states, a),
                    !changed ==> acceptable@ == before,
                    changed ==> count_false(acceptable@) < count_false(before),
                    !changed ==> forall|a: int, t: int|
                        0 <= a < j && 0 <= t < states[a].transitions.targets().len()
                            && acceptable@[(#[trigger] states[a].transitions.targets()[t]).0 as int] ==> acceptable@[a],
                decreases n - j,
            {
                let targets: Vec<NfaIdx> = self.states[j].transitions.successors();
                let ghost jj = j as int;
                let mut t: usize = 0;
                while t < targets.len()
                    invariant
                        n == states.len(),
                        states == self.states@,
                        states_wf(states),
                        acceptable@.len() == n,
                        0 <= j < n,
                        jj == j,
                        targets@ == states[jj].transitions.targets(),
                        0 <= t <= targets@.len(),
                        forall|a: int|
                            0 <= a < n && (#[trigger] states[a]).maybe_accepts_for_rule is Some
                                ==> acceptable@[a],
                        forall|a: int| 0 <= a < n && #[trigger] acceptable@[a] ==> live(states, a),
                        !changed ==> acceptable@ == before,
                        changed ==> count_false(acceptable@) < count_false(before),
                        !changed ==> forall|a: int, u: int|
                            0 <= a < j && 0 <= u < states[a].transitions.targets().len()
                                && acceptable@[(#[trigger] states[a].transitions.targets()[u]).0 as int] ==> acceptable@[a],
                        !changed ==> forall|u: int|
                            0 <= u < t && acceptable@[(#[trigger] targets@[u]).0 as int] ==> acceptable@[jj],
                    decreases targets@.len() - t,
                {
                    proof {
                        assert(states[jj].transitions.targets_below(n as int));
                        assert(targets@[t as int] == states[jj].transitions.targets()[t as int]);
                    }
                    let target: usize = targets[t].0;
                    if acceptable[target] && !acceptable[j] {
                        proof {
                            let k = choose|k: nat| reaches_within(states, target as int, k);
                            assert(reaches_within(states, jj, k + 1));
                            lemma_count_false_set(acceptable@, jj);
                        }
                        acceptable.set(j, true);
                        changed = true;
                    }
                    t = t + 1;
                }
                j = j + 1;
            }
            proof {
                lemma_count_false_bound(acceptable@);
            }
        }
        proof {
            assert forall|a: int| 0 <= a < n implies acceptable@[a] == live(states, a) by {
                if live(states, a) {
                    let k = choose|k: nat| reaches_within(states, a, k);
                    lemma_closed_holds_live(states, acceptable@, a, k);
                }
            }
        }
        acceptable
    }

    /// Whether the start state can reach an accepting state.
    pub fn can_accept(&self) -> (r: bool)
        requires
            self.wf(),
        ensures
            r == live(self.states@, 0),
    {
        let live_states: Vec<bool> = self.compute_live_states();
        live_states[0]
    }
}

impl CaptureTag {
    /// A copy with a structurally identical capture.
    pub fn deep_copy(&self) -> (r: CaptureTag)
        ensures
            same_tag(*self, r),
    {
        let sub_rule: SubRule = self.sub_rule.deep_copy();
        proof {
            lemma_equiv_same(sub_rule.regex, self.sub_rule.regex);
            lemma_same_regex_symmetric(sub_rule.regex, self.sub_rule.regex);
        }
        CaptureTag {
            rule_idx: self.rule_idx,
            sub_rule,
            maybe_encoding: self.maybe_encoding,
            is_close: self.is_close,
        }
    }

    /// Whether the two tags are the same.
    pub fn same_as(&self, other: &CaptureTag) -> (r: bool)
        ensures
            r == same_tag(*self, *other),
    {
        let same_encoding: bool = match (self.maybe_encoding, other.maybe_encoding) {
            (None, None) => true,
            (Some(x), Some(y)) => x.0 == y.0,
            _ => false,
        };
        self.rule_idx.0 == other.rule_idx.0 && sub_rule_eq(&self.sub_rule, &other.sub_rule) && same_encoding
            && self.is_close == other.is_close
    }
}

/// Whether some tag of `tags` is the same as `t`.
fn contains_tag(tags: &Vec<CaptureTag>, t: &CaptureTag) -> (r: bool)
    ensures
        r == has_same_tag(tags@, *t),
{
    let mut i: usize = 0;
    while i < tags.len()
        invariant
            0 <= i <= tags@.len(),
            forall|k: int| 0 <= k < i ==> !same_tag(#[trigger] tags@[k], *t),
        decreases tags@.len() - i,
    {
        if tags[i].same_as(t) {
            return true;
        }
        i = i + 1;
    }
    false
}

/// Adds a copy of each tag of `more` that `tags` lacks, keeping `tags` in
/// front: the result holds the tags of both, each once.
pub fn add_tags(tags: &mut Vec<CaptureTag>, more: &Vec<CaptureTag>)
    requires
        tags_distinct(old(tags)@),
    ensures
        tags_distinct(final(tags)@),
        final(tags)@.subrange(0, old(tags)@.len() as int) == old(tags)@,
        final(tags)@.len() >= old(tags)@.len(),
        final(tags)@.len() <= old(tags)@.len() + more@.len(),
        forall|x: CaptureTag|
            has_same_tag(final(tags)@, x) <==> (has_same_tag(old(tags)@, x) || has_same_tag(more@, x)),
{
    let ghost start = tags@;
    let mut j: usize = 0;
    while j < more.len()
        invariant
            0 <= j <= more@.len(),
            tags_distinct(tags@),
            tags@.len() >= start.len(),
            tags@.len() <= start.len() + j,
            tags@.subrange(0, start.len() as int) == start,
            forall|x: CaptureTag|
                has_same_tag(tags@, x) <==> (has_same_tag(start, x) || has_same_tag(more@.subrange(0, j as int), x)),
        decreases more@.len() - j,
    {
        let ghost before = tags@;
        let ghost m = more@[j as int];
        if !contains_tag(tags, &more[j]) {
            let copy: CaptureTag = more[j].deep_copy();
            tags.push(copy);
            proof {
                assert forall|a: int, b: int| 0 <= a < b < tags@.len() implies !same_tag(
                    #[trigger] tags@[a],
                    #[trigger] tags@[b],
                ) by {
                    if b == before.len() {
                        assert(tags@[a] == before[a]);
                        if same_tag(tags@[a], copy) {
                            lemma_same_tag_symmetric(m, copy);
                            lemma_same_tag_transitive(tags@[a], copy, m);
                        }
                    } else {
                        assert(tags@[a] == before[a]);
                        assert(tags@[b] == before[b]);
                    }
                }
                assert(tags@.subrange(0, start.len() as int) =~= before.subrange(0, start.len() as int));
            }
        }
        proof {
            let sub = more@.subrange(0, j + 1);
            assert(sub =~= more@.subrange(0, j as int).push(m));
            assert forall|x: CaptureTag|
                has_same_tag(tags@, x) <==> (has_same_tag(start, x) || has_same_tag(sub, x)) by {
                if has_same_tag(tags@, x) {
                    let a = choose|a: int| 0 <= a < tags@.len() && same_tag(#[trigger] tags@[a], x);
                    if a < before.len() {
                        assert(tags@[a] == before[a]);
                        assert(has_same_tag(before, x));
                        if has_same_tag(more@.subrange(0, j as int), x) {
                            let c = choose|c: int|
                                0 <= c < j && same_tag(#[trigger] more@.subrange(0, j as int)[c], x);
                            assert(sub[c] == more@.subrange(0, j as int)[c]);
                        }
                    } else {
                        lemma_same_tag_transitive(m, tags@[a], x);
                        assert(sub[j as int] == m);
                    }
                }
                if has_same_tag(start, x) {
                    let a = choose|a: int| 0 <= a < start.len() && same_tag(#[trigger] start[a], x);
                    assert(before[a] == start[a]);
                    assert(tags@[a] == before[a]);
                }
                if has_same_tag(sub, x) {
                    let c = choose|c: int| 0 <= c < sub.len() && same_tag(#[trigger] sub[c], x);
                    if c < j {
                        assert(more@.subrange(0, j as int)[c] == sub[c]);
                        assert(has_same_tag(before, x));
                        let a = choose|a: int| 0 <= a < before.len() && same_tag(#[trigger] before[a], x);
                        assert(tags@[a] == before[a]);
                    } else {
                        assert(sub[c] == m);
                        if has_same_tag(before, m) {
                            let a = choose|a: int| 0 <= a < before.len() && same_tag(#[trigger] before[a], m);
                            assert(tags@[a] == before[a]);
                            lemma_same_tag_transitive(tags@[a], m, x);
                        } else {
                            let last = tags@[before.len() as int];
                            lemma_same_tag_symmetric(m, last);
                            lemma_same_tag_transitive(last, m, x);
                        }
                    }
                }
            }
        }
        j = j + 1;
    }
    proof {
        assert(more@.subrange(0, more@.len() as int) =~= more@);
    }
}

/// The targets of `t`, each moved up by `off`.
pub(crate) fn shift_transitions(t: &Transitions, off: usize) -> (r: Transitions)
    requires
        forall|i: int| 0 <= i < t.targets().len() ==> (#[trigger] t.targets()[i]).0 + off <= usize::MAX,
    ensures
        shifted(*t, r, off as int),
{
    match t {
        Transitions::Interval(tree) => {
            let mut copy: IntervalTree<u32, NfaIdx> = tree.clone();
            proof {
                assert forall|i: int| 0 <= i < copy.entries_view().len() implies (#[trigger] copy.entries_view()[
                i]).1.0 + off <= usize::MAX by {
                    assert(t.targets()[i] == tree.entries_view()[i].1);
                }
            }
            let shift = |v: &NfaIdx| -> (w: NfaIdx)
                requires
                    v.0 + off <= usize::MAX,
                ensures
                    w.0 == v.0 + off,
                {
                    let moved: usize = v.0 + off;
                    NfaIdx(moved)
                };
            copy.map_values(shift);
            let _entries_before = tree.iter();
            let _entries_after = copy.iter();
            proof {
                let xs = tree.entries_view();
                let ys = copy.entries_view();
                assert forall|p: int| #[trigger] value_at(ys, p) == match value_at(xs, p) {
                    Some(v) => Some(NfaIdx((v.0 + off) as usize)),
                    None => None,
                } by {
                    if entries_cover(xs, p) {
                        let i = choose|i: int| 0 <= i < xs.len() && (#[trigger] xs[i]).0.has(p);
                        lemma_value_at(xs, i, p);
                        assert(ys[i].0 == xs[i].0);
                        lemma_value_at(ys, i, p);
                    } else {
                        if entries_cover(ys, p) {
                            let i = choose|i: int| 0 <= i < ys.len() && (#[trigger] ys[i]).0.has(p);
                            assert(xs[i].0 == ys[i].0);
                            assert(xs[i].0.has(p));
                        }
                    }
                }
            }
            Transitions::Interval(copy)
        },
        Transitions::Spontaneous(targets) => {
            let mut out: Vec<NfaIdx> = Vec::new();
            let mut i: usize = 0;
            while i < targets.len()
                invariant
                    0 <= i <= targets@.len(),
                    targets@ == t.targets(),
                    out@.len() == i,
                    forall|k: int| 0 <= k < targets@.len() ==> (#[trigger] targets@[k]).0 + off <= usize::MAX,
                    forall|k: int| 0 <= k < i ==> (#[trigger] out@[k]).0 == targets@[k].0 + off,
                decreases targets@.len() - i,
            {
                out.push(NfaIdx(targets[i].0 + off));
                i = i + 1;
            }
            Transitions::Spontaneous(out)
        },
        Transitions::Tagged { tag, positive, target } => {
            assert(t.targets()[0] == *target);
            Transitions::Tagged { tag: tag.deep_copy(), positive: *positive, target: NfaIdx(target.0 + off) }
        },
    }
}

/// `b` is `a` moved up by `off`, except that an accepting `a` becomes a
/// non-accepting state whose only move is spontaneous, to `target`.
pub open spec fn redirected(a: NfaState, b: NfaState, off: int, target: int) -> bool {
    if a.maybe_accepts_for_rule is Some {
        &&& b.idx.0 == a.idx.0 + off
        &&& b.transitions is Spontaneous
        &&& b.transitions.targets() == seq![NfaIdx(target as usize)]
        &&& b.maybe_accepts_for_rule is None
        &&& b.maybe_encoding == a.maybe_encoding
    } else {
        state_shifted(a, b, off)
    }
}

impl NfaState {
    /// The same state with its index and every target moved up by `offset`.
    pub fn offset_idxes(&self, offset: usize) -> (r: NfaState)
        requires
            self.idx.0 + offset <= usize::MAX,
            forall|i: int|
                0 <= i < self.transitions.targets().len() ==> (#[trigger] self.transitions.targets()[i]).0 + offset
                    <= usize::MAX,
        ensures
            state_shifted(*self, r, offset as int),
    {
        NfaState {
            idx: NfaIdx(self.idx.0 + offset),
            transitions: shift_transitions(&self.transitions, offset),
            maybe_accepts_for_rule: self.maybe_accepts_for_rule,
            maybe_encoding: self.maybe_encoding,
        }
    }

    /// Moved up by `offset`; if accepting, redirected to `target` instead.
    fn redirect(&self, offset: usize, target: usize) -> (r: NfaState)
        requires
            self.idx.0 + offset <= usize::MAX,
            forall|i: int|
                0 <= i < self.transitions.targets().len() ==> (#[trigger] self.transitions.targets()[i]).0 + offset
                    <= usize::MAX,
        ensures
            redirected(*self, r, offset as int, target as int),
    {
        if self.is_accepting() {
            let mut targets: Vec<NfaIdx> = Vec::new();
            targets.push(NfaIdx(target));
            assert(targets@ =~= seq![NfaIdx(target)]);
            NfaState {
                idx: NfaIdx(self.idx.0 + offset),
                transitions: Transitions::Spontaneous(targets),
                maybe_accepts_for_rule: None,
                maybe_encoding: self.maybe_encoding,
            }
        } else {
            self.offset_idxes(offset)
        }
    }
}

/// Targets of transitions that are moved up by `off` stay below `n + off`.
pub(crate) proof fn lemma_shifted_below(a: Transitions, b: Transitions, off: int, n: int)
    requires
        shifted(a, b, off),
        a.targets_below(n),
    ensures
        b.targets_below(n + off),
        b.targets().len() == a.targets().len(),
        forall|i: int| 0 <= i < a.targets().len() ==> (#[trigger] b.targets()[i]).0 == a.targets()[i].0 + off,
{
    match (a, b) {
        (Transitions::Interval(x), Transitions::Interval(y)) => {
            assert forall|i: int| 0 <= i < a.targets().len() implies (#[trigger] b.targets()[i]).0 == a.targets()[
            i].0 + off by {
                assert(y.entries_view()[i].1.0 == x.entries_view()[i].1.0 + off);
            }
        },
        _ => {},
    }
    assert forall|i: int| 0 <= i < b.targets().len() implies (#[trigger] b.targets()[i]).0 < n + off by {
        assert(a.targets()[i].0 < n);
    }
}

impl Tnfa {
    /// The automaton for `self` followed by `other`: the states of `self`,
    /// whose accepting states now move spontaneously to the start of `other`,
    /// then the states of `other`, moved up past them. It accepts the strings
    /// that split into one `self` accepts followed by one `other` accepts.
    pub fn concat(&self, other: &Tnfa) -> (r: Tnfa)
        requires
            self.wf(),
            other.wf(),
            accepting_nil(self.states@),
            forall|i: int|
                0 <= i < other.states@.len() && (#[trigger] other.states@[i]).maybe_accepts_for_rule is Some
                    ==> other.states@[i].maybe_accepts_for_rule == Some(RuleIdx(0)),
            self.states@.len() + other.states@.len() <= usize::MAX,
        ensures
            r.wf(),
            r.states@.len() == self.states@.len() + other.states@.len(),
            forall|i: int|
                0 <= i < self.states@.len() ==> redirected(
                    #[trigger] self.states@[i],
                    r.states@[i],
                    0,
                    self.states@.len() as int,
                ),
            forall|i: int|
                0 <= i < other.states@.len() ==> state_shifted(
                    #[trigger] other.states@[i],
                    r.states@[self.states@.len() + i],
                    self.states@.len() as int,
                ),
            forall|x: CaptureTag|
                has_same_tag(r.tags@, x) <==> (has_same_tag(self.tags@, x) || has_same_tag(other.tags@, x)),
            forall|w: Seq<char>|
                #[trigger] accepts_input(r.states@, w) <==> exists|m: int|
                    #[trigger] split_at(self.states@, other.states@, w, m),
    {
        let n1: usize = self.states.len();
        let n2: usize = other.states.len();
        let mut states: Vec<NfaState> = Vec::new();
        let mut i: usize = 0;
        while i < n1
            invariant
                n1 == self.states@.len(),
                n1 + n2 <= usize::MAX,
                self.wf(),
                n2 >= 1,
                0 <= i <= n1,
                states@.len() == i,
                forall|k: int|
                    0 <= k < i ==> redirected(#[trigger] self.states@[k], states@[k], 0, n1 as int),
                states_wf_below(states@, (n1 + n2) as int),
            decreases n1 - i,
        {
            let ghost st = self.states@[i as int];
            proof {
                assert(st.transitions.targets_below(n1 as int));
            }
            let next: NfaState = self.states[i].redirect(0, n1);
            proof {
                if st.maybe_accepts_for_rule is None {
                    lemma_shifted_below(st.transitions, next.transitions, 0, n1 as int);
                }
            }
            states.push(next);
            proof {
                assert forall|k: int| 0 <= k < states@.len() implies (#[trigger] states@[k]).idx.0 == k
                    && states@[k].transitions.targets_below((n1 + n2) as int) by {
                    if k == i {
                        assert(states@[k] == next);
                    }
                }
            }
            i = i + 1;
        }
        let mut j: usize = 0;
        while j < n2
            invariant
                n1 == self.states@.len(),
                n2 == other.states@.len(),
                n1 + n2 <= usize::MAX,
                other.wf(),
                0 <= j <= n2,
                states@.len() == n1 + j,
                forall|k: int|
                    0 <= k < n1 ==> redirected(#[trigger] self.states@[k], states@[k], 0, n1 as int),
                forall|k: int|
                    0 <= k < j ==> state_shifted(#[trigger] other.states@[k], states@[n1 + k], n1 as int),
                states_wf_below(states@, (n1 + n2) as int),
            decreases n2 - j,
        {
            let ghost st = other.states@[j as int];
            proof {
                assert(st.transitions.targets_below(n2 as int));
            }
            let next: NfaState = other.states[j].offset_idxes(n1);
            proof {
                lemma_shifted_below(st.transitions, next.transitions, n1 as int, n2 as int);
            }
            states.push(next);
            proof {
                assert forall|k: int| 0 <= k < states@.len() implies (#[trigger] states@[k]).idx.0 == k
                    && states@[k].transitions.targets_below((n1 + n2) as int) by {
                    if k == n1 + j {
                        assert(states@[k] == next);
                    }
                }
            }
            j = j + 1;
        }
        let mut tags: Vec<CaptureTag> = Vec::new();
        add_tags(&mut tags, &self.tags);
        add_tags(&mut tags, &other.tags);
        proof {
            assert forall|x: CaptureTag| !has_same_tag(Seq::<CaptureTag>::empty(), x) by {}
            assert(concat_layout(states@, self.states@, other.states@)) by {
                assert forall|k: int| 0 <= k < n1 implies redirected(
                    #[trigger] self.states@[k],
                    states@[0 + k],
                    0,
                    n1 as int,
                ) by {
                    assert(states@[0 + k] == states@[k]);
                }
            }
            assert forall|w: Seq<char>|
                #[trigger] accepts_input(states@, w) <==> exists|m: int|
                    #[trigger] split_at(self.states@, other.states@, w, m) by {
                lemma_concat_language(states@, self.states@, other.states@, w);
            }
        }
        Tnfa { states, tags }
    }

    /// The automaton for either `self` or `other`: a new start state moving
    /// spontaneously to the (moved) start of each, a new accepting end state,
    /// and both automata, whose accepting states now move to the end.
    pub fn or(&self, other: &Tnfa) -> (r: Tnfa)
        requires
            self.wf(),
            other.wf(),
            accepting_nil(self.states@),
            accepting_nil(other.states@),
            2 + self.states@.len() + other.states@.len() <= usize::MAX,
        ensures
            r.wf(),
            accepting_nil(r.states@),
            r.states@.len() == 2 + self.states@.len() + other.states@.len(),
            r.states@[0].transitions is Spontaneous,
            r.states@[0].transitions.targets() == seq![NfaIdx(2), NfaIdx((2 + self.states@.len()) as usize)],
            r.states@[0].maybe_accepts_for_rule is None,
            r.states@[1].transitions.targets().len() == 0,
            r.states@[1].maybe_accepts_for_rule == Some(RuleIdx(0)),
            forall|i: int|
                0 <= i < self.states@.len() ==> redirected(#[trigger] self.states@[i], r.states@[2 + i], 2, 1),
            forall|i: int|
                0 <= i < other.states@.len() ==> redirected(
                    #[trigger] other.states@[i],
                    r.states@[2 + self.states@.len() + i],
                    2 + self.states@.len() as int,
                    1,
                ),
            forall|x: CaptureTag|
                has_same_tag(r.tags@, x) <==> (has_same_tag(self.tags@, x) || has_same_tag(other.tags@, x)),
            forall|w: Seq<char>|
                #[trigger] accepts_input(r.states@, w) <==> accepts_input(self.states@, w) || accepts_input(
                    other.states@,
                    w,
                ),
    {
        let r: Tnfa = self.or_layout(other);
        proof {
            assert(union_layout(r.states@, self.states@, other.states@));
            assert forall|w: Seq<char>|
                #[trigger] accepts_input(r.states@, w) <==> accepts_input(self.states@, w) || accepts_input(
                    other.states@,
                    w,
                ) by {
                lemma_union_language(r.states@, self.states@, other.states@, w);
            }
        }
        r
    }

    /// The states of [`Tnfa::or`], laid out.
    fn or_layout(&self, other: &Tnfa) -> (r: Tnfa)
        requires
            self.wf(),
            other.wf(),
            accepting_nil(self.states@),
            accepting_nil(other.states@),
            2 + self.states@.len() + other.states@.len() <= usize::MAX,
        ensures
            r.wf(),
            accepting_nil(r.states@),
            r.states@.len() == 2 + self.states@.len() + other.states@.len(),
            r.states@[0].transitions is Spontaneous,
            r.states@[0].transitions.targets() == seq![NfaIdx(2), NfaIdx((2 + self.states@.len()) as usize)],
            r.states@[0].maybe_accepts_for_rule is None,
            r.states@[1].transitions.targets().len() == 0,
            r.states@[1].maybe_accepts_for_rule == Some(RuleIdx(0)),
            forall|i: int|
                0 <= i < self.states@.len() ==> redirected(#[trigger] self.states@[i], r.states@[2 + i], 2, 1),
            forall|i: int|
                0 <= i < other.states@.len() ==> redirected(
                    #[trigger] other.states@[i],
                    r.states@[2 + self.states@.len() + i],
                    2 + self.states@.len() as int,
                    1,
                ),
            forall|x: CaptureTag|
                has_same_tag(r.tags@, x) <==> (has_same_tag(self.tags@, x) || has_same_tag(other.tags@, x)),
    {
        let n1: usize = self.states.len();
        let n2: usize = other.states.len();
        let total: usize = 2 + n1 + n2;
        let mut states: Vec<NfaState> = Vec::new();
        let mut starts: Vec<NfaIdx> = Vec::new();
        starts.push(NfaIdx(2));
        starts.push(NfaIdx(2 + n1));
        assert(starts@ =~= seq![NfaIdx(2), NfaIdx((2 + n1) as usize)]);
        states.push(
            NfaState {
                idx: NfaIdx::begin(),
                transitions: Transitions::Spontaneous(starts),
                maybe_accepts_for_rule: None,
                maybe_encoding: None,
            },
        );
        states.push(
            NfaState {
                idx: NfaIdx(1),
                transitions: Transitions::Interval(IntervalTree::new()),
                maybe_accepts_for_rule: Some(RuleIdx::nil()),
                maybe_encoding: None,
            },
        );
        proof {
            assert(states@[1].transitions.targets() =~= Seq::<NfaIdx>::empty());
            assert forall|k: int| 0 <= k < states@.len() implies (#[trigger] states@[k]).idx.0 == k
                && states@[k].transitions.targets_below(total as int) by {}
        }
        let mut i: usize = 0;
        while i < n1
            invariant
                n1 == self.states@.len(),
                n2 == other.states@.len(),
                total == 2 + n1 + n2,
                total <= usize::MAX,
                self.wf(),
                accepting_nil(self.states@),
                0 <= i <= n1,
                states@.len() == 2 + i,
                states@[0].transitions is Spontaneous,
                states@[0].transitions.targets() == seq![NfaIdx(2), NfaIdx((2 + n1) as usize)],
                states@[0].maybe_accepts_for_rule is None,
                states@[1].transitions.targets().len() == 0,
                states@[1].maybe_accepts_for_rule == Some(RuleIdx(0)),
                forall|k: int| 0 <= k < i ==> redirected(#[trigger] self.states@[k], states@[2 + k], 2, 1),
                states_wf_below(states@, total as int),
                accepting_nil(states@),
            decreases n1 - i,
        {
            let ghost st = self.states@[i as int];
            proof {
                assert(st.transitions.targets_below(n1 as int));
            }
            let next: NfaState = self.states[i].redirect(2, 1);
            proof {
                if st.maybe_accepts_for_rule is None {
                    lemma_shifted_below(st.transitions, next.transitions, 2, n1 as int);
                }
            }
            states.push(next);
            proof {
                assert forall|k: int| 0 <= k < states@.len() implies (#[trigger] states@[k]).idx.0 == k
                    && states@[k].transitions.targets_below(total as int) by {
                    if k == 2 + i {
                        assert(states@[k] == next);
                    }
                }
                assert forall|k: int|
                    0 <= k < states@.len() && (#[trigger] states@[k]).maybe_accepts_for_rule is Some implies states@[k].maybe_accepts_for_rule
                    == Some(RuleIdx(0)) && states@[k].transitions.targets().len() == 0 by {
                    if k == 2 + i {
                        assert(states@[k] == next);
                    }
                }
            }
            i = i + 1;
        }
        let mut j: usize = 0;
        while j < n2
            invariant
                n1 == self.states@.len(),
                n2 == other.states@.len(),
                total == 2 + n1 + n2,
                total <= usize::MAX,
                other.wf(),
                accepting_nil(other.states@),
                0 <= j <= n2,
                states@.len() == 2 + n1 + j,
                states@[0].transitions is Spontaneous,
                states@[0].transitions.targets() == seq![NfaIdx(2), NfaIdx((2 + n1) as usize)],
                states@[0].maybe_accepts_for_rule is None,
                states@[1].transitions.targets().len() == 0,
                states@[1].maybe_accepts_for_rule == Some(RuleIdx(0)),
                forall|k: int| 0 <= k < n1 ==> redirected(#[trigger] self.states@[k], states@[2 + k], 2, 1),
                forall|k: int|
                    0 <= k < j ==> redirected(#[trigger] other.states@[k], states@[2 + n1 + k], 2 + n1, 1),
                states_wf_below(states@, total as int),
                accepting_nil(states@),
            decreases n2 - j,
        {
            let ghost st = other.states@[j as int];
            proof {
                assert(st.transitions.targets_below(n2 as int));
            }
            let next: NfaState = other.states[j].redirect(2 + n1, 1);
            proof {
                if st.maybe_accepts_for_rule is None {
                    lemma_shifted_below(st.transitions, next.transitions, 2 + n1, n2 as int);
                }
            }
            states.push(next);
            proof {
                assert forall|k: int| 0 <= k < states@.len() implies (#[trigger] states@[k]).idx.0 == k
                    && states@[k].transitions.targets_below(total as int) by {
                    if k == 2 + n1 + j {
                        assert(states@[k] == next);
                    }
                }
                assert forall|k: int|
                    0 <= k < states@.len() && (#[trigger] states@[k]).maybe_accepts_for_rule is Some implies states@[k].maybe_accepts_for_rule
                    == Some(RuleIdx(0)) && states@[k].transitions.targets().len() == 0 by {
                    if k == 2 + n1 + j {
                        assert(states@[k] == next);
                    }
                }
            }
            j = j + 1;
        }
        let mut tags: Vec<CaptureTag> = Vec::new();
        add_tags(&mut tags, &self.tags);
        add_tags(&mut tags, &other.tags);
        proof {
            assert forall|x: CaptureTag| !has_same_tag(Seq::<CaptureTag>::empty(), x) by {}
        }
        Tnfa { states, tags }
    }
}

/// Each state knows its index and every target is below `n`.
pub open spec fn states_wf_below(states: Seq<NfaState>, n: int) -> bool {
    forall|i: int|
        0 <= i < states.len() ==> (#[trigger] states[i]).idx.0 == i && states[i].transitions.targets_below(n)
}

/// `after` differs from `before` only at `current` (in its transitions) and in
/// states appended after it, which do not accept.
pub open spec fn extends_at(before: Seq<NfaState>, after: Seq<NfaState>, current: int) -> bool {
    &&& after.len() >= before.len()
    &&& forall|i: int| 0 <= i < before.len() && i != current ==> #[trigger] after[i] == before[i]
    &&& 0 <= current < before.len() ==> {
        &&& after[current].idx == before[current].idx
        &&& after[current].maybe_accepts_for_rule == before[current].maybe_accepts_for_rule
        &&& after[current].maybe_encoding == before[current].maybe_encoding
    }
    &&& forall|i: int| before.len() <= i < after.len() ==> (#[trigger] after[i]).maybe_accepts_for_rule is None
}

/// Changing `a` at `x` and then at `y`, where `y` is `x` or was appended,
/// changes `a` at `x`.
pub proof fn lemma_extends_trans(a: Seq<NfaState>, b: Seq<NfaState>, c: Seq<NfaState>, x: int, y: int)
    requires
        extends_at(a, b, x),
        extends_at(b, c, y),
        0 <= x < a.len(),
        y == x || y == -1 || a.len() <= y < b.len(),
    ensures
        extends_at(a, c, x),
{
    if y != x {
        assert(c[x] == b[x]);
    }
    assert forall|i: int| 0 <= i < a.len() && i != x implies #[trigger] c[i] == a[i] by {
        assert(c[i] == b[i]);
    }
    assert forall|i: int| a.len() <= i < c.len() implies (#[trigger] c[i]).maybe_accepts_for_rule is None by {
        if i < b.len() {
            if i != y {
                assert(c[i] == b[i]);
            }
        }
    }
}

/// Appending states and then changing one of them changes nothing of `a`.
pub proof fn lemma_extends_appended(a: Seq<NfaState>, b: Seq<NfaState>, c: Seq<NfaState>, y: int)
    requires
        extends_at(a, b, -1),
        extends_at(b, c, y),
        y == -1 || a.len() <= y < b.len(),
    ensures
        extends_at(a, c, -1),
{
    assert forall|i: int| 0 <= i < a.len() implies #[trigger] c[i] == a[i] by {
        assert(c[i] == b[i]);
    }
    assert forall|i: int| a.len() <= i < c.len() implies (#[trigger] c[i]).maybe_accepts_for_rule is None by {
        if i < b.len() && i != y {
            assert(c[i] == b[i]);
        }
    }
}

/// Appending states and then changing a state of `a` changes `a` there.
pub proof fn lemma_extends_then(a: Seq<NfaState>, b: Seq<NfaState>, c: Seq<NfaState>, y: int)
    requires
        extends_at(a, b, -1),
        extends_at(b, c, y),
        0 <= y < a.len(),
    ensures
        extends_at(a, c, y),
{
    assert forall|i: int| 0 <= i < a.len() && i != y implies #[trigger] c[i] == a[i] by {
        assert(c[i] == b[i]);
    }
    assert(b[y] == a[y]);
    assert forall|i: int| a.len() <= i < c.len() implies (#[trigger] c[i]).maybe_accepts_for_rule is None by {
        if i < b.len() {
            assert(c[i] == b[i]);
        }
    }
}

/// Neither `current` nor any state of `after` appended after `before` has a
/// tagged move.
pub open spec fn untagged_from(before: Seq<NfaState>, after: Seq<NfaState>, current: int) -> bool {
    &&& (0 <= current < after.len() ==> !(after[current].transitions is Tagged))
    &&& forall|i: int| before.len() <= i < after.len() ==> !((#[trigger] after[i]).transitions is Tagged)
}

/// Untagged changes compose like [`extends_at`].
pub proof fn lemma_untagged_trans(
    a: Seq<NfaState>,
    b: Seq<NfaState>,
    c: Seq<NfaState>,
    x: int,
    y: int,
)
    requires
        extends_at(a, b, x),
        extends_at(b, c, y),
        untagged_from(a, b, x),
        untagged_from(b, c, y),
        y == x || y == -1 || a.len() <= y < b.len(),
        x == -1 || 0 <= x < a.len(),
    ensures
        untagged_from(a, c, x),
{
    if 0 <= x < c.len() && x != y {
        assert(c[x] == b[x]);
    }
    assert forall|i: int| a.len() <= i < c.len() implies !((#[trigger] c[i]).transitions is Tagged) by {
        if i < b.len() && i != y {
            assert(c[i] == b[i]);
        }
    }
}

impl Tnfa {
    /// Replaces the transitions of state `idx`.
    pub(crate) fn set_transitions(&mut self, idx: NfaIdx, transitions: Transitions)
        requires
            idx.0 < old(self).states@.len(),
            states_wf(old(self).states@),
            transitions.targets_below(old(self).states@.len() as int),
        ensures
            final(self).states@.len() == old(self).states@.len(),
            states_wf(final(self).states@),
            extends_at(old(self).states@, final(self).states@, idx.0 as int),
            !(transitions is Tagged) ==> untagged_from(old(self).states@, final(self).states@, idx.0 as int),
            final(self).states@[idx.0 as int].transitions == transitions,
            final(self).tags@ == old(self).tags@,
    {
        let st: &NfaState = &self.states[idx.0];
        let state: NfaState = NfaState {
            idx: st.idx,
            transitions,
            maybe_accepts_for_rule: st.maybe_accepts_for_rule,
            maybe_encoding: st.maybe_encoding,
        };
        self.states.set(idx.0, state);
        proof {
            assert forall|i: int| 0 <= i < self.states@.len() implies (#[trigger] self.states@[i]).idx.0 == i
                && self.states@[i].transitions.targets_below(self.states@.len() as int) by {
                if i != idx.0 {
                    assert(self.states@[i] == old(self).states@[i]);
                }
            }
        }
    }

    /// Makes state `idx` accept for `rule`.
    pub(crate) fn set_accepting(&mut self, idx: NfaIdx, rule: RuleIdx)
        requires
            idx.0 < old(self).states@.len(),
            states_wf(old(self).states@),
        ensures
            final(self).states@.len() == old(self).states@.len(),
            states_wf(final(self).states@),
            forall|i: int|
                0 <= i < old(self).states@.len() && i != idx.0 ==> #[trigger] final(self).states@[i]
                    == old(self).states@[i],
            final(self).states@[idx.0 as int].transitions == old(self).states@[idx.0 as int].transitions,
            final(self).states@[idx.0 as int].maybe_accepts_for_rule == Some(rule),
            final(self).states@[idx.0 as int].idx == old(self).states@[idx.0 as int].idx,
            final(self).tags@ == old(self).tags@,
    {
        let mut state: NfaState = self.states.remove(idx.0);
        state.maybe_accepts_for_rule = Some(rule);
        self.states.insert(idx.0, state);
    }
}

} // verus!
