//! What the union of two automata accepts.

use vstd::prelude::*;

use crate::interval_tree::entries_cover;
use crate::interval_tree::value_at;
use crate::nfa::NfaIdx;
use crate::nfa::NfaState;
use crate::nfa::Tnfa;
use crate::nfa::Transitions;
use crate::nfa::accepting_nil;
use crate::nfa::entry_targets;
use crate::nfa::redirected;
use crate::nfa::states_wf;
use crate::nfa::simulation::accepts_input;
use crate::nfa::simulation::char_edge;
use crate::nfa::simulation::configuration;
use crate::nfa::simulation::eps_edge;
use crate::nfa::simulation::eps_reach;
use crate::nfa::simulation::eps_within;

verus! {

/// `big` holds a copy of `small` from `off` on, whose accepting states move
/// without input to `end` instead of accepting.
pub open spec fn embedded(big: Seq<NfaState>, small: Seq<NfaState>, off: int, end: int) -> bool {
    &&& 0 <= off
    &&& off + small.len() <= big.len()
    &&& 0 <= end < big.len()
    &&& big.len() <= usize::MAX
    &&& forall|i: int| 0 <= i < small.len() ==> redirected(#[trigger] small[i], big[off + i], off, end)
}

/// Some accepting state of `states` is a configuration after reading the
/// first `k` characters of `w`.
pub open spec fn accepting_after(states: Seq<NfaState>, w: Seq<char>, k: nat) -> bool {
    exists|j: int|
        0 <= j < states.len() && #[trigger] configuration(states, w, k, j) && states[j].maybe_accepts_for_rule is Some
}

pub(crate) proof fn lemma_eps_step(s: Seq<NfaState>, i: int, j: int, k: int, n: nat)
    requires
        eps_within(s, i, j, n),
        0 <= j < s.len(),
        eps_edge(s, j, k),
    ensures
        eps_within(s, i, k, n + 1),
{
    assert(eps_within(s, i, j, ((n + 1) - 1) as nat));
}

proof fn lemma_eps_trans(s: Seq<NfaState>, i: int, j: int, k: int, n1: nat, n2: nat)
    requires
        eps_within(s, i, j, n1),
        eps_within(s, j, k, n2),
    ensures
        eps_within(s, i, k, n1 + n2),
    decreases n2,
{
    if n2 > 0 {
        if eps_within(s, j, k, (n2 - 1) as nat) {
            lemma_eps_trans(s, i, j, k, n1, (n2 - 1) as nat);
            assert(eps_within(s, i, k, ((n1 + n2) - 1) as nat));
        } else {
            let m = choose|m: int|
                0 <= m < s.len() && eps_within(s, j, m, (n2 - 1) as nat) && #[trigger] eps_edge(s, m, k);
            lemma_eps_trans(s, i, j, m, n1, (n2 - 1) as nat);
            lemma_eps_step(s, i, m, k, (n1 + n2 - 1) as nat);
        }
    }
}

pub(crate) proof fn lemma_eps_reach_trans(s: Seq<NfaState>, i: int, j: int, k: int)
    requires
        eps_reach(s, i, j),
        eps_reach(s, j, k),
    ensures
        eps_reach(s, i, k),
{
    let n1 = choose|n: nat| #[trigger] eps_within(s, i, j, n);
    let n2 = choose|n: nat| #[trigger] eps_within(s, j, k, n);
    lemma_eps_trans(s, i, j, k, n1, n2);
}

pub(crate) proof fn lemma_eps_reach_self(s: Seq<NfaState>, i: int)
    ensures
        eps_reach(s, i, i),
{
    assert(eps_within(s, i, i, 0));
}

pub(crate) proof fn lemma_eps_reach_edge(s: Seq<NfaState>, i: int, j: int)
    requires
        0 <= i < s.len(),
        eps_edge(s, i, j),
    ensures
        eps_reach(s, i, j),
{
    assert(eps_within(s, i, i, 0));
    lemma_eps_step(s, i, i, j, 0);
}

/// Configurations are closed under moves without input.
pub(crate) proof fn lemma_configuration_eps(s: Seq<NfaState>, w: Seq<char>, k: nat, x: int, y: int)
    requires
        configuration(s, w, k, x),
        eps_reach(s, x, y),
    ensures
        configuration(s, w, k, y),
{
    if k == 0 {
        lemma_eps_reach_trans(s, 0, x, y);
    } else {
        let (a, b) = choose|a: int, b: int|
            0 <= a < s.len() && 0 <= b < s.len() && configuration(s, w, (k - 1) as nat, a) && #[trigger] char_edge(
                s,
                a,
                w[k - 1],
                b,
            ) && eps_reach(s, b, x);
        lemma_eps_reach_trans(s, b, x, y);
    }
}

/// A state with a move does not accept.
proof fn lemma_moving_not_accepting(small: Seq<NfaState>, m: int)
    requires
        accepting_nil(small),
        0 <= m < small.len(),
        small[m].transitions.targets().len() > 0,
    ensures
        small[m].maybe_accepts_for_rule is None,
{
}

/// A move without input of the copy is one of the original.
pub(crate) proof fn lemma_embedded_eps(big: Seq<NfaState>, small: Seq<NfaState>, off: int, end: int, m: int, x: int)
    requires
        embedded(big, small, off, end),
        accepting_nil(small),
        states_wf(small),
        0 <= m < small.len(),
    ensures
        eps_edge(big, off + m, x) ==> (small[m].maybe_accepts_for_rule is Some && x == end) || (
        small[m].maybe_accepts_for_rule is None && off <= x < off + small.len() && eps_edge(small, m, x - off)),
        small[m].maybe_accepts_for_rule is None ==> forall|j: int|
            #[trigger] eps_edge(small, m, j) ==> eps_edge(big, off + m, off + j),
{
    assert(redirected(small[m], big[off + m], off, end));
    if small[m].maybe_accepts_for_rule is Some {
        if eps_edge(big, off + m, x) {
            let t = choose|t: int|
                0 <= t < big[off + m].transitions.targets().len() && (#[trigger] big[off
                    + m].transitions.targets()[t]).0 == x;
            assert(big[off + m].transitions.targets() == seq![NfaIdx(end as usize)]);
        }
    } else {
        let a = small[m].transitions;
        let b = big[off + m].transitions;
        if eps_edge(big, off + m, x) {
            let t = choose|t: int| 0 <= t < b.targets().len() && (#[trigger] b.targets()[t]).0 == x;
            match (a, b) {
                (Transitions::Spontaneous(p), Transitions::Spontaneous(q)) => {
                    assert(q@[t].0 == p@[t].0 + off);
                    assert(a.targets()[t].0 < small.len());
                    assert(eps_edge(small, m, x - off));
                },
                (Transitions::Tagged { target: g1, .. }, Transitions::Tagged { target: g2, .. }) => {
                    assert(t == 0);
                    assert(a.targets()[0].0 < small.len());
                    assert(eps_edge(small, m, x - off));
                },
                _ => {},
            }
        }
        assert forall|j: int| #[trigger] eps_edge(small, m, j) implies eps_edge(big, off + m, off + j) by {
            let t = choose|t: int| 0 <= t < a.targets().len() && (#[trigger] a.targets()[t]).0 == j;
            match (a, b) {
                (Transitions::Spontaneous(p), Transitions::Spontaneous(q)) => {
                    assert(q@[t].0 == p@[t].0 + off);
                    assert(b.targets()[t].0 == off + j);
                },
                (Transitions::Tagged { target: g1, .. }, Transitions::Tagged { target: g2, .. }) => {
                    assert(b.targets()[t].0 == off + j);
                },
                _ => {},
            }
        }
    }
}

/// A move on a character of the copy is one of the original.
pub(crate) proof fn lemma_embedded_char(big: Seq<NfaState>, small: Seq<NfaState>, off: int, end: int, m: int, c: char, x: int)
    requires
        embedded(big, small, off, end),
        accepting_nil(small),
        states_wf(small),
        0 <= m < small.len(),
        0 <= x < big.len(),
    ensures
        char_edge(big, off + m, c, x) ==> small[m].maybe_accepts_for_rule is None && off <= x < off + small.len()
            && char_edge(small, m, c, x - off),
        off <= x && char_edge(small, m, c, x - off) ==> char_edge(big, off + m, c, x),
{
    assert(redirected(small[m], big[off + m], off, end));
    let a = small[m].transitions;
    if off <= x && char_edge(small, m, c, x - off) {
        let tree = a->Interval_0;
        assert(entries_cover(tree.entries_view(), c as int));
        let i = choose|i: int| 0 <= i < tree.entries_view().len() && (#[trigger] tree.entries_view()[i]).0.has(c as int);
        assert(a.targets()[i] == tree.entries_view()[i].1);
        lemma_moving_not_accepting(small, m);
    }
    if char_edge(big, off + m, c, x) {
        if small[m].maybe_accepts_for_rule is Some {
            assert(big[off + m].transitions is Spontaneous);
            assert(false);
        }
        let b = big[off + m].transitions;
        let v = value_at(a->Interval_0.entries_view(), c as int);
        assert(v is Some);
        let vi = v->0;
        assert(a.targets_below(small.len() as int));
        let tree = a->Interval_0;
        let i = choose|i: int| 0 <= i < tree.entries_view().len() && (#[trigger] tree.entries_view()[i]).0.has(c as int);
        assert(a.targets()[i] == tree.entries_view()[i].1);
        assert(vi.0 < small.len());
    }
}

/// Moves without input of the original are moves of the copy.
proof fn lemma_embedded_eps_within(
    big: Seq<NfaState>,
    small: Seq<NfaState>,
    off: int,
    end: int,
    i: int,
    j: int,
    n: nat,
)
    requires
        embedded(big, small, off, end),
        accepting_nil(small),
        states_wf(small),
        eps_within(small, i, j, n),
        0 <= i < small.len(),
    ensures
        0 <= j < small.len(),
        eps_within(big, off + i, off + j, n),
    decreases n,
{
    if n > 0 {
        if eps_within(small, i, j, (n - 1) as nat) {
            lemma_embedded_eps_within(big, small, off, end, i, j, (n - 1) as nat);
            assert(eps_within(big, off + i, off + j, ((n - 1) + 1) as nat));
        } else {
            let m = choose|m: int|
                0 <= m < small.len() && eps_within(small, i, m, (n - 1) as nat) && #[trigger] eps_edge(small, m, j);
            lemma_embedded_eps_within(big, small, off, end, i, m, (n - 1) as nat);
            assert(small[m].transitions.targets().len() > 0) by {
                let t = choose|t: int|
                    0 <= t < small[m].transitions.targets().len() && (#[trigger] small[m].transitions.targets()[t]).0
                        == j;
            }
            lemma_moving_not_accepting(small, m);
            lemma_embedded_eps(big, small, off, end, m, off + j);
            assert(eps_edge(big, off + m, off + j));
            let t = choose|t: int|
                0 <= t < small[m].transitions.targets().len() && (#[trigger] small[m].transitions.targets()[t]).0 == j;
            assert(small[m].transitions.targets_below(small.len() as int));
            lemma_eps_step(big, off + i, off + m, off + j, (n - 1) as nat);
        }
    }
}

/// Configurations of the original are configurations of the copy, where
/// the copy's start is reached without input from the start of `big`.
pub(crate) proof fn lemma_embedded_configuration(
    big: Seq<NfaState>,
    small: Seq<NfaState>,
    off: int,
    end: int,
    w: Seq<char>,
    k: nat,
    j: int,
)
    requires
        embedded(big, small, off, end),
        accepting_nil(small),
        states_wf(small),
        small.len() >= 1,
        big.len() <= usize::MAX,
        eps_reach(big, 0, off),
        configuration(small, w, k, j),
        k <= w.len(),
    ensures
        0 <= j < small.len(),
        configuration(big, w, k, off + j),
    decreases k,
{
    if k == 0 {
        let n = choose|n: nat| #[trigger] eps_within(small, 0, j, n);
        lemma_embedded_eps_within(big, small, off, end, 0, j, n);
        assert(eps_reach(big, off, off + j));
        lemma_eps_reach_trans(big, 0, off, off + j);
    } else {
        let (a, b) = choose|a: int, b: int|
            0 <= a < small.len() && 0 <= b < small.len() && configuration(small, w, (k - 1) as nat, a)
                && #[trigger] char_edge(small, a, w[k - 1], b) && eps_reach(small, b, j);
        lemma_embedded_configuration(big, small, off, end, w, (k - 1) as nat, a);
        assert(small[a].transitions.targets_below(small.len() as int));
        lemma_embedded_char(big, small, off, end, a, w[k - 1], off + b);
        let n = choose|n: nat| #[trigger] eps_within(small, b, j, n);
        lemma_embedded_eps_within(big, small, off, end, b, j, n);
        assert(eps_reach(big, off + b, off + j));
        assert(char_edge(big, off + a, w[k - 1], off + b));
        assert(0 <= off + b < big.len());
    }
}

/// The layout of the union of `a` and `b`: a start moving without input to
/// the two copies, an accepting end without moves, and the copies, whose
/// accepting states move to the end.
pub open spec fn union_layout(r: Seq<NfaState>, a: Seq<NfaState>, b: Seq<NfaState>) -> bool {
    &&& r.len() == 2 + a.len() + b.len()
    &&& a.len() >= 1
    &&& b.len() >= 1
    &&& r[0].transitions is Spontaneous
    &&& r[0].transitions.targets() == seq![NfaIdx(2), NfaIdx((2 + a.len()) as usize)]
    &&& r[0].maybe_accepts_for_rule is None
    &&& r[1].transitions.targets().len() == 0
    &&& r[1].maybe_accepts_for_rule is Some
    &&& embedded(r, a, 2, 1)
    &&& embedded(r, b, 2 + a.len() as int, 1)
}

/// What a configuration of the union after `k` characters stands for: the
/// start before reading, a configuration of either copy, or the end once
/// either accepts.
spec fn union_config(a: Seq<NfaState>, b: Seq<NfaState>, w: Seq<char>, k: nat, x: int) -> bool {
    ||| (x == 0 && k == 0)
    ||| (2 <= x < 2 + a.len() && configuration(a, w, k, x - 2))
    ||| (2 + a.len() <= x < 2 + a.len() + b.len() && configuration(b, w, k, x - 2 - a.len()))
    ||| (x == 1 && (accepting_after(a, w, k) || accepting_after(b, w, k)))
}

/// A move without input from a copy's state keeps what the configuration
/// stands for.
proof fn lemma_copy_eps(r: Seq<NfaState>, small: Seq<NfaState>, off: int, w: Seq<char>, k: nat, m: int, x: int)
    requires
        embedded(r, small, off, 1),
        accepting_nil(small),
        states_wf(small),
        0 <= m < small.len(),
        configuration(small, w, k, m),
        eps_edge(r, off + m, x),
    ensures
        (x == 1 && accepting_after(small, w, k)) || (off <= x < off + small.len() && configuration(small, w, k, x - off)),
{
    lemma_embedded_eps(r, small, off, 1, m, x);
    if small[m].maybe_accepts_for_rule is None {
        lemma_eps_reach_edge(small, m, x - off);
        lemma_configuration_eps(small, w, k, m, x - off);
    }
}

proof fn lemma_union_eps(r: Seq<NfaState>, a: Seq<NfaState>, b: Seq<NfaState>, w: Seq<char>, k: nat, i: int, x: int, n: nat)
    requires
        union_layout(r, a, b),
        accepting_nil(a),
        accepting_nil(b),
        states_wf(a),
        states_wf(b),
        union_config(a, b, w, k, i),
        eps_within(r, i, x, n),
    ensures
        union_config(a, b, w, k, x),
    decreases n,
{
    if n > 0 {
        if eps_within(r, i, x, (n - 1) as nat) {
            lemma_union_eps(r, a, b, w, k, i, x, (n - 1) as nat);
        } else {
            let m = choose|m: int|
                0 <= m < r.len() && eps_within(r, i, m, (n - 1) as nat) && #[trigger] eps_edge(r, m, x);
            lemma_union_eps(r, a, b, w, k, i, m, (n - 1) as nat);
            let n1 = a.len() as int;
            if m == 0 {
                let t = choose|t: int| 0 <= t < r[0].transitions.targets().len() && (#[trigger] r[0].transitions.targets()[t]).0 == x;
                lemma_eps_reach_self(a, 0);
                lemma_eps_reach_self(b, 0);
                assert(configuration(a, w, 0, 0));
                assert(configuration(b, w, 0, 0));
                if t == 0 {
                    assert(x == 2);
                } else {
                    assert(x == 2 + n1);
                }
            } else if m == 1 {
                let t = choose|t: int| 0 <= t < r[1].transitions.targets().len() && (#[trigger] r[1].transitions.targets()[t]).0 == x;
            } else if m < 2 + n1 {
                lemma_copy_eps(r, a, 2, w, k, m - 2, x);
            } else {
                lemma_copy_eps(r, b, 2 + n1, w, k, m - 2 - n1, x);
            }
        }
    }
}

/// A move on a character from a copy's state leads to a configuration of
/// that copy after one more character.
proof fn lemma_copy_char(r: Seq<NfaState>, small: Seq<NfaState>, off: int, w: Seq<char>, k: nat, m: int, x: int)
    requires
        embedded(r, small, off, 1),
        accepting_nil(small),
        states_wf(small),
        0 <= m < small.len(),
        0 <= x < r.len(),
        k < w.len(),
        configuration(small, w, k, m),
        char_edge(r, off + m, w[k as int], x),
    ensures
        off <= x < off + small.len(),
        configuration(small, w, k + 1, x - off),
{
    lemma_embedded_char(r, small, off, 1, m, w[k as int], x);
    lemma_eps_reach_self(small, x - off);
    assert(w[(k + 1) - 1] == w[k as int]);
    assert(configuration(small, w, (k + 1) as nat, x - off));
}

proof fn lemma_union_configuration(r: Seq<NfaState>, a: Seq<NfaState>, b: Seq<NfaState>, w: Seq<char>, k: nat, x: int)
    requires
        union_layout(r, a, b),
        accepting_nil(a),
        accepting_nil(b),
        states_wf(a),
        states_wf(b),
        configuration(r, w, k, x),
        k <= w.len(),
    ensures
        union_config(a, b, w, k, x),
    decreases k,
{
    if k == 0 {
        let n = choose|n: nat| #[trigger] eps_within(r, 0, x, n);
        lemma_union_eps(r, a, b, w, 0, 0, x, n);
    } else {
        let (p, q) = choose|p: int, q: int|
            0 <= p < r.len() && 0 <= q < r.len() && configuration(r, w, (k - 1) as nat, p) && #[trigger] char_edge(
                r,
                p,
                w[k - 1],
                q,
            ) && eps_reach(r, q, x);
        lemma_union_configuration(r, a, b, w, (k - 1) as nat, p);
        let n1 = a.len() as int;
        let c = w[k - 1];
        if p == 0 {
            assert(!char_edge(r, 0, c, q));
        } else if p == 1 {
            let tree = r[1].transitions->Interval_0;
            assert(entries_cover(tree.entries_view(), c as int));
            assert(entry_targets(tree.entries_view()).len() == tree.entries_view().len());
        } else if p < 2 + n1 {
            lemma_copy_char(r, a, 2, w, (k - 1) as nat, p - 2, q);
        } else {
            lemma_copy_char(r, b, 2 + n1, w, (k - 1) as nat, p - 2 - n1, q);
        }
        assert(union_config(a, b, w, k, q));
        let n = choose|n: nat| #[trigger] eps_within(r, q, x, n);
        lemma_union_eps(r, a, b, w, k, q, x, n);
    }
}

/// What one copy accepts, the union accepts.
proof fn lemma_union_accepts_copy(r: Seq<NfaState>, small: Seq<NfaState>, off: int, t: int, w: Seq<char>)
    requires
        embedded(r, small, off, 1),
        accepting_nil(small),
        states_wf(small),
        small.len() >= 1,
        r[1].maybe_accepts_for_rule is Some,
        r[0].transitions is Spontaneous,
        0 <= t < r[0].transitions.targets().len(),
        r[0].transitions.targets()[t].0 == off,
        accepts_input(small, w),
    ensures
        accepts_input(r, w),
{
    let j = choose|j: int|
        0 <= j < small.len() && #[trigger] configuration(small, w, w.len(), j) && small[j].maybe_accepts_for_rule is Some;
    assert(eps_edge(r, 0, off));
    lemma_eps_reach_edge(r, 0, off);
    lemma_embedded_configuration(r, small, off, 1, w, w.len(), j);
    assert(redirected(small[j], r[off + j], off, 1));
    assert(r[off + j].transitions.targets()[0].0 == 1);
    assert(eps_edge(r, off + j, 1));
    lemma_eps_reach_edge(r, off + j, 1);
    lemma_configuration_eps(r, w, w.len(), off + j, 1);
}

/// The union accepts exactly what either automaton accepts.
pub proof fn lemma_union_language(r: Seq<NfaState>, a: Seq<NfaState>, b: Seq<NfaState>, w: Seq<char>)
    requires
        union_layout(r, a, b),
        accepting_nil(a),
        accepting_nil(b),
        states_wf(a),
        states_wf(b),
    ensures
        accepts_input(r, w) <==> accepts_input(a, w) || accepts_input(b, w),
{
    let n1 = a.len() as int;
    if accepts_input(r, w) {
        let x = choose|x: int|
            0 <= x < r.len() && #[trigger] configuration(r, w, w.len(), x) && r[x].maybe_accepts_for_rule is Some;
        lemma_union_configuration(r, a, b, w, w.len(), x);
        if 2 <= x < 2 + n1 {
            assert(redirected(a[x - 2], r[2 + (x - 2)], 2, 1));
        } else if 2 + n1 <= x {
            assert(redirected(b[x - 2 - n1], r[2 + n1 + (x - 2 - n1)], 2 + n1, 1));
        }
    }
    if accepts_input(a, w) {
        assert(r[0].transitions.targets()[0].0 == 2);
        lemma_union_accepts_copy(r, a, 2, 0, w);
    }
    if accepts_input(b, w) {
        assert(r[0].transitions.targets()[1].0 == 2 + n1);
        lemma_union_accepts_copy(r, b, 2 + n1, 1, w);
    }
}

} // verus!
