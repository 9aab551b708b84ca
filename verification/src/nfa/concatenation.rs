//! What the concatenation of two automata accepts.

use vstd::prelude::*;

use crate::interval_tree::entries_cover;
use crate::interval_tree::value_at;
use crate::nfa::NfaState;
use crate::nfa::Transitions;
use crate::nfa::accepting_nil;
use crate::nfa::redirected;
use crate::nfa::state_shifted;
use crate::nfa::states_wf;
use crate::nfa::simulation::accepts_input;
use crate::nfa::simulation::char_edge;
use crate::nfa::simulation::configuration;
use crate::nfa::simulation::eps_edge;
use crate::nfa::simulation::eps_reach;
use crate::nfa::simulation::eps_within;
use crate::nfa::union::accepting_after;
use crate::nfa::union::embedded;
use crate::nfa::union::lemma_configuration_eps;
use crate::nfa::union::lemma_embedded_char;
use crate::nfa::union::lemma_embedded_configuration;
use crate::nfa::union::lemma_embedded_eps;
use crate::nfa::union::lemma_eps_reach_edge;
use crate::nfa::union::lemma_eps_reach_self;
use crate::nfa::union::lemma_eps_step;

verus! {

/// `big` holds a copy of `small` from `off` on, every state moved up by `off`.
pub open spec fn copied(big: Seq<NfaState>, small: Seq<NfaState>, off: int) -> bool {
    &&& 0 <= off
    &&& off + small.len() <= big.len()
    &&& big.len() <= usize::MAX
    &&& forall|i: int| 0 <= i < small.len() ==> state_shifted(#[trigger] small[i], big[off + i], off)
}

/// The layout of the concatenation of `a` and `b`: `a` in place, whose
/// accepting states move without input to the start of `b`, then `b` moved
/// up past it.
pub open spec fn concat_layout(r: Seq<NfaState>, a: Seq<NfaState>, b: Seq<NfaState>) -> bool {
    &&& r.len() == a.len() + b.len()
    &&& a.len() >= 1
    &&& b.len() >= 1
    &&& embedded(r, a, 0, a.len() as int)
    &&& copied(r, b, a.len() as int)
}

/// `w` read as `a` up to `m`, then as `b`.
pub open spec fn split_at(a: Seq<NfaState>, b: Seq<NfaState>, w: Seq<char>, m: int) -> bool {
    &&& 0 <= m <= w.len()
    &&& accepts_input(a, w.subrange(0, m))
    &&& accepts_input(b, w.subrange(m, w.len() as int))
}

/// A move without input of the moved copy is one of the original, and back.
proof fn lemma_copied_eps(big: Seq<NfaState>, small: Seq<NfaState>, off: int, m: int, x: int)
    requires
        copied(big, small, off),
        states_wf(small),
        0 <= m < small.len(),
    ensures
        eps_edge(big, off + m, x) ==> off <= x < off + small.len() && eps_edge(small, m, x - off),
        forall|j: int| #[trigger] eps_edge(small, m, j) ==> eps_edge(big, off + m, off + j),
{
    assert(state_shifted(small[m], big[off + m], off));
    let a = small[m].transitions;
    let b = big[off + m].transitions;
    if eps_edge(big, off + m, x) {
        let t = choose|t: int| 0 <= t < b.targets().len() && (#[trigger] b.targets()[t]).0 == x;
        match (a, b) {
            (Transitions::Spontaneous(p), Transitions::Spontaneous(q)) => {
                assert(q@[t].0 == p@[t].0 + off);
                assert(a.targets()[t].0 < small.len());
                assert(eps_edge(small, m, x - off));
            },
            (Transitions::Tagged { target: g1, .. }, Transitions::Tagged { target: g2, .. }) => {
                assert(t == 0);
                assert(a.targets()[0].0 < small.len());
                assert(eps_edge(small, m, x - off));
            },
            _ => {},
        }
    }
    assert forall|j: int| #[trigger] eps_edge(small, m, j) implies eps_edge(big, off + m, off + j) by {
        let t = choose|t: int| 0 <= t < a.targets().len() && (#[trigger] a.targets()[t]).0 == j;
        match (a, b) {
            (Transitions::Spontaneous(p), Transitions::Spontaneous(q)) => {
                assert(q@[t].0 == p@[t].0 + off);
                assert(b.targets()[t].0 == off + j);
            },
            (Transitions::Tagged { target: g1, .. }, Transitions::Tagged { target: g2, .. }) => {
                assert(b.targets()[t].0 == off + j);
            },
            _ => {},
        }
    }
}

/// A move on a character of the moved copy is one of the original, and back.
proof fn lemma_copied_char(big: Seq<NfaState>, small: Seq<NfaState>, off: int, m: int, c: char, x: int)
    requires
        copied(big, small, off),
        states_wf(small),
        0 <= m < small.len(),
        0 <= x < big.len(),
    ensures
        char_edge(big, off + m, c, x) ==> off <= x < off + small.len() && char_edge(small, m, c, x - off),
        off <= x && char_edge(small, m, c, x - off) ==> char_edge(big, off + m, c, x),
{
    assert(state_shifted(small[m], big[off + m], off));
    let a = small[m].transitions;
    if off <= x && char_edge(small, m, c, x - off) {
        let tree = a->Interval_0;
        assert(entries_cover(tree.entries_view(), c as int));
        let i = choose|i: int| 0 <= i < tree.entries_view().len() && (#[trigger] tree.entries_view()[i]).0.has(c as int);
        assert(a.targets()[i] == tree.entries_view()[i].1);
    }
    if char_edge(big, off + m, c, x) {
        let v = value_at(a->Interval_0.entries_view(), c as int);
        assert(v is Some);
        let vi = v->0;
        assert(a.targets_below(small.len() as int));
        let tree = a->Interval_0;
        let i = choose|i: int| 0 <= i < tree.entries_view().len() && (#[trigger] tree.entries_view()[i]).0.has(c as int);
        assert(a.targets()[i] == tree.entries_view()[i].1);
        assert(vi.0 < small.len());
    }
}

/// Moves without input of the original are moves of the moved copy.
proof fn lemma_copied_eps_within(big: Seq<NfaState>, small: Seq<NfaState>, off: int, i: int, j: int, n: nat)
    requires
        copied(big, small, off),
        states_wf(small),
        eps_within(small, i, j, n),
        0 <= i < small.len(),
    ensures
        0 <= j < small.len(),
        eps_within(big, off + i, off + j, n),
    decreases n,
{
    if n > 0 {
        if eps_within(small, i, j, (n - 1) as nat) {
            lemma_copied_eps_within(big, small, off, i, j, (n - 1) as nat);
            assert(eps_within(big, off + i, off + j, ((n - 1) + 1) as nat));
        } else {
            let m = choose|m: int|
                0 <= m < small.len() && eps_within(small, i, m, (n - 1) as nat) && #[trigger] eps_edge(small, m, j);
            lemma_copied_eps_within(big, small, off, i, m, (n - 1) as nat);
            lemma_copied_eps(big, small, off, m, off + j);
            assert(eps_edge(big, off + m, off + j));
            let t = choose|t: int|
                0 <= t < small[m].transitions.targets().len() && (#[trigger] small[m].transitions.targets()[t]).0 == j;
            assert(small[m].transitions.targets_below(small.len() as int));
            lemma_eps_step(big, off + i, off + m, off + j, (n - 1) as nat);
        }
    }
}

/// Moves without input from inside the moved copy stay inside it.
proof fn lemma_copied_eps_within_back(big: Seq<NfaState>, small: Seq<NfaState>, off: int, i: int, x: int, n: nat)
    requires
        copied(big, small, off),
        states_wf(small),
        eps_within(big, off + i, x, n),
        0 <= i < small.len(),
    ensures
        off <= x < off + small.len(),
        eps_within(small, i, x - off, n),
    decreases n,
{
    if n == 0 {
        assert(eps_within(small, i, i, 0));
    } else {
        if eps_within(big, off + i, x, (n - 1) as nat) {
            lemma_copied_eps_within_back(big, small, off, i, x, (n - 1) as nat);
            assert(eps_within(small, i, x - off, ((n - 1) + 1) as nat));
        } else {
            let m = choose|m: int|
                0 <= m < big.len() && eps_within(big, off + i, m, (n - 1) as nat) && #[trigger] eps_edge(big, m, x);
            lemma_copied_eps_within_back(big, small, off, i, m, (n - 1) as nat);
            lemma_copied_eps(big, small, off, m - off, x);
            lemma_eps_step(small, i, m - off, x - off, (n - 1) as nat);
        }
    }
}

/// A configuration reached only by the prefix of `w` read so far.
proof fn lemma_configuration_prefix(s: Seq<NfaState>, w1: Seq<char>, w2: Seq<char>, k: nat)
    requires
        k <= w1.len(),
        k <= w2.len(),
        forall|i: int| 0 <= i < k ==> w1[i] == w2[i],
    ensures
        forall|j: int| #[trigger] configuration(s, w1, k, j) == configuration(s, w2, k, j),
    decreases k,
{
    if k > 0 {
        lemma_configuration_prefix(s, w1, w2, (k - 1) as nat);
        assert(w1[k - 1] == w2[k - 1]);
        assert forall|j: int| #[trigger] configuration(s, w1, k, j) == configuration(s, w2, k, j) by {
            if configuration(s, w1, k, j) {
                let (a, b) = choose|a: int, b: int|
                    0 <= a < s.len() && 0 <= b < s.len() && configuration(s, w1, (k - 1) as nat, a)
                        && #[trigger] char_edge(s, a, w1[k - 1], b) && eps_reach(s, b, j);
                assert(configuration(s, w2, (k - 1) as nat, a));
                assert(char_edge(s, a, w2[k - 1], b));
            }
            if configuration(s, w2, k, j) {
                let (a, b) = choose|a: int, b: int|
                    0 <= a < s.len() && 0 <= b < s.len() && configuration(s, w2, (k - 1) as nat, a)
                        && #[trigger] char_edge(s, a, w2[k - 1], b) && eps_reach(s, b, j);
                assert(configuration(s, w1, (k - 1) as nat, a));
                assert(char_edge(s, a, w1[k - 1], b));
            }
        }
    }
}

/// What a configuration of the concatenation after `k` characters stands
/// for: a configuration of `a`, or, once `a` accepted after `m` characters,
/// a configuration of `b` on the characters read since.
spec fn concat_config(a: Seq<NfaState>, b: Seq<NfaState>, w: Seq<char>, k: nat, x: int) -> bool {
    ||| (0 <= x < a.len() && configuration(a, w, k, x))
    ||| (a.len() <= x < a.len() + b.len() && exists|m: nat|
        m <= k && #[trigger] accepting_after(a, w, m) && configuration(
            b,
            w.subrange(m as int, w.len() as int),
            (k - m) as nat,
            x - a.len(),
        ))
}

proof fn lemma_concat_eps(
    r: Seq<NfaState>,
    a: Seq<NfaState>,
    b: Seq<NfaState>,
    w: Seq<char>,
    k: nat,
    i: int,
    x: int,
    n: nat,
)
    requires
        concat_layout(r, a, b),
        accepting_nil(a),
        states_wf(a),
        states_wf(b),
        k <= w.len(),
        concat_config(a, b, w, k, i),
        eps_within(r, i, x, n),
    ensures
        concat_config(a, b, w, k, x),
    decreases n,
{
    let n1 = a.len() as int;
    if n > 0 {
        if eps_within(r, i, x, (n - 1) as nat) {
            lemma_concat_eps(r, a, b, w, k, i, x, (n - 1) as nat);
        } else {
            let m = choose|m: int|
                0 <= m < r.len() && eps_within(r, i, m, (n - 1) as nat) && #[trigger] eps_edge(r, m, x);
            lemma_concat_eps(r, a, b, w, k, i, m, (n - 1) as nat);
            if m < n1 {
                lemma_embedded_eps(r, a, 0, n1, m, x);
                assert(eps_edge(r, 0 + m, x));
                if a[m].maybe_accepts_for_rule is Some {
                    assert(accepting_after(a, w, k));
                    lemma_eps_reach_self(b, 0);
                    assert(configuration(b, w.subrange(k as int, w.len() as int), 0, 0));
                    assert(configuration(b, w.subrange(k as int, w.len() as int), (k - k) as nat, x - n1));
                } else {
                    lemma_eps_reach_edge(a, m, x);
                    lemma_configuration_eps(a, w, k, m, x);
                }
            } else {
                let mm = choose|mm: nat|
                    mm <= k && #[trigger] accepting_after(a, w, mm) && configuration(
                        b,
                        w.subrange(mm as int, w.len() as int),
                        (k - mm) as nat,
                        m - n1,
                    );
                lemma_copied_eps(r, b, n1, m - n1, x);
                assert(eps_edge(r, n1 + (m - n1), x));
                lemma_eps_reach_edge(b, m - n1, x - n1);
                lemma_configuration_eps(b, w.subrange(mm as int, w.len() as int), (k - mm) as nat, m - n1, x - n1);
            }
        }
    }
}

proof fn lemma_concat_configuration(r: Seq<NfaState>, a: Seq<NfaState>, b: Seq<NfaState>, w: Seq<char>, k: nat, x: int)
    requires
        concat_layout(r, a, b),
        accepting_nil(a),
        states_wf(a),
        states_wf(b),
        configuration(r, w, k, x),
        k <= w.len(),
    ensures
        concat_config(a, b, w, k, x),
    decreases k,
{
    let n1 = a.len() as int;
    if k == 0 {
        let n = choose|n: nat| #[trigger] eps_within(r, 0, x, n);
        lemma_eps_reach_self(a, 0);
        assert(configuration(a, w, 0, 0));
        lemma_concat_eps(r, a, b, w, 0, 0, x, n);
    } else {
        let (p, q) = choose|p: int, q: int|
            0 <= p < r.len() && 0 <= q < r.len() && configuration(r, w, (k - 1) as nat, p) && #[trigger] char_edge(
                r,
                p,
                w[k - 1],
                q,
            ) && eps_reach(r, q, x);
        lemma_concat_configuration(r, a, b, w, (k - 1) as nat, p);
        let c = w[k - 1];
        if p < n1 {
            lemma_embedded_char(r, a, 0, n1, p, c, q);
            assert(char_edge(r, 0 + p, c, q));
            lemma_eps_reach_self(a, q);
            assert(configuration(a, w, k, q));
        } else {
            let mm = choose|mm: nat|
                mm <= k - 1 && #[trigger] accepting_after(a, w, mm) && configuration(
                    b,
                    w.subrange(mm as int, w.len() as int),
                    ((k - 1) - mm) as nat,
                    p - n1,
                );
            let s = w.subrange(mm as int, w.len() as int);
            lemma_copied_char(r, b, n1, p - n1, c, q);
            assert(char_edge(r, n1 + (p - n1), c, q));
            assert(s[(k - mm) - 1] == c);
            lemma_eps_reach_self(b, q - n1);
            assert(configuration(b, s, ((k - mm) - 1) as nat, p - n1));
            assert(char_edge(b, p - n1, s[(k - mm) - 1], q - n1));
            assert(configuration(b, s, (k - mm) as nat, q - n1));
        }
        assert(concat_config(a, b, w, k, q));
        let n = choose|n: nat| #[trigger] eps_within(r, q, x, n);
        lemma_concat_eps(r, a, b, w, k, q, x, n);
    }
}

/// Configurations of `b` on what follows `m` are configurations of the
/// concatenation, once it stands at the start of the copy of `b` after `m`
/// characters.
proof fn lemma_copied_configuration(
    r: Seq<NfaState>,
    b: Seq<NfaState>,
    n1: int,
    w: Seq<char>,
    m: nat,
    k: nat,
    y: int,
)
    requires
        copied(r, b, n1),
        states_wf(b),
        b.len() >= 1,
        m + k <= w.len(),
        configuration(r, w, m, n1),
        configuration(b, w.subrange(m as int, w.len() as int), k, y),
    ensures
        0 <= y < b.len(),
        configuration(r, w, m + k, n1 + y),
    decreases k,
{
    let s = w.subrange(m as int, w.len() as int);
    if k == 0 {
        let n = choose|n: nat| #[trigger] eps_within(b, 0, y, n);
        lemma_copied_eps_within(r, b, n1, 0, y, n);
        assert(eps_reach(r, n1 + 0, n1 + y));
        lemma_configuration_eps(r, w, m, n1, n1 + y);
    } else {
        let (p, q) = choose|p: int, q: int|
            0 <= p < b.len() && 0 <= q < b.len() && configuration(b, s, (k - 1) as nat, p) && #[trigger] char_edge(
                b,
                p,
                s[k - 1],
                q,
            ) && eps_reach(b, q, y);
        lemma_copied_configuration(r, b, n1, w, m, (k - 1) as nat, p);
        lemma_copied_char(r, b, n1, p, s[k - 1], n1 + q);
        assert(s[k - 1] == w[(m + k) - 1]);
        assert(char_edge(r, n1 + p, w[(m + k) - 1], n1 + q));
        lemma_eps_reach_self(r, n1 + q);
        assert(configuration(r, w, ((m + k) - 1) as nat, n1 + p));
        assert(configuration(r, w, (m + k) as nat, n1 + q));
        let n = choose|n: nat| #[trigger] eps_within(b, q, y, n);
        lemma_copied_eps_within(r, b, n1, q, y, n);
        assert(eps_reach(r, n1 + q, n1 + y));
        lemma_configuration_eps(r, w, m + k, n1 + q, n1 + y);
    }
}

/// The concatenation accepts exactly the strings that split into one `a`
/// accepts followed by one `b` accepts.
pub proof fn lemma_concat_language(r: Seq<NfaState>, a: Seq<NfaState>, b: Seq<NfaState>, w: Seq<char>)
    requires
        concat_layout(r, a, b),
        accepting_nil(a),
        states_wf(a),
        states_wf(b),
    ensures
        accepts_input(r, w) <==> exists|m: int| #[trigger] split_at(a, b, w, m),
{
    let n1 = a.len() as int;
    if accepts_input(r, w) {
        let x = choose|x: int|
            0 <= x < r.len() && #[trigger] configuration(r, w, w.len(), x) && r[x].maybe_accepts_for_rule is Some;
        lemma_concat_configuration(r, a, b, w, w.len(), x);
        if x < n1 {
            assert(redirected(a[x], r[0 + x], 0, n1));
            assert(false);
        }
        let mm = choose|mm: nat|
            mm <= w.len() && #[trigger] accepting_after(a, w, mm) && configuration(
                b,
                w.subrange(mm as int, w.len() as int),
                (w.len() - mm) as nat,
                x - n1,
            );
        let s = w.subrange(mm as int, w.len() as int);
        assert(state_shifted(b[x - n1], r[n1 + (x - n1)], n1));
        assert(configuration(b, s, s.len(), x - n1));
        assert(accepts_input(b, s));
        let j = choose|j: int|
            0 <= j < a.len() && #[trigger] configuration(a, w, mm, j) && a[j].maybe_accepts_for_rule is Some;
        let t = w.subrange(0, mm as int);
        lemma_configuration_prefix(a, w, t, mm);
        assert(configuration(a, t, t.len(), j));
        assert(accepts_input(a, t));
        assert(split_at(a, b, w, mm as int));
    }
    if exists|m: int| #[trigger] split_at(a, b, w, m) {
        let m = choose|m: int| #[trigger] split_at(a, b, w, m);
        let t = w.subrange(0, m);
        let s = w.subrange(m, w.len() as int);
        let j = choose|j: int|
            0 <= j < a.len() && #[trigger] configuration(a, t, t.len(), j) && a[j].maybe_accepts_for_rule is Some;
        lemma_configuration_prefix(a, w, t, m as nat);
        assert(configuration(a, w, m as nat, j));
        lemma_eps_reach_self(r, 0);
        lemma_embedded_configuration(r, a, 0, n1, w, m as nat, j);
        assert(redirected(a[j], r[0 + j], 0, n1));
        assert(r[j].transitions.targets()[0].0 == n1);
        assert(eps_edge(r, j, n1));
        lemma_eps_reach_edge(r, j, n1);
        lemma_configuration_eps(r, w, m as nat, j, n1);
        let y = choose|y: int|
            0 <= y < b.len() && #[trigger] configuration(b, s, s.len(), y) && b[y].maybe_accepts_for_rule is Some;
        lemma_copied_configuration(r, b, n1, w, m as nat, s.len(), y);
        assert(state_shifted(b[y], r[n1 + y], n1));
        assert(configuration(r, w, w.len(), n1 + y));
    }
}

} // verus!
