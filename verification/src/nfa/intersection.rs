//! The intersection of two automata: a state for each reachable pair of
//! states, moving on a character where both move on it, and spontaneously
//! where one of them does (the left one first).

use vstd::prelude::*;

use crate::interval_tree::Interval;
use crate::interval_tree::IntervalTree;
use crate::interval_tree::Policy;
use crate::interval_tree::PolicyUnique;
use crate::interval_tree::entries_cover;
use crate::interval_tree::entries_wf;
use crate::interval_tree::entry_index_at;
use crate::interval_tree::insert_allowed;
use crate::interval_tree::insert_law;
use crate::interval_tree::lemma_value_at;
use crate::interval_tree::select;
use crate::interval_tree::value_at;
use crate::nfa::NfaIdx;
use crate::nfa::NfaState;
use crate::nfa::Tnfa;
use crate::nfa::Transitions;
use crate::nfa::extends_at;
use crate::nfa::live;
use crate::nfa::reaches_within;
use crate::nfa::states_wf;
use crate::nfa::tags_distinct;
use crate::nfa::simulation::accepts_input;
use crate::nfa::simulation::char_edge;
use crate::nfa::simulation::configuration;
use crate::nfa::simulation::eps_reach;
use crate::nfa::simulation::eps_within;
use crate::nfa::simulation::eps_edge;

verus! {

/// `r` is a product of `a` and `b` under `pairs`: each state of `r` stands
/// for a pair of states, state 0 for the pair of start states; each accepting
/// state for a pair of accepting states (with the rule of the left one); each
/// move on a character for a move on it of both; and each move without input
/// for one of either, the other staying.
pub open spec fn product_of(r: Seq<NfaState>, a: Seq<NfaState>, b: Seq<NfaState>, pairs: Seq<(int, int)>) -> bool {
    &&& pairs.len() == r.len()
    &&& r.len() >= 1
    &&& pairs[0] == (0int, 0int)
    &&& forall|k: int| 0 <= k < r.len() ==> 0 <= (#[trigger] pairs[k]).0 < a.len() && 0 <= pairs[k].1 < b.len()
    &&& forall|k: int|
        0 <= k < r.len() && (#[trigger] r[k]).maybe_accepts_for_rule is Some ==> r[k].maybe_accepts_for_rule
            == a[pairs[k].0].maybe_accepts_for_rule && b[pairs[k].1].maybe_accepts_for_rule is Some
    &&& forall|k: int|
        0 <= k < r.len() && (#[trigger] r[k]).transitions is Tagged ==> a[pairs[k].0].transitions is Tagged
    &&& forall|k: int, c: char, m: int|
        0 <= k < r.len() && 0 <= m < r.len() && #[trigger] char_edge(r, k, c, m) ==> char_edge(
            a,
            pairs[k].0,
            c,
            pairs[m].0,
        ) && char_edge(b, pairs[k].1, c, pairs[m].1)
    &&& forall|k: int, m: int|
        0 <= k < r.len() && 0 <= m < r.len() && #[trigger] eps_edge(r, k, m) ==> (eps_edge(
            a,
            pairs[k].0,
            pairs[m].0,
        ) && pairs[k].1 == pairs[m].1) || (pairs[k].0 == pairs[m].0 && eps_edge(b, pairs[k].1, pairs[m].1))
}

/// The number of unset entries.
pub open spec fn count_none(s: Seq<Option<usize>>) -> nat
    decreases s.len(),
{
    if s.len() == 0 {
        0
    } else {
        count_none(s.drop_last()) + if s.last() is None {
            1nat
        } else {
            0nat
        }
    }
}

proof fn lemma_count_none_set(s: Seq<Option<usize>>, i: int, v: usize)
    requires
        0 <= i < s.len(),
        s[i] is None,
    ensures
        count_none(s.update(i, Some(v))) + 1 == count_none(s),
    decreases s.len(),
{
    if i < s.len() - 1 {
        lemma_count_none_set(s.drop_last(), i, v);
        assert(s.update(i, Some(v)).drop_last() =~= s.drop_last().update(i, Some(v)));
    } else {
        assert(s.update(i, Some(v)).drop_last() =~= s.drop_last());
    }
}

/// The slot of the pair `(x, y)` in a table with rows of `n2` entries.
pub open spec fn slot(x: int, y: int, n2: int) -> int {
    x * n2 + y
}

proof fn lemma_slot(x: int, y: int, n1: int, n2: int)
    requires
        0 <= x < n1,
        0 <= y < n2,
    ensures
        0 <= slot(x, y, n2) < n1 * n2,
        0 <= x * n2,
{
    assert(0 <= x * n2) by (nonlinear_arith)
        requires
            0 <= x,
            0 <= n2,
    ;
    assert(x * n2 + y < n1 * n2) by (nonlinear_arith)
        requires
            0 <= x < n1,
            0 <= y < n2,
    ;
}

proof fn lemma_slot_injective(x: int, y: int, u: int, v: int, n2: int)
    requires
        0 <= y < n2,
        0 <= v < n2,
        0 <= x,
        0 <= u,
        slot(x, y, n2) == slot(u, v, n2),
    ensures
        x == u,
        y == v,
{
    if x < u {
        assert(x * n2 + n2 <= u * n2) by (nonlinear_arith)
            requires
                x < u,
                0 <= n2,
        ;
    } else if u < x {
        assert(u * n2 + n2 <= x * n2) by (nonlinear_arith)
            requires
                u < x,
                0 <= n2,
        ;
    }
}

/// The pairs of states under construction, with a table from pairs to the
/// states standing for them and the states still to be given transitions.
struct Product {
    result: Tnfa,
    pairs: Vec<(usize, usize)>,
    seen: Vec<Option<usize>>,
    stack: Vec<usize>,
}

/// State `m` waits on the stack.
spec fn on_stack(stack: Seq<usize>, m: int) -> bool {
    exists|i: int| 0 <= i < stack.len() && stack[i] as int == m
}

/// The stack keeps what it held underneath, and holds every pair added.
spec fn stack_grows(before: Product, after: Product) -> bool {
    &&& after.stack@.len() >= before.stack@.len()
    &&& after.stack@.subrange(0, before.stack@.len() as int) == before.stack@
    &&& forall|m: int| before.pairs@.len() <= m < after.pairs@.len() ==> #[trigger] on_stack(after.stack@, m)
}

proof fn lemma_stack_grows_trans(a: Product, b: Product, c: Product)
    requires
        stack_grows(a, b),
        stack_grows(b, c),
        a.pairs@.len() <= b.pairs@.len(),
    ensures
        stack_grows(a, c),
{
    assert(c.stack@.subrange(0, a.stack@.len() as int) =~= b.stack@.subrange(0, a.stack@.len() as int)) by {
        assert forall|i: int| 0 <= i < a.stack@.len() implies c.stack@[i] == b.stack@[i] by {
            assert(c.stack@.subrange(0, b.stack@.len() as int)[i] == c.stack@[i]);
        }
    }
    assert forall|m: int| a.pairs@.len() <= m < c.pairs@.len() implies #[trigger] on_stack(c.stack@, m) by {
        if m < b.pairs@.len() {
            assert(on_stack(b.stack@, m));
            let i = choose|i: int| 0 <= i < b.stack@.len() && b.stack@[i] as int == m;
            assert(c.stack@.subrange(0, b.stack@.len() as int)[i] == c.stack@[i]);
        }
    }
}

proof fn lemma_stack_grows_same(a: Product, b: Product)
    requires
        a.stack@ == b.stack@,
        a.pairs@.len() == b.pairs@.len(),
    ensures
        stack_grows(a, b),
{
    assert(b.stack@.subrange(0, a.stack@.len() as int) =~= a.stack@);
}

proof fn lemma_stack_grows_refl(a: Product)
    ensures
        stack_grows(a, a),
{
    assert(a.stack@.subrange(0, a.stack@.len() as int) =~= a.stack@);
}

impl Product {
    spec fn pairing(&self) -> Seq<(int, int)> {
        Seq::new(self.pairs@.len(), |k: int| (self.pairs@[k].0 as int, self.pairs@[k].1 as int))
    }

    spec fn inv(&self, a: Seq<NfaState>, b: Seq<NfaState>) -> bool {
        &&& states_wf(self.result.states@)
        &&& self.result.tags@.len() == 0
        &&& product_of(self.result.states@, a, b, self.pairing())
        &&& self.seen@.len() == a.len() * b.len()
        &&& a.len() * b.len() <= usize::MAX
        &&& count_none(self.seen@) + self.pairs@.len() == self.seen@.len()
        &&& forall|k: int|
            0 <= k < self.pairs@.len() ==> self.seen@[slot(
                (#[trigger] self.pairs@[k]).0 as int,
                self.pairs@[k].1 as int,
                b.len() as int,
            )] == Some(k as usize)
        &&& forall|s: int|
            0 <= s < self.seen@.len() && (#[trigger] self.seen@[s]) is Some ==> self.seen@[s]->0
                < self.pairs@.len() && slot(
                self.pairs@[self.seen@[s]->0 as int].0 as int,
                self.pairs@[self.seen@[s]->0 as int].1 as int,
                b.len() as int,
            ) == s
        &&& forall|i: int| 0 <= i < self.stack@.len() ==> (#[trigger] self.stack@[i]) < self.pairs@.len()
    }

    spec fn measure(&self) -> nat {
        2 * count_none(self.seen@) + self.stack@.len()
    }

    /// The state standing for the pair `(x, y)`, made (and put on the stack)
    /// if there is none yet.
    fn state_for(&mut self, x: usize, y: usize, n2: usize, Ghost(a): Ghost<Seq<NfaState>>, Ghost(b): Ghost<
        Seq<NfaState>,
    >) -> (r: usize)
        requires
            old(self).inv(a, b),
            x < a.len(),
            y < b.len(),
            n2 == b.len(),
        ensures
            final(self).inv(a, b),
            r < final(self).pairs@.len(),
            final(self).pairing()[r as int] == (x as int, y as int),
            final(self).pairing().subrange(0, old(self).pairs@.len() as int) == old(self).pairing(),
            extends_at(old(self).result.states@, final(self).result.states@, -1),
            final(self).measure() <= old(self).measure(),
            stack_grows(*old(self), *final(self)),
    {
        proof {
            lemma_slot(x as int, y as int, a.len() as int, b.len() as int);
        }
        let index: usize = x * n2 + y;
        match self.seen[index] {
            Some(k) => {
                proof {
                    let p = self.pairs@[k as int];
                    assert(self.pairing()[k as int] == (p.0 as int, p.1 as int));
                    lemma_slot_injective(p.0 as int, p.1 as int, x as int, y as int, n2 as int);
                    assert(self.pairing().subrange(0, self.pairs@.len() as int) =~= self.pairing());
                    lemma_stack_grows_refl(*self);
                }
                k
            },
            None => {
                let ghost before = *self;
                proof {
                    assert(self.pairs@.len() == self.result.states@.len());
                    lemma_count_none_set(self.seen@, index as int, 0);
                }
                let k: usize = self.result.new_state().0;
                self.pairs.push((x, y));
                proof {
                    lemma_count_none_set(self.seen@, index as int, k);
                }
                self.seen.set(index, Some(k));
                self.stack.push(k);
                proof {
                    assert(self.stack@.subrange(0, before.stack@.len() as int) =~= before.stack@);
                    assert(self.stack@[before.stack@.len() as int] == k);
                    assert forall|m: int| before.pairs@.len() <= m < self.pairs@.len() implies #[trigger] on_stack(self.stack@, m) by {
                        assert(m == k);
                        assert(self.stack@[before.stack@.len() as int] as int == m);
                    }
                    let r = self.result.states@;
                    let pr = self.pairing();
                    let old_r = before.result.states@;
                    let old_pr = before.pairing();
                    assert(pr.subrange(0, old_pr.len() as int) =~= old_pr);
                    assert forall|i: int| 0 <= i < old_pr.len() implies #[trigger] pr[i] == old_pr[i] by {}
                    assert forall|m: int|
                        0 <= m < r.len() implies 0 <= (#[trigger] pr[m]).0 < a.len() && 0 <= pr[m].1 < b.len() by {}
                    assert forall|m: int|
                        0 <= m < r.len() && (#[trigger] r[m]).maybe_accepts_for_rule is Some implies r[m].maybe_accepts_for_rule
                        == a[pr[m].0].maybe_accepts_for_rule && b[pr[m].1].maybe_accepts_for_rule is Some by {
                        assert(r[m] == old_r[m]);
                    }
                    assert forall|m: int, c: char, q: int|
                        0 <= m < r.len() && 0 <= q < r.len() && #[trigger] char_edge(r, m, c, q) implies char_edge(
                        a,
                        pr[m].0,
                        c,
                        pr[q].0,
                    ) && char_edge(b, pr[m].1, c, pr[q].1) by {
                        if m == k {
                            assert(r[m].transitions.targets().len() == 0);
                        } else {
                            assert(r[m] == old_r[m]);
                            assert(old_r[m].transitions.targets_below(old_r.len() as int));
                            if q == k {
                                let tree = r[m].transitions->Interval_0;
                                let s = tree.entries_view();
                                let j = entry_index_at(s, c as int);
                                assert(r[m].transitions.targets()[j] == s[j].1);
                            } else {
                                assert(char_edge(old_r, m, c, q));
                                assert(pr[m] == old_pr[m]);
                                assert(pr[q] == old_pr[q]);
                            }
                        }
                    }
                    assert forall|m: int, q: int|
                        0 <= m < r.len() && 0 <= q < r.len() && #[trigger] eps_edge(r, m, q) implies (eps_edge(
                        a,
                        pr[m].0,
                        pr[q].0,
                    ) && pr[m].1 == pr[q].1) || (pr[m].0 == pr[q].0 && eps_edge(b, pr[m].1, pr[q].1)) by {
                        if m == k {
                            assert(r[m].transitions.targets().len() == 0);
                        } else {
                            assert(r[m] == old_r[m]);
                            assert(old_r[m].transitions.targets_below(old_r.len() as int));
                            if q != k {
                                assert(eps_edge(old_r, m, q));
                                assert(pr[m] == old_pr[m]);
                                assert(pr[q] == old_pr[q]);
                            }
                        }
                    }
                    assert forall|i: int|
                        0 <= i < self.pairs@.len() implies self.seen@[slot(
                        (#[trigger] self.pairs@[i]).0 as int,
                        self.pairs@[i].1 as int,
                        b.len() as int,
                    )] == Some(i as usize) by {
                        if i < k {
                            let p = self.pairs@[i];
                            assert(old_pr[i] == (p.0 as int, p.1 as int));
                            lemma_slot(p.0 as int, p.1 as int, a.len() as int, b.len() as int);
                            if slot(p.0 as int, p.1 as int, b.len() as int) == index {
                                assert(before.seen@[index as int] == Some(i as usize));
                            }
                        }
                    }
                    assert forall|s: int|
                        0 <= s < self.seen@.len() && (#[trigger] self.seen@[s]) is Some implies self.seen@[s]->0
                        < self.pairs@.len() && slot(
                        self.pairs@[self.seen@[s]->0 as int].0 as int,
                        self.pairs@[self.seen@[s]->0 as int].1 as int,
                        b.len() as int,
                    ) == s by {
                        if s != index {
                            assert(before.seen@[s] == self.seen@[s]);
                        }
                    }
                }
                k
            },
        }
    }
}

/// Every move of `t`, from a state standing for the pair `from`, is a move of
/// the product under `pairs` (see [`product_of`]).
pub open spec fn sound_moves(t: Transitions, from: (int, int), a: Seq<NfaState>, b: Seq<NfaState>, pairs: Seq<
    (int, int),
>) -> bool {
    &&& t is Tagged ==> a[from.0].transitions is Tagged
    &&& forall|c: char|
        #![trigger value_at(t->Interval_0.entries_view(), c as int)]
        t is Interval && value_at(t->Interval_0.entries_view(), c as int) is Some && (value_at(
            t->Interval_0.entries_view(),
            c as int,
        )->0).0 < pairs.len() ==> char_edge(
            a,
            from.0,
            c,
            pairs[(value_at(t->Interval_0.entries_view(), c as int)->0).0 as int].0,
        ) && char_edge(b, from.1, c, pairs[(value_at(t->Interval_0.entries_view(), c as int)->0).0 as int].1)
    &&& forall|u: int|
        0 <= u < t.targets().len() && !(t is Interval) && 0 <= (#[trigger] t.targets()[u]).0 < pairs.len()
            ==> (eps_edge(a, from.0, pairs[t.targets()[u].0 as int].0) && from.1 == pairs[t.targets()[
            u].0 as int].1) || (from.0 == pairs[t.targets()[u].0 as int].0 && eps_edge(
            b,
            from.1,
            pairs[t.targets()[u].0 as int].1,
        ))
}

impl Product {
    /// Gives state `k` the moves `t`.
    fn give_moves(&mut self, k: usize, t: Transitions, Ghost(a): Ghost<Seq<NfaState>>, Ghost(b): Ghost<Seq<NfaState>>)
        requires
            old(self).inv(a, b),
            k < old(self).pairs@.len(),
            t.targets_below(old(self).pairs@.len() as int),
            sound_moves(t, old(self).pairing()[k as int], a, b, old(self).pairing()),
        ensures
            final(self).inv(a, b),
            final(self).pairing() == old(self).pairing(),
            final(self).measure() == old(self).measure(),
            extends_at(old(self).result.states@, final(self).result.states@, k as int),
            final(self).result.states@.len() == old(self).result.states@.len(),
            final(self).result.states@[k as int].transitions == t,
            final(self).stack@ == old(self).stack@,
    {
        let ghost before = *self;
        self.result.set_transitions(NfaIdx(k), t);
        proof {
            let r = self.result.states@;
            let old_r = before.result.states@;
            let pr = self.pairing();
            assert forall|m: int|
                0 <= m < r.len() && (#[trigger] r[m]).maybe_accepts_for_rule is Some implies r[m].maybe_accepts_for_rule
                == a[pr[m].0].maybe_accepts_for_rule && b[pr[m].1].maybe_accepts_for_rule is Some by {
                if m != k {
                    assert(r[m] == old_r[m]);
                }
            }
            assert forall|m: int, c: char, q: int|
                0 <= m < r.len() && 0 <= q < r.len() && #[trigger] char_edge(r, m, c, q) implies char_edge(
                a,
                pr[m].0,
                c,
                pr[q].0,
            ) && char_edge(b, pr[m].1, c, pr[q].1) by {
                if m != k {
                    assert(r[m] == old_r[m]);
                    assert(char_edge(old_r, m, c, q));
                }
            }
            assert forall|m: int, q: int|
                0 <= m < r.len() && 0 <= q < r.len() && #[trigger] eps_edge(r, m, q) implies (eps_edge(
                a,
                pr[m].0,
                pr[q].0,
            ) && pr[m].1 == pr[q].1) || (pr[m].0 == pr[q].0 && eps_edge(b, pr[m].1, pr[q].1)) by {
                if m != k {
                    assert(r[m] == old_r[m]);
                    assert(eps_edge(old_r, m, q));
                } else {
                    let u = choose|u: int|
                        0 <= u < r[m].transitions.targets().len() && (
                        #[trigger] r[m].transitions.targets()[u]).0 == q;
                    assert(t.targets()[u].0 == q);
                }
            }
        }
    }

    /// The states standing for each of `targets` paired with `y`.
    fn map_left(&mut self, targets: &Vec<NfaIdx>, y: usize, n2: usize, Ghost(a): Ghost<Seq<NfaState>>, Ghost(b): Ghost<
        Seq<NfaState>,
    >) -> (r: Vec<NfaIdx>)
        requires
            old(self).inv(a, b),
            forall|u: int| 0 <= u < targets@.len() ==> (#[trigger] targets@[u]).0 < a.len(),
            y < b.len(),
            n2 == b.len(),
        ensures
            final(self).inv(a, b),
            final(self).pairing().subrange(0, old(self).pairs@.len() as int) == old(self).pairing(),
            extends_at(old(self).result.states@, final(self).result.states@, -1),
            final(self).measure() <= old(self).measure(),
            stack_grows(*old(self), *final(self)),
            r@.len() == targets@.len(),
            forall|u: int|
                0 <= u < r@.len() ==> (#[trigger] r@[u]).0 < final(self).pairs@.len() && final(self).pairing()[r@[
                u].0 as int] == (targets@[u].0 as int, y as int),
    {
        let mut out: Vec<NfaIdx> = Vec::new();
        let mut i: usize = 0;
        proof {
            assert(self.pairing().subrange(0, old(self).pairs@.len() as int) =~= old(self).pairing());
            lemma_stack_grows_refl(*self);
        }
        while i < targets.len()
            invariant
                self.inv(a, b),
                0 <= i <= targets@.len(),
                forall|u: int| 0 <= u < targets@.len() ==> (#[trigger] targets@[u]).0 < a.len(),
                y < b.len(),
                n2 == b.len(),
                self.pairing().subrange(0, old(self).pairs@.len() as int) == old(self).pairing(),
                self.pairs@.len() >= old(self).pairs@.len(),
                extends_at(old(self).result.states@, self.result.states@, -1),
                self.measure() <= old(self).measure(),
                stack_grows(*old(self), *self),
                out@.len() == i,
                forall|u: int|
                    0 <= u < i ==> (#[trigger] out@[u]).0 < self.pairs@.len() && self.pairing()[out@[u].0 as int]
                        == (targets@[u].0 as int, y as int),
            decreases targets@.len() - i,
        {
            let ghost s1 = *self;
            let m: usize = self.state_for(targets[i].0, y, n2, Ghost(a), Ghost(b));
            proof {
                lemma_stack_grows_trans(*old(self), s1, *self);
                crate::nfa::lemma_extends_appended(
                    old(self).result.states@,
                    s1.result.states@,
                    self.result.states@,
                    -1,
                );
                assert forall|u: int| 0 <= u < i implies self.pairing()[(#[trigger] out@[u]).0 as int] == (
                targets@[u].0 as int,
                y as int,
                ) by {
                    assert(self.pairing().subrange(0, s1.pairs@.len() as int)[out@[u].0 as int] == s1.pairing()[out@[
                    u].0 as int]);
                }
                assert(self.pairing().subrange(0, old(self).pairs@.len() as int) =~= old(self).pairing()) by {
                    assert forall|q: int| 0 <= q < old(self).pairs@.len() implies self.pairing()[q] == old(
                    self).pairing()[q] by {
                        assert(self.pairing().subrange(0, s1.pairs@.len() as int)[q] == s1.pairing()[q]);
                        assert(s1.pairing().subrange(0, old(self).pairs@.len() as int)[q] == old(self).pairing()[q]);
                    }
                }
            }
            out.push(NfaIdx(m));
            i = i + 1;
        }
        out
    }

    /// The states standing for `x` paired with each of `targets`.
    fn map_right(&mut self, x: usize, targets: &Vec<NfaIdx>, n2: usize, Ghost(a): Ghost<Seq<NfaState>>, Ghost(b): Ghost<
        Seq<NfaState>,
    >) -> (r: Vec<NfaIdx>)
        requires
            old(self).inv(a, b),
            forall|u: int| 0 <= u < targets@.len() ==> (#[trigger] targets@[u]).0 < b.len(),
            x < a.len(),
            n2 == b.len(),
        ensures
            final(self).inv(a, b),
            final(self).pairing().subrange(0, old(self).pairs@.len() as int) == old(self).pairing(),
            extends_at(old(self).result.states@, final(self).result.states@, -1),
            final(self).measure() <= old(self).measure(),
            stack_grows(*old(self), *final(self)),
            r@.len() == targets@.len(),
            forall|u: int|
                0 <= u < r@.len() ==> (#[trigger] r@[u]).0 < final(self).pairs@.len() && final(self).pairing()[r@[
                u].0 as int] == (x as int, targets@[u].0 as int),
    {
        let mut out: Vec<NfaIdx> = Vec::new();
        let mut i: usize = 0;
        proof {
            assert(self.pairing().subrange(0, old(self).pairs@.len() as int) =~= old(self).pairing());
            lemma_stack_grows_refl(*self);
        }
        while i < targets.len()
            invariant
                self.inv(a, b),
                0 <= i <= targets@.len(),
                forall|u: int| 0 <= u < targets@.len() ==> (#[trigger] targets@[u]).0 < b.len(),
                x < a.len(),
                n2 == b.len(),
                self.pairing().subrange(0, old(self).pairs@.len() as int) == old(self).pairing(),
                self.pairs@.len() >= old(self).pairs@.len(),
                extends_at(old(self).result.states@, self.result.states@, -1),
                self.measure() <= old(self).measure(),
                stack_grows(*old(self), *self),
                out@.len() == i,
                forall|u: int|
                    0 <= u < i ==> (#[trigger] out@[u]).0 < self.pairs@.len() && self.pairing()[out@[u].0 as int]
                        == (x as int, targets@[u].0 as int),
            decreases targets@.len() - i,
        {
            let ghost s1 = *self;
            let m: usize = self.state_for(x, targets[i].0, n2, Ghost(a), Ghost(b));
            proof {
                lemma_stack_grows_trans(*old(self), s1, *self);
                crate::nfa::lemma_extends_appended(
                    old(self).result.states@,
                    s1.result.states@,
                    self.result.states@,
                    -1,
                );
                assert forall|u: int| 0 <= u < i implies self.pairing()[(#[trigger] out@[u]).0 as int] == (
                x as int,
                targets@[u].0 as int,
                ) by {
                    assert(self.pairing().subrange(0, s1.pairs@.len() as int)[out@[u].0 as int] == s1.pairing()[out@[
                    u].0 as int]);
                }
                assert(self.pairing().subrange(0, old(self).pairs@.len() as int) =~= old(self).pairing()) by {
                    assert forall|q: int| 0 <= q < old(self).pairs@.len() implies self.pairing()[q] == old(
                    self).pairing()[q] by {
                        assert(self.pairing().subrange(0, s1.pairs@.len() as int)[q] == s1.pairing()[q]);
                        assert(s1.pairing().subrange(0, old(self).pairs@.len() as int)[q] == old(self).pairing()[q]);
                    }
                }
            }
            out.push(NfaIdx(m));
            i = i + 1;
        }
        out
    }
}

/// Each point the product tree moves on, both trees move on, to the states
/// of the pair its target stands for.
pub open spec fn combined_sound(
    comb: Seq<(Interval<u32>, NfaIdx)>,
    s1: Seq<(Interval<u32>, NfaIdx)>,
    s2: Seq<(Interval<u32>, NfaIdx)>,
    pairs: Seq<(int, int)>,
) -> bool {
    forall|p: int|
        #![trigger value_at(comb, p)]
        value_at(comb, p) is Some ==> (value_at(comb, p)->0).0 < pairs.len() && value_at(s1, p) == Some(
            NfaIdx(pairs[(value_at(comb, p)->0).0 as int].0 as usize),
        ) && value_at(s2, p) == Some(NfaIdx(pairs[(value_at(comb, p)->0).0 as int].1 as usize))
}

/// Each point the product tree moves on lies in a pair of entries of the two
/// trees before the pair `(i, j)`.
pub open spec fn combined_earlier(
    comb: Seq<(Interval<u32>, NfaIdx)>,
    s1: Seq<(Interval<u32>, NfaIdx)>,
    s2: Seq<(Interval<u32>, NfaIdx)>,
    i: int,
    j: int,
) -> bool {
    forall|p: int|
        #![trigger value_at(comb, p)]
        value_at(comb, p) is Some ==> exists|x: int, y: int|
            0 <= x < s1.len() && 0 <= y < s2.len() && (x < i || (x == i && y < j)) && (#[trigger] s1[x]).0.has(
                p,
            ) && (#[trigger] s2[y]).0.has(p)
}

/// Each point that an entry of each tree holds, for a pair of entries
/// before the pair `(i, j)`, the product tree moves on.
pub open spec fn combined_complete(
    comb: Seq<(Interval<u32>, NfaIdx)>,
    s1: Seq<(Interval<u32>, NfaIdx)>,
    s2: Seq<(Interval<u32>, NfaIdx)>,
    i: int,
    j: int,
) -> bool {
    forall|p: int, x: int, y: int|
        #![trigger s1[x].0.has(p), s2[y].0.has(p)]
        0 <= x < s1.len() && 0 <= y < s2.len() && (x < i || (x == i && y < j)) && s1[x].0.has(p) && s2[y].0.has(
            p,
        ) ==> entries_cover(comb, p)
}

proof fn lemma_complete_insert(
    before: Seq<(Interval<u32>, NfaIdx)>,
    after: Seq<(Interval<u32>, NfaIdx)>,
    s1: Seq<(Interval<u32>, NfaIdx)>,
    s2: Seq<(Interval<u32>, NfaIdx)>,
    i: int,
    j: int,
    ov: Interval<u32>,
    v: NfaIdx,
)
    requires
        combined_complete(before, s1, s2, i, j),
        forall|p: int| insert_law(before, after, ov, v, PolicyUnique, p),
        0 <= i < s1.len(),
        0 <= j < s2.len(),
        ov.lo() == crate::interval_tree::spec_max(s1[i].0.lo(), s2[j].0.lo()),
        ov.hi() == crate::interval_tree::spec_min(s1[i].0.hi(), s2[j].0.hi()),
    ensures
        combined_complete(after, s1, s2, i, j + 1),
{
    assert forall|p: int, x: int, y: int|
        #![trigger s1[x].0.has(p), s2[y].0.has(p)]
        0 <= x < s1.len() && 0 <= y < s2.len() && (x < i || (x == i && y < j + 1)) && s1[x].0.has(p) && s2[y].0.has(
            p,
        ) implies entries_cover(after, p) by {
        assert(insert_law(before, after, ov, v, PolicyUnique, p));
        if !(x == i && y == j) {
            assert(entries_cover(before, p));
        }
        assert(value_at(after, p) is Some);
    }
}

proof fn lemma_complete_disjoint(
    comb: Seq<(Interval<u32>, NfaIdx)>,
    s1: Seq<(Interval<u32>, NfaIdx)>,
    s2: Seq<(Interval<u32>, NfaIdx)>,
    i: int,
    j: int,
)
    requires
        combined_complete(comb, s1, s2, i, j),
        0 <= i < s1.len(),
        0 <= j < s2.len(),
        !(crate::interval_tree::spec_max(s1[i].0.lo(), s2[j].0.lo()) <= crate::interval_tree::spec_min(
            s1[i].0.hi(),
            s2[j].0.hi(),
        )),
    ensures
        combined_complete(comb, s1, s2, i, j + 1),
{
}

proof fn lemma_complete_row(
    comb: Seq<(Interval<u32>, NfaIdx)>,
    s1: Seq<(Interval<u32>, NfaIdx)>,
    s2: Seq<(Interval<u32>, NfaIdx)>,
    i: int,
)
    requires
        combined_complete(comb, s1, s2, i, s2.len() as int),
    ensures
        combined_complete(comb, s1, s2, i + 1, 0),
{
}

/// Where every pair of entries has been considered, the product tree moves
/// on each point both trees move on.
proof fn lemma_complete_all(
    comb: Seq<(Interval<u32>, NfaIdx)>,
    s1: Seq<(Interval<u32>, NfaIdx)>,
    s2: Seq<(Interval<u32>, NfaIdx)>,
)
    requires
        combined_complete(comb, s1, s2, s1.len() as int, 0),
    ensures
        forall|p: int|
            #![trigger value_at(comb, p)]
            value_at(s1, p) is Some && value_at(s2, p) is Some ==> value_at(comb, p) is Some,
{
    assert forall|p: int| #![trigger value_at(comb, p)]
        value_at(s1, p) is Some && value_at(s2, p) is Some implies value_at(comb, p) is Some by {
        let x = entry_index_at(s1, p);
        let y = entry_index_at(s2, p);
        assert(s1[x].0.has(p) && s2[y].0.has(p));
    }
}

proof fn lemma_sound_prefix(
    comb: Seq<(Interval<u32>, NfaIdx)>,
    s1: Seq<(Interval<u32>, NfaIdx)>,
    s2: Seq<(Interval<u32>, NfaIdx)>,
    pairs: Seq<(int, int)>,
    longer: Seq<(int, int)>,
)
    requires
        combined_sound(comb, s1, s2, pairs),
        longer.len() >= pairs.len(),
        longer.subrange(0, pairs.len() as int) == pairs,
    ensures
        combined_sound(comb, s1, s2, longer),
{
    assert forall|p: int| #![trigger value_at(comb, p)] value_at(comb, p) is Some implies (value_at(comb, p)->0).0
        < longer.len() && value_at(s1, p) == Some(NfaIdx(longer[(value_at(comb, p)->0).0 as int].0 as usize))
        && value_at(s2, p) == Some(NfaIdx(longer[(value_at(comb, p)->0).0 as int].1 as usize)) by {
        let v = (value_at(comb, p)->0).0 as int;
        assert(longer.subrange(0, pairs.len() as int)[v] == longer[v]);
    }
}

impl Product {
    /// A tree moving on each character both trees move on, to the state
    /// standing for the pair of their targets.
    #[verifier::rlimit(60)]
    fn combine(
        &mut self,
        tr1: &IntervalTree<u32, NfaIdx>,
        tr2: &IntervalTree<u32, NfaIdx>,
        n2: usize,
        Ghost(a): Ghost<Seq<NfaState>>,
        Ghost(b): Ghost<Seq<NfaState>>,
    ) -> (r: IntervalTree<u32, NfaIdx>)
        requires
            old(self).inv(a, b),
            forall|q: int|
                0 <= q < tr1.entries_view().len() ==> (#[trigger] tr1.entries_view()[q]).1.0 < a.len(),
            forall|q: int|
                0 <= q < tr2.entries_view().len() ==> (#[trigger] tr2.entries_view()[q]).1.0 < b.len(),
            n2 == b.len(),
        ensures
            final(self).inv(a, b),
            final(self).pairing().subrange(0, old(self).pairs@.len() as int) == old(self).pairing(),
            extends_at(old(self).result.states@, final(self).result.states@, -1),
            final(self).measure() <= old(self).measure(),
            stack_grows(*old(self), *final(self)),
            combined_sound(r.entries_view(), tr1.entries_view(), tr2.entries_view(), final(self).pairing()),
            forall|p: int|
                #![trigger value_at(r.entries_view(), p)]
                value_at(tr1.entries_view(), p) is Some && value_at(tr2.entries_view(), p) is Some ==> value_at(
                    r.entries_view(),
                    p,
                ) is Some,
            forall|q: int|
                0 <= q < r.entries_view().len() ==> (#[trigger] r.entries_view()[q]).1.0 < final(self).pairs@.len(),
    {
        let e1: &[(Interval<u32>, NfaIdx)] = tr1.iter();
        let e2: &[(Interval<u32>, NfaIdx)] = tr2.iter();
        let ghost s1 = e1@;
        let ghost s2 = e2@;
        let mut comb: IntervalTree<u32, NfaIdx> = IntervalTree::new();
        proof {
            assert(self.pairing().subrange(0, old(self).pairs@.len() as int) =~= old(self).pairing());
            lemma_stack_grows_refl(*self);
        }
        let mut i: usize = 0;
        while i < e1.len()
            invariant
                s1 == tr1.entries_view(),
                s2 == tr2.entries_view(),
                e1@ == s1,
                e2@ == s2,
                entries_wf(s1),
                entries_wf(s2),
                forall|q: int| 0 <= q < s1.len() ==> (#[trigger] s1[q]).1.0 < a.len(),
                forall|q: int| 0 <= q < s2.len() ==> (#[trigger] s2[q]).1.0 < b.len(),
                n2 == b.len(),
                0 <= i <= s1.len(),
                self.inv(a, b),
                self.pairing().subrange(0, old(self).pairs@.len() as int) == old(self).pairing(),
                self.pairs@.len() >= old(self).pairs@.len(),
                extends_at(old(self).result.states@, self.result.states@, -1),
                self.measure() <= old(self).measure(),
                stack_grows(*old(self), *self),
                combined_sound(comb.entries_view(), s1, s2, self.pairing()),
                combined_earlier(comb.entries_view(), s1, s2, i as int, 0),
                combined_complete(comb.entries_view(), s1, s2, i as int, 0),
            decreases s1.len() - i,
        {
            let mut j: usize = 0;
            while j < e2.len()
                invariant
                    s1 == tr1.entries_view(),
                    s2 == tr2.entries_view(),
                    e1@ == s1,
                    e2@ == s2,
                    entries_wf(s1),
                    entries_wf(s2),
                    forall|q: int| 0 <= q < s1.len() ==> (#[trigger] s1[q]).1.0 < a.len(),
                    forall|q: int| 0 <= q < s2.len() ==> (#[trigger] s2[q]).1.0 < b.len(),
                    n2 == b.len(),
                    0 <= i < s1.len(),
                    0 <= j <= s2.len(),
                    self.inv(a, b),
                    self.pairing().subrange(0, old(self).pairs@.len() as int) == old(self).pairing(),
                    self.pairs@.len() >= old(self).pairs@.len(),
                    extends_at(old(self).result.states@, self.result.states@, -1),
                    self.measure() <= old(self).measure(),
                    stack_grows(*old(self), *self),
                    combined_sound(comb.entries_view(), s1, s2, self.pairing()),
                    combined_earlier(comb.entries_view(), s1, s2, i as int, j as int),
                    combined_complete(comb.entries_view(), s1, s2, i as int, j as int),
                decreases s2.len() - j,
            {
                let iv1: Interval<u32> = e1[i].0;
                let iv2: Interval<u32> = e2[j].0;
                match iv1.overlap(&iv2) {
                    Some(ov) => {
                        let ghost before_self = *self;
                        let x: usize = e1[i].1.0;
                        let y: usize = e2[j].1.0;
                        proof {
                            assert(s1[i as int].1.0 < a.len());
                            assert(s2[j as int].1.0 < b.len());
                        }
                        let m: usize = self.state_for(x, y, n2, Ghost(a), Ghost(b));
                        let ghost before = comb.entries_view();
                        let pre: &[(Interval<u32>, NfaIdx)] = comb.iter();
                        proof {
                            lemma_stack_grows_trans(*old(self), before_self, *self);
                            crate::nfa::lemma_extends_appended(
                                old(self).result.states@,
                                before_self.result.states@,
                                self.result.states@,
                                -1,
                            );
                            lemma_sound_prefix(before, s1, s2, before_self.pairing(), self.pairing());
                            assert(self.pairing().subrange(0, old(self).pairs@.len() as int) =~= old(
                                self,
                            ).pairing()) by {
                                assert forall|q: int| 0 <= q < old(self).pairs@.len() implies self.pairing()[q]
                                    == old(self).pairing()[q] by {
                                    assert(self.pairing().subrange(0, before_self.pairs@.len() as int)[q]
                                        == before_self.pairing()[q]);
                                    assert(before_self.pairing().subrange(0, old(self).pairs@.len() as int)[q]
                                        == old(self).pairing()[q]);
                                }
                            }
                            // No point of the overlap is in the tree yet.
                            assert forall|p: int| ov.has(p) implies !(#[trigger] entries_cover(before, p)) by {
                                if entries_cover(before, p) {
                                    let k = entry_index_at(before, p);
                                    lemma_value_at(before, k, p);
                                    let (xx, yy) = choose|xx: int, yy: int|
                                        0 <= xx < s1.len() && 0 <= yy < s2.len() && (xx < i || (xx == i && yy
                                            < j)) && (#[trigger] s1[xx]).0.has(p) && (#[trigger] s2[yy]).0.has(p);
                                    if xx < i {
                                        assert(s1[xx].0.hi() < s1[i as int].0.lo());
                                    } else if yy < j {
                                        assert(s2[yy].0.hi() < s2[j as int].0.lo());
                                    }
                                }
                            }
                            assert(insert_allowed(before, ov, NfaIdx(m), PolicyUnique)) by {
                                assert forall|k: int, u: NfaIdx, w: NfaIdx|
                                    #![trigger before[k], PolicyUnique.allows(u, w)]
                                    0 <= k < before.len() && before[k].0.meets(ov) && cloned(before[k].1, u) && cloned(
                                        NfaIdx(m),
                                        w,
                                    ) implies PolicyUnique.allows(u, w) by {
                                    let q = if before[k].0.lo() < ov.lo() {
                                        ov.lo()
                                    } else {
                                        before[k].0.lo()
                                    };
                                    assert(ov.has(q));
                                    assert(before[k].0.has(q));
                                    assert(entries_cover(before, q));
                                }
                            }
                        }
                        comb.insert(ov, NfaIdx(m), PolicyUnique);
                        let post: &[(Interval<u32>, NfaIdx)] = comb.iter();
                        proof {
                            let after = comb.entries_view();
                            let pr = self.pairing();
                            assert forall|p: int|
                                #![trigger value_at(after, p)]
                                value_at(after, p) is Some implies (value_at(after, p)->0).0 < pr.len() && value_at(
                                    s1,
                                    p,
                                ) == Some(NfaIdx(pr[(value_at(after, p)->0).0 as int].0 as usize)) && value_at(s2, p)
                                    == Some(NfaIdx(pr[(value_at(after, p)->0).0 as int].1 as usize)) by {
                                assert(insert_law(before, after, ov, NfaIdx(m), PolicyUnique, p));
                                if ov.has(p) {
                                    assert(!entries_cover(before, p));
                                    lemma_value_at(s1, i as int, p);
                                    lemma_value_at(s2, j as int, p);
                                }
                            }
                            assert forall|p: int|
                                #![trigger value_at(after, p)]
                                value_at(after, p) is Some implies exists|xx: int, yy: int|
                                    0 <= xx < s1.len() && 0 <= yy < s2.len() && (xx < i || (xx == i && yy < j + 1))
                                        && (#[trigger] s1[xx]).0.has(p) && (#[trigger] s2[yy]).0.has(p) by {
                                assert(insert_law(before, after, ov, NfaIdx(m), PolicyUnique, p));
                                if ov.has(p) {
                                    assert(s1[i as int].0.has(p) && s2[j as int].0.has(p));
                                } else {
                                    assert(value_at(before, p) is Some);
                                }
                            }
                            lemma_complete_insert(before, after, s1, s2, i as int, j as int, ov, NfaIdx(m));
                        }
                    },
                    None => {
                        proof {
                            lemma_complete_disjoint(comb.entries_view(), s1, s2, i as int, j as int);
                        }
                    },
                }
                j = j + 1;
            }
            proof {
                lemma_complete_row(comb.entries_view(), s1, s2, i as int);
            }
            i = i + 1;
        }
        proof {
            lemma_complete_all(comb.entries_view(), s1, s2);
        }
        let entries: &[(Interval<u32>, NfaIdx)] = comb.iter();
        proof {
            let r = comb.entries_view();
            assert forall|q: int| 0 <= q < r.len() implies (#[trigger] r[q]).1.0 < self.pairs@.len() by {
                lemma_value_at(r, q, r[q].0.lo());
            }
        }
        comb
    }
}

/// `t` holds the moves of the state standing for the pair `(x, y)`, whose
/// states move by `ta` and `tb`: where the left one sets a tag or moves
/// spontaneously, those moves with the right one staying; where only the
/// right one moves spontaneously, its moves with the left one staying; and
/// where both move on characters, a move on each character both move on, to
/// the state standing for the pair of their targets.
pub open spec fn pair_moves(t: Transitions, ta: Transitions, tb: Transitions, x: int, y: int, pairs: Seq<(int, int)>) -> bool {
    match ta {
        Transitions::Tagged { tag, positive, target } => t matches Transitions::Tagged {
            tag: t_tag,
            positive: t_positive,
            target: t_target,
        } && crate::nfa::same_tag(tag, t_tag) && t_positive == positive && 0 <= t_target.0 < pairs.len()
            && pairs[t_target.0 as int] == (target.0 as int, y),
        Transitions::Spontaneous(ts) => t is Spontaneous && t.targets().len() == ts@.len() && forall|u: int|
            0 <= u < ts@.len() ==> 0 <= (#[trigger] t.targets()[u]).0 < pairs.len() && pairs[t.targets()[u].0 as int]
                == (ts@[u].0 as int, y),
        Transitions::Interval(t1) => match tb {
            Transitions::Spontaneous(ts) => t is Spontaneous && t.targets().len() == ts@.len() && forall|u: int|
                0 <= u < ts@.len() ==> 0 <= (#[trigger] t.targets()[u]).0 < pairs.len() && pairs[t.targets()[u].0 as int]
                    == (x, ts@[u].0 as int),
            Transitions::Interval(t2) => t is Interval && forall|p: int|
                #![trigger value_at(t->Interval_0.entries_view(), p)]
                (value_at(t->Interval_0.entries_view(), p) is Some <==> (value_at(t1.entries_view(), p) is Some
                    && value_at(t2.entries_view(), p) is Some)) && (value_at(t->Interval_0.entries_view(), p) is Some
                    ==> 0 <= (value_at(t->Interval_0.entries_view(), p)->0).0 < pairs.len() && pairs[(value_at(
                    t->Interval_0.entries_view(),
                    p,
                )->0).0 as int] == ((value_at(t1.entries_view(), p)->0).0 as int, (value_at(t2.entries_view(), p)->0).0 as int)),
            Transitions::Tagged { .. } => false,
        },
    }
}

/// State `m` of the product has been given what its pair calls for: it
/// accepts, where both states of the pair accept, and otherwise it has the
/// moves of the pair (see [`pair_moves`]).
pub open spec fn processed(r: Seq<NfaState>, pairs: Seq<(int, int)>, a: Seq<NfaState>, b: Seq<NfaState>, m: int) -> bool {
    let (x, y) = pairs[m];
    if a[x].maybe_accepts_for_rule is Some && b[y].maybe_accepts_for_rule is Some {
        r[m].maybe_accepts_for_rule is Some
    } else {
        pair_moves(r[m].transitions, a[x].transitions, b[y].transitions, x, y, pairs)
    }
}

proof fn lemma_pair_moves_extend(
    t: Transitions,
    ta: Transitions,
    tb: Transitions,
    x: int,
    y: int,
    pairs: Seq<(int, int)>,
    longer: Seq<(int, int)>,
)
    requires
        pair_moves(t, ta, tb, x, y, pairs),
        longer.len() >= pairs.len(),
        longer.subrange(0, pairs.len() as int) == pairs,
    ensures
        pair_moves(t, ta, tb, x, y, longer),
{
    assert forall|i: int| 0 <= i < pairs.len() implies #[trigger] longer[i] == pairs[i] by {
        assert(longer.subrange(0, pairs.len() as int)[i] == longer[i]);
    }
}

impl Product {
    /// Makes state `k` accept, for the rule of the left state of its pair.
    fn mark_accepting(&mut self, k: usize, left: &Tnfa, right: &Tnfa)
        requires
            old(self).inv(left.states@, right.states@),
            k < old(self).pairs@.len(),
            left.states@[old(self).pairing()[k as int].0].maybe_accepts_for_rule is Some,
            right.states@[old(self).pairing()[k as int].1].maybe_accepts_for_rule is Some,
        ensures
            final(self).inv(left.states@, right.states@),
            final(self).pairing() == old(self).pairing(),
            final(self).measure() == old(self).measure(),
            final(self).stack@ == old(self).stack@,
            final(self).result.states@.len() == old(self).result.states@.len(),
            forall|i: int|
                0 <= i < old(self).result.states@.len() && i != k ==> #[trigger] final(self).result.states@[i]
                    == old(self).result.states@[i],
            final(self).result.states@[k as int].transitions == old(self).result.states@[k as int].transitions,
            final(self).result.states@[k as int].maybe_accepts_for_rule == left.states@[old(
                self,
            ).pairing()[k as int].0].maybe_accepts_for_rule,
    {
        let ghost a = left.states@;
        let ghost b = right.states@;
        let ghost before = *self;
        let x: usize = self.pairs[k].0;
        let rule = left.states[x].maybe_accepts_for_rule.unwrap();
        self.result.set_accepting(NfaIdx(k), rule);
        proof {
            let r = self.result.states@;
            let old_r = before.result.states@;
            let pr = self.pairing();
            assert(pr[k as int].0 == x);
            assert forall|m: int|
                0 <= m < r.len() && (#[trigger] r[m]).maybe_accepts_for_rule is Some implies r[m].maybe_accepts_for_rule
                == a[pr[m].0].maybe_accepts_for_rule && b[pr[m].1].maybe_accepts_for_rule is Some by {
                if m != k {
                    assert(r[m] == old_r[m]);
                }
            }
            assert forall|m: int, c: char, q: int|
                0 <= m < r.len() && 0 <= q < r.len() && #[trigger] char_edge(r, m, c, q) implies char_edge(
                a,
                pr[m].0,
                c,
                pr[q].0,
            ) && char_edge(b, pr[m].1, c, pr[q].1) by {
                if m != k {
                    assert(r[m] == old_r[m]);
                }
                assert(char_edge(old_r, m, c, q));
            }
            assert forall|m: int, q: int|
                0 <= m < r.len() && 0 <= q < r.len() && #[trigger] eps_edge(r, m, q) implies (eps_edge(
                a,
                pr[m].0,
                pr[q].0,
            ) && pr[m].1 == pr[q].1) || (pr[m].0 == pr[q].0 && eps_edge(b, pr[m].1, pr[q].1)) by {
                if m != k {
                    assert(r[m] == old_r[m]);
                }
                assert(eps_edge(old_r, m, q));
            }
        }
    }

    /// Gives state `k` the moves of the product of the states of its pair.
    #[verifier::rlimit(40)]
    fn expand(&mut self, k: usize, left: &Tnfa, right: &Tnfa)
        requires
            old(self).inv(left.states@, right.states@),
            left.wf(),
            right.wf(),
            forall|j: int|
                0 <= j < right.states@.len() ==> !((#[trigger] right.states@[j]).transitions is Tagged),
            k < old(self).pairs@.len(),
        ensures
            final(self).inv(left.states@, right.states@),
            final(self).measure() <= old(self).measure(),
            final(self).pairing().subrange(0, old(self).pairs@.len() as int) == old(self).pairing(),
            extends_at(old(self).result.states@, final(self).result.states@, k as int),
            stack_grows(*old(self), *final(self)),
            pair_moves(
                final(self).result.states@[k as int].transitions,
                left.states@[old(self).pairing()[k as int].0].transitions,
                right.states@[old(self).pairing()[k as int].1].transitions,
                old(self).pairing()[k as int].0,
                old(self).pairing()[k as int].1,
                final(self).pairing(),
            ),
    {
        let ghost a = left.states@;
        let ghost b = right.states@;
        let n2: usize = right.states.len();
        let (x, y): (usize, usize) = self.pairs[k];
        proof {
            assert(self.pairing()[k as int] == (x as int, y as int));
            assert(a[x as int].transitions.targets_below(a.len() as int));
            assert(b[y as int].transitions.targets_below(b.len() as int));
        }
        match &left.states[x].transitions {
            Transitions::Tagged { tag, positive, target } => {
                proof {
                    assert(a[x as int].transitions.targets()[0] == *target);
                }
                let m: usize = self.state_for(target.0, y, n2, Ghost(a), Ghost(b));
                let moves: Transitions = Transitions::Tagged { tag: tag.deep_copy(), positive: *positive, target: NfaIdx(m) };
                proof {
                    assert(self.pairing()[k as int] == (x as int, y as int)) by {
                        assert(self.pairing().subrange(0, k + 1)[k as int] == self.pairing()[k as int]);
                    }
                    assert(moves.targets() =~= seq![NfaIdx(m)]);
                    assert(eps_edge(a, x as int, target.0 as int));
                }
                let ghost mid = *self;
                self.give_moves(k, moves, Ghost(a), Ghost(b));
                proof {
                    assert(mid.pairs@.len() == self.pairs@.len()) by {
                        assert(mid.pairing().len() == self.pairing().len());
                    }
                    lemma_stack_grows_same(mid, *self);
                    lemma_stack_grows_trans(*old(self), mid, *self);
                }
            },
            Transitions::Spontaneous(targets) => {
                proof {
                    assert forall|u: int| 0 <= u < targets@.len() implies (#[trigger] targets@[u]).0 < a.len() by {
                        assert(a[x as int].transitions.targets()[u] == targets@[u]);
                    }
                }
                let moved: Vec<NfaIdx> = self.map_left(targets, y, n2, Ghost(a), Ghost(b));
                let moves: Transitions = Transitions::Spontaneous(moved);
                proof {
                    assert(self.pairing()[k as int] == (x as int, y as int)) by {
                        assert(self.pairing().subrange(0, k + 1)[k as int] == self.pairing()[k as int]);
                    }
                    assert forall|u: int|
                        0 <= u < moves.targets().len() && !(moves is Interval) && 0 <= (
                        #[trigger] moves.targets()[u]).0 < self.pairing().len() implies eps_edge(
                        a,
                        x as int,
                        self.pairing()[moves.targets()[u].0 as int].0,
                    ) && y == self.pairing()[moves.targets()[u].0 as int].1 by {
                        assert(a[x as int].transitions.targets()[u] == targets@[u]);
                    }
                }
                let ghost mid = *self;
                self.give_moves(k, moves, Ghost(a), Ghost(b));
                proof {
                    assert(mid.pairs@.len() == self.pairs@.len()) by {
                        assert(mid.pairing().len() == self.pairing().len());
                    }
                    lemma_stack_grows_same(mid, *self);
                    lemma_stack_grows_trans(*old(self), mid, *self);
                }
            },
            Transitions::Interval(tr1) => {
                match &right.states[y].transitions {
                    Transitions::Spontaneous(targets) => {
                        proof {
                            assert forall|u: int| 0 <= u < targets@.len() implies (#[trigger] targets@[u]).0
                                < b.len() by {
                                assert(b[y as int].transitions.targets()[u] == targets@[u]);
                            }
                        }
                        let moved: Vec<NfaIdx> = self.map_right(x, targets, n2, Ghost(a), Ghost(b));
                        let moves: Transitions = Transitions::Spontaneous(moved);
                        proof {
                            assert(self.pairing()[k as int] == (x as int, y as int)) by {
                                assert(self.pairing().subrange(0, k + 1)[k as int] == self.pairing()[k as int]);
                            }
                            assert forall|u: int|
                                0 <= u < moves.targets().len() && !(moves is Interval) && 0 <= (
                                #[trigger] moves.targets()[u]).0 < self.pairing().len() implies x
                                == self.pairing()[moves.targets()[u].0 as int].0 && eps_edge(
                                b,
                                y as int,
                                self.pairing()[moves.targets()[u].0 as int].1,
                            ) by {
                                assert(b[y as int].transitions.targets()[u] == targets@[u]);
                            }
                        }
                        let ghost mid = *self;
                        self.give_moves(k, moves, Ghost(a), Ghost(b));
                        proof {
                            assert(mid.pairs@.len() == self.pairs@.len()) by {
                                assert(mid.pairing().len() == self.pairing().len());
                            }
                            lemma_stack_grows_same(mid, *self);
                            lemma_stack_grows_trans(*old(self), mid, *self);
                        }
                    },
                    Transitions::Interval(tr2) => {
                        proof {
                            assert forall|q: int| 0 <= q < tr1.entries_view().len() implies (
                            #[trigger] tr1.entries_view()[q]).1.0 < a.len() by {
                                assert(a[x as int].transitions.targets()[q] == tr1.entries_view()[q].1);
                            }
                            assert forall|q: int| 0 <= q < tr2.entries_view().len() implies (
                            #[trigger] tr2.entries_view()[q]).1.0 < b.len() by {
                                assert(b[y as int].transitions.targets()[q] == tr2.entries_view()[q].1);
                            }
                        }
                        let comb: IntervalTree<u32, NfaIdx> = self.combine(tr1, tr2, n2, Ghost(a), Ghost(b));
                        let moves: Transitions = Transitions::Interval(comb);
                        proof {
                            assert(self.pairing()[k as int] == (x as int, y as int)) by {
                                assert(self.pairing().subrange(0, k + 1)[k as int] == self.pairing()[k as int]);
                            }
                            assert forall|q: int| 0 <= q < moves.targets().len() implies (
                            #[trigger] moves.targets()[q]).0 < self.pairs@.len() by {
                                assert(moves.targets()[q] == comb.entries_view()[q].1);
                            }
                        }
                        let ghost mid = *self;
                        self.give_moves(k, moves, Ghost(a), Ghost(b));
                        proof {
                            assert(mid.pairs@.len() == self.pairs@.len()) by {
                                assert(mid.pairing().len() == self.pairing().len());
                            }
                            lemma_stack_grows_same(mid, *self);
                            lemma_stack_grows_trans(*old(self), mid, *self);
                        }
                    },
                    Transitions::Tagged { .. } => {
                        proof {
                            assert(b[y as int].transitions is Tagged);
                        }
                    },
                }
            },
        }
    }
}

/// An entry of `s` that `keep` marks is kept by [`select`].
proof fn lemma_select_keeps(s: Seq<(Interval<u32>, NfaIdx)>, keep: Seq<bool>, q: int)
    requires
        keep.len() == s.len(),
        0 <= q < s.len(),
        keep[q],
    ensures
        exists|j: int| 0 <= j < select(s, keep).len() && #[trigger] select(s, keep)[j] == s[q],
    decreases s.len(),
{
    let s0 = s.drop_last();
    let k0 = keep.drop_last();
    if q == s.len() - 1 {
        let j = select(s, keep).len() - 1;
        assert(select(s, keep)[j] == s[q]);
    } else {
        lemma_select_keeps(s0, k0, q);
        assert(s0[q] == s[q]);
        let j = choose|j: int| 0 <= j < select(s0, k0).len() && #[trigger] select(s0, k0)[j] == s0[q];
        if keep.last() {
            assert(select(s, keep) == select(s0, k0).push(s.last()));
        } else {
            assert(select(s, keep) == select(s0, k0));
        }
        assert(select(s, keep)[j] == select(s0, k0)[j]);
    }
}

/// `kept` holds the moves of `full` to states marked live: the same kind of
/// moves, every live target of a move without input, and the value at every
/// point whose target is live.
pub open spec fn kept_live(full: Transitions, kept: Transitions, live: Seq<bool>) -> bool {
    &&& (full is Interval <==> kept is Interval)
    &&& full is Interval ==> forall|p: int|
        #![trigger value_at(full->Interval_0.entries_view(), p)]
        value_at(full->Interval_0.entries_view(), p) is Some && live[(value_at(
            full->Interval_0.entries_view(),
            p,
        )->0).0 as int] ==> value_at(kept->Interval_0.entries_view(), p) == value_at(
            full->Interval_0.entries_view(),
            p,
        )
    &&& !(full is Interval) ==> forall|v: int|
        0 <= v < full.targets().len() && live[(#[trigger] full.targets()[v]).0 as int] ==> has_target(
            kept,
            full.targets()[v].0 as int,
        )
}

/// What the search leaves: every state of `f` stands for a pair of states of
/// `a` and `b` and has been given what its pair calls for.
pub open spec fn all_processed(f: Seq<NfaState>, pairs: Seq<(int, int)>, a: Seq<NfaState>, b: Seq<NfaState>) -> bool {
    &&& pairs.len() == f.len()
    &&& f.len() >= 1
    &&& f.len() <= usize::MAX
    &&& a.len() <= usize::MAX
    &&& b.len() <= usize::MAX
    &&& pairs[0] == (0int, 0int)
    &&& forall|m: int| 0 <= m < f.len() ==> 0 <= (#[trigger] pairs[m]).0 < a.len() && 0 <= pairs[m].1 < b.len()
    &&& forall|m: int| 0 <= m < f.len() ==> #[trigger] processed(f, pairs, a, b, m)
    &&& crate::nfa::accepting_nil(a)
    &&& crate::nfa::accepting_nil(b)
    &&& forall|i: int| 0 <= i < b.len() ==> !((#[trigger] b[i]).transitions is Tagged)
}

proof fn lemma_eps_step(s: Seq<NfaState>, i: int, j: int, k: int, n: nat)
    requires
        eps_within(s, i, j, n),
        0 <= j < s.len(),
        eps_edge(s, j, k),
    ensures
        eps_within(s, i, k, n + 1),
{
    assert(eps_within(s, i, j, ((n + 1) - 1) as nat));
}

proof fn lemma_eps_trans(s: Seq<NfaState>, i: int, j: int, k: int, n1: nat, n2: nat)
    requires
        eps_within(s, i, j, n1),
        eps_within(s, j, k, n2),
    ensures
        eps_within(s, i, k, n1 + n2),
    decreases n2,
{
    if n2 > 0 {
        let n3 = (n2 - 1) as nat;
        if eps_within(s, j, k, n3) {
            lemma_eps_trans(s, i, j, k, n1, n3);
            assert(eps_within(s, i, k, ((n1 + n2) - 1) as nat));
        } else {
            let m = choose|m: int| 0 <= m < s.len() && eps_within(s, j, m, n3) && #[trigger] eps_edge(s, m, k);
            lemma_eps_trans(s, i, j, m, n1, n3);
            assert(eps_within(s, i, m, ((n1 + n2) - 1) as nat));
        }
    }
}

proof fn lemma_eps_reach_trans(s: Seq<NfaState>, i: int, j: int, k: int)
    requires
        eps_reach(s, i, j),
        eps_reach(s, j, k),
    ensures
        eps_reach(s, i, k),
{
    let n1 = choose|n: nat| #[trigger] eps_within(s, i, j, n);
    let n2 = choose|n: nat| #[trigger] eps_within(s, j, k, n);
    lemma_eps_trans(s, i, j, k, n1, n2);
}

proof fn lemma_eps_reach_self(s: Seq<NfaState>, i: int)
    ensures
        eps_reach(s, i, i),
{
    assert(eps_within(s, i, i, 0));
}

/// The moves without input of the left state, the right one staying.
proof fn lemma_left_eps(
    f: Seq<NfaState>,
    pairs: Seq<(int, int)>,
    a: Seq<NfaState>,
    b: Seq<NfaState>,
    m0: int,
    x: int,
    n: nat,
)
    requires
        all_processed(f, pairs, a, b),
        0 <= m0 < f.len(),
        eps_within(a, pairs[m0].0, x, n),
    ensures
        exists|m: int| 0 <= m < f.len() && pairs[m] == (x, pairs[m0].1) && #[trigger] eps_reach(f, m0, m),
    decreases n,
{
    let (x0, y0) = pairs[m0];
    if n == 0 {
        lemma_eps_reach_self(f, m0);
    } else {
        let n1 = (n - 1) as nat;
        if eps_within(a, x0, x, n1) {
            lemma_left_eps(f, pairs, a, b, m0, x, n1);
        } else {
            let mid = choose|mid: int| 0 <= mid < a.len() && eps_within(a, x0, mid, n1) && #[trigger] eps_edge(a, mid, x);
            lemma_left_eps(f, pairs, a, b, m0, mid, n1);
            let m1 = choose|m: int| 0 <= m < f.len() && pairs[m] == (mid, y0) && #[trigger] eps_reach(f, m0, m);
            let u = choose|u: int| 0 <= u < a[mid].transitions.targets().len() && (#[trigger] a[mid].transitions.targets()[u]).0 == x;
            assert(processed(f, pairs, a, b, m1));
            assert(a[mid].maybe_accepts_for_rule is None);
            let t = f[m1].transitions;
            let m: int = match a[mid].transitions {
                Transitions::Tagged { tag, positive, target } => {
                    assert(a[mid].transitions.targets()[0] == target);
                    t->Tagged_target.0 as int
                },
                Transitions::Spontaneous(ts) => {
                    assert(a[mid].transitions.targets()[u] == ts@[u]);
                    t.targets()[u].0 as int
                },
                Transitions::Interval(_) => 0,
            };
            assert(0 <= m < f.len());
            assert(pairs[m] == (x, y0));
            assert(eps_edge(f, m1, m)) by {
                match a[mid].transitions {
                    Transitions::Tagged { .. } => {
                        assert(t.targets()[0].0 == m);
                    },
                    _ => {},
                }
            }
            let k1 = choose|k: nat| #[trigger] eps_within(f, m0, m1, k);
            lemma_eps_step(f, m0, m1, m, k1);
            assert(eps_reach(f, m0, m));
        }
    }
}

/// The moves without input of the right state, the left one moving on
/// characters.
proof fn lemma_right_eps(
    f: Seq<NfaState>,
    pairs: Seq<(int, int)>,
    a: Seq<NfaState>,
    b: Seq<NfaState>,
    m0: int,
    y: int,
    n: nat,
)
    requires
        all_processed(f, pairs, a, b),
        0 <= m0 < f.len(),
        a[pairs[m0].0].transitions is Interval,
        eps_within(b, pairs[m0].1, y, n),
    ensures
        exists|m: int| 0 <= m < f.len() && pairs[m] == (pairs[m0].0, y) && #[trigger] eps_reach(f, m0, m),
    decreases n,
{
    let (x0, y0) = pairs[m0];
    if n == 0 {
        lemma_eps_reach_self(f, m0);
    } else {
        let n1 = (n - 1) as nat;
        if eps_within(b, y0, y, n1) {
            lemma_right_eps(f, pairs, a, b, m0, y, n1);
        } else {
            let mid = choose|mid: int| 0 <= mid < b.len() && eps_within(b, y0, mid, n1) && #[trigger] eps_edge(b, mid, y);
            lemma_right_eps(f, pairs, a, b, m0, mid, n1);
            let m1 = choose|m: int| 0 <= m < f.len() && pairs[m] == (x0, mid) && #[trigger] eps_reach(f, m0, m);
            let u = choose|u: int| 0 <= u < b[mid].transitions.targets().len() && (#[trigger] b[mid].transitions.targets()[u]).0 == y;
            assert(processed(f, pairs, a, b, m1));
            assert(b[mid].maybe_accepts_for_rule is None);
            assert(!(b[mid].transitions is Tagged));
            let t = f[m1].transitions;
            let m: int = t.targets()[u].0 as int;
            match b[mid].transitions {
                Transitions::Spontaneous(ts) => {
                    assert(b[mid].transitions.targets()[u] == ts@[u]);
                },
                _ => {},
            }
            assert(0 <= m < f.len());
            assert(pairs[m] == (x0, y));
            assert(eps_edge(f, m1, m));
            let k1 = choose|k: nat| #[trigger] eps_within(f, m0, m1, k);
            lemma_eps_step(f, m0, m1, m, k1);
            assert(eps_reach(f, m0, m));
        }
    }
}

/// From a pair, moves without input of each side lead (left first) to the
/// pair of their ends, where the left end moves on characters.
proof fn lemma_both_eps(
    f: Seq<NfaState>,
    pairs: Seq<(int, int)>,
    a: Seq<NfaState>,
    b: Seq<NfaState>,
    m0: int,
    x: int,
    y: int,
)
    requires
        all_processed(f, pairs, a, b),
        0 <= m0 < f.len(),
        0 <= x < a.len(),
        a[x].transitions is Interval,
        eps_reach(a, pairs[m0].0, x),
        eps_reach(b, pairs[m0].1, y),
    ensures
        exists|m: int| 0 <= m < f.len() && pairs[m] == (x, y) && #[trigger] eps_reach(f, m0, m),
{
    let n1 = choose|n: nat| #[trigger] eps_within(a, pairs[m0].0, x, n);
    lemma_left_eps(f, pairs, a, b, m0, x, n1);
    let m1 = choose|m: int| 0 <= m < f.len() && pairs[m] == (x, pairs[m0].1) && #[trigger] eps_reach(f, m0, m);
    let n2 = choose|n: nat| #[trigger] eps_within(b, pairs[m0].1, y, n);
    lemma_right_eps(f, pairs, a, b, m1, y, n2);
    let m2 = choose|m: int| 0 <= m < f.len() && pairs[m] == (x, y) && #[trigger] eps_reach(f, m1, m);
    lemma_eps_reach_trans(f, m0, m1, m2);
}

/// Where each side can be after reading the first `k` characters, with the
/// left one in a state moving on characters, the search made a state for
/// the pair, where the product can be.
proof fn lemma_pair_configuration(
    f: Seq<NfaState>,
    pairs: Seq<(int, int)>,
    a: Seq<NfaState>,
    b: Seq<NfaState>,
    w: Seq<char>,
    k: nat,
    x: int,
    y: int,
)
    requires
        all_processed(f, pairs, a, b),
        k <= w.len(),
        0 <= x < a.len(),
        a[x].transitions is Interval,
        configuration(a, w, k, x),
        configuration(b, w, k, y),
    ensures
        exists|m: int| 0 <= m < f.len() && pairs[m] == (x, y) && #[trigger] configuration(f, w, k, m),
    decreases k,
{
    if k == 0 {
        lemma_both_eps(f, pairs, a, b, 0, x, y);
        let m = choose|m: int| 0 <= m < f.len() && pairs[m] == (x, y) && #[trigger] eps_reach(f, 0, m);
        assert(configuration(f, w, k, m));
    } else {
        let k1 = (k - 1) as nat;
        let c = w[k - 1];
        let (a1, b1) = choose|p: int, q: int|
            0 <= p < a.len() && 0 <= q < a.len() && configuration(a, w, k1, p) && #[trigger] char_edge(a, p, c, q)
                && eps_reach(a, q, x);
        let (a2, b2) = choose|p: int, q: int|
            0 <= p < b.len() && 0 <= q < b.len() && configuration(b, w, k1, p) && #[trigger] char_edge(b, p, c, q)
                && eps_reach(b, q, y);
        assert(a[a1].transitions is Interval);
        lemma_pair_configuration(f, pairs, a, b, w, k1, a1, a2);
        let m1 = choose|m: int| 0 <= m < f.len() && pairs[m] == (a1, a2) && #[trigger] configuration(f, w, k1, m);
        assert(processed(f, pairs, a, b, m1));
        let t1 = a[a1].transitions->Interval_0;
        let t2 = b[a2].transitions->Interval_0;
        assert(value_at(t1.entries_view(), c as int) == Some(NfaIdx(b1 as usize)));
        assert(value_at(t2.entries_view(), c as int) == Some(NfaIdx(b2 as usize)));
        let e = crate::interval_tree::entry_index_at(t1.entries_view(), c as int);
        assert(a[a1].transitions.targets()[e] == t1.entries_view()[e].1);
        assert(a[a1].maybe_accepts_for_rule is None);
        let tf = f[m1].transitions->Interval_0;
        let mid = (value_at(tf.entries_view(), c as int)->0).0 as int;
        assert(pairs[mid] == (b1, b2));
        assert(char_edge(f, m1, c, mid));
        lemma_both_eps(f, pairs, a, b, mid, x, y);
        let m = choose|m: int| 0 <= m < f.len() && pairs[m] == (x, y) && #[trigger] eps_reach(f, mid, m);
        assert(configuration(f, w, k, m));
    }
}

/// A state with a move to a live state is live.
proof fn lemma_live_back(s: Seq<NfaState>, i: int, u: int)
    requires
        0 <= u < s[i].transitions.targets().len(),
        live(s, s[i].transitions.targets()[u].0 as int),
    ensures
        live(s, i),
{
    let k = choose|k: nat| reaches_within(s, s[i].transitions.targets()[u].0 as int, k);
    assert(reaches_within(s, i, k + 1));
}

/// Moves without input towards a live state are live, and are kept.
proof fn lemma_eps_kept(f: Seq<NfaState>, r: Seq<NfaState>, live_marks: Seq<bool>, i: int, j: int, n: nat)
    requires
        f.len() == r.len(),
        f.len() <= usize::MAX,
        live_marks.len() == f.len(),
        forall|q: int| 0 <= q < f.len() ==> live_marks[q] == live(f, q),
        forall|q: int| 0 <= q < f.len() ==> kept_live(#[trigger] f[q].transitions, r[q].transitions, live_marks),
        eps_within(f, i, j, n),
        0 <= j < f.len(),
        live(f, j),
    ensures
        eps_within(r, i, j, n),
        live(f, i),
    decreases n,
{
    if n > 0 {
        let n1 = (n - 1) as nat;
        if eps_within(f, i, j, n1) {
            lemma_eps_kept(f, r, live_marks, i, j, n1);
        } else {
            let m = choose|m: int| 0 <= m < f.len() && eps_within(f, i, m, n1) && #[trigger] eps_edge(f, m, j);
            let u = choose|u: int| 0 <= u < f[m].transitions.targets().len() && (#[trigger] f[m].transitions.targets()[u]).0 == j;
            lemma_live_back(f, m, u);
            lemma_eps_kept(f, r, live_marks, i, m, n1);
            assert(kept_live(f[m].transitions, r[m].transitions, live_marks));
            assert(live_marks[j]);
            assert(has_target(r[m].transitions, j));
            assert(eps_edge(r, m, j));
            lemma_eps_step(r, i, m, j, n1);
        }
    }
}

/// A run of the search's product ending in a live state is a run of the
/// pruned product.
proof fn lemma_configuration_kept(f: Seq<NfaState>, r: Seq<NfaState>, live_marks: Seq<bool>, w: Seq<char>, k: nat, m: int)
    requires
        f.len() == r.len(),
        f.len() <= usize::MAX,
        live_marks.len() == f.len(),
        forall|q: int| 0 <= q < f.len() ==> live_marks[q] == live(f, q),
        forall|q: int| 0 <= q < f.len() ==> kept_live(#[trigger] f[q].transitions, r[q].transitions, live_marks),
        k <= w.len(),
        0 <= m < f.len(),
        configuration(f, w, k, m),
        live(f, m),
    ensures
        configuration(r, w, k, m),
    decreases k,
{
    if k == 0 {
        let n = choose|n: nat| #[trigger] eps_within(f, 0, m, n);
        lemma_eps_kept(f, r, live_marks, 0, m, n);
        assert(eps_reach(r, 0, m));
    } else {
        let k1 = (k - 1) as nat;
        let c = w[k - 1];
        let (p, q) = choose|p: int, q: int|
            0 <= p < f.len() && 0 <= q < f.len() && configuration(f, w, k1, p) && #[trigger] char_edge(f, p, c, q)
                && eps_reach(f, q, m);
        let n = choose|n: nat| #[trigger] eps_within(f, q, m, n);
        lemma_eps_kept(f, r, live_marks, q, m, n);
        let tree = f[p].transitions->Interval_0;
        let e = crate::interval_tree::entry_index_at(tree.entries_view(), c as int);
        assert(f[p].transitions.targets()[e] == tree.entries_view()[e].1);
        lemma_live_back(f, p, e);
        assert(kept_live(f[p].transitions, r[p].transitions, live_marks));
        assert(live_marks[q]);
        assert(char_edge(r, p, c, q));
        lemma_configuration_kept(f, r, live_marks, w, k1, p);
        assert(eps_reach(r, q, m));
        assert(configuration(r, w, k, m));
    }
}

/// What both automata accept, the pruned product of the search accepts.
proof fn lemma_product_complete(
    f: Seq<NfaState>,
    r: Seq<NfaState>,
    live_marks: Seq<bool>,
    pairs: Seq<(int, int)>,
    a: Seq<NfaState>,
    b: Seq<NfaState>,
    w: Seq<char>,
)
    requires
        all_processed(f, pairs, a, b),
        forall|i: int| 0 <= i < a.len() && (#[trigger] a[i]).maybe_accepts_for_rule is Some ==> a[i].transitions is Interval,
        f.len() == r.len(),
        live_marks.len() == f.len(),
        forall|q: int| 0 <= q < f.len() ==> live_marks[q] == live(f, q),
        forall|q: int| 0 <= q < f.len() ==> kept_live(#[trigger] f[q].transitions, r[q].transitions, live_marks),
        forall|q: int| 0 <= q < f.len() ==> (#[trigger] r[q]).maybe_accepts_for_rule == f[q].maybe_accepts_for_rule,
        accepts_input(a, w),
        accepts_input(b, w),
    ensures
        accepts_input(r, w),
{
    let x = choose|j: int| 0 <= j < a.len() && #[trigger] configuration(a, w, w.len(), j) && a[j].maybe_accepts_for_rule is Some;
    let y = choose|j: int| 0 <= j < b.len() && #[trigger] configuration(b, w, w.len(), j) && b[j].maybe_accepts_for_rule is Some;
    lemma_pair_configuration(f, pairs, a, b, w, w.len(), x, y);
    let m = choose|m: int| 0 <= m < f.len() && pairs[m] == (x, y) && #[trigger] configuration(f, w, w.len(), m);
    assert(processed(f, pairs, a, b, m));
    assert(f[m].maybe_accepts_for_rule is Some);
    assert(reaches_within(f, m, 0));
    assert(live(f, m));
    lemma_configuration_kept(f, r, live_marks, w, w.len(), m);
    assert(r[m].maybe_accepts_for_rule is Some);
}

/// Every entry kept by [`select`] is an entry of `s` that `keep` marks.
proof fn lemma_select_members(s: Seq<(Interval<u32>, NfaIdx)>, keep: Seq<bool>)
    requires
        keep.len() == s.len(),
    ensures
        forall|j: int|
            #![trigger select(s, keep)[j]]
            0 <= j < select(s, keep).len() ==> exists|q: int|
                #![trigger s[q]]
                0 <= q < s.len() && keep[q] && select(s, keep)[j] == s[q],
    decreases s.len(),
{
    if s.len() > 0 {
        let s0 = s.drop_last();
        let k0 = keep.drop_last();
        lemma_select_members(s0, k0);
        let prev = select(s0, k0);
        assert forall|j: int|
            #![trigger select(s, keep)[j]]
            0 <= j < select(s, keep).len() implies exists|q: int|
            #![trigger s[q]]
            0 <= q < s.len() && keep[q] && select(s, keep)[j] == s[q] by {
            if j < prev.len() {
                assert(select(s0, k0)[j] == prev[j]);
                let q = choose|q: int| #![trigger s0[q]] 0 <= q < s0.len() && k0[q] && select(s0, k0)[j] == s0[q];
                assert(select(s, keep)[j] == prev[j]);
                assert(s0[q] == s[q]);
                assert(k0[q] == keep[q]);
            } else {
                assert(select(s, keep)[j] == s.last());
                assert(s[s.len() - 1] == s.last());
            }
        }
    } else {
        assert(select(s, keep).len() == 0);
    }
}

/// Some move of `t` leads to `m`.
pub open spec fn has_target(t: Transitions, m: int) -> bool {
    exists|u: int| 0 <= u < t.targets().len() && (#[trigger] t.targets()[u]).0 == m
}

/// `t` without its moves to states that cannot reach acceptance (a tagged
/// move is kept).
fn prune_moves(t: &Transitions, live_states: &Vec<bool>) -> (r: Transitions)
    requires
        t.targets_below(live_states@.len() as int),
    ensures
        t is Interval <==> r is Interval,
        t is Tagged <==> r is Tagged,
        t is Tagged ==> r.targets() == t.targets(),
        !(t is Tagged) ==> forall|u: int|
            0 <= u < r.targets().len() ==> live_states@[(#[trigger] r.targets()[u]).0 as int],
        forall|m: int| #[trigger] has_target(r, m) ==> has_target(*t, m),
        (t is Interval && r is Interval) ==> forall|p: int|
            #![trigger value_at(r->Interval_0.entries_view(), p)]
            value_at(r->Interval_0.entries_view(), p) is Some ==> value_at(r->Interval_0.entries_view(), p)
                == value_at(t->Interval_0.entries_view(), p),
        (t is Interval && r is Interval) ==> forall|p: int|
            #![trigger value_at(t->Interval_0.entries_view(), p)]
            value_at(t->Interval_0.entries_view(), p) is Some && live_states@[(value_at(
                t->Interval_0.entries_view(),
                p,
            )->0).0 as int] ==> value_at(r->Interval_0.entries_view(), p) == value_at(t->Interval_0.entries_view(), p),
        !(t is Interval) ==> forall|v: int|
            0 <= v < t.targets().len() && live_states@[(#[trigger] t.targets()[v]).0 as int] ==> has_target(
                r,
                t.targets()[v].0 as int,
            ),
{
    match t {
        Transitions::Interval(tree) => {
            let mut kept: IntervalTree<u32, NfaIdx> = tree.clone();
            let ghost s = kept.entries_view();
            let original: &[(Interval<u32>, NfaIdx)] = tree.iter();
            proof {
                assert(s =~= tree.entries_view());
                assert forall|q: int| 0 <= q < s.len() implies (#[trigger] s[q]).1.0 < live_states@.len() by {
                    assert(t.targets()[q] == s[q].1);
                }
            }
            let n: usize = live_states.len();
            let is_live = |e: &(Interval<u32>, NfaIdx)| -> (b: bool)
                requires
                    e.1.0 < n,
                    n == live_states@.len(),
                ensures
                    b == live_states@[e.1.0 as int],
                {
                    let target: usize = e.1.0;
                    live_states[target]
                };
            kept.retain(is_live);
            let after: &[(Interval<u32>, NfaIdx)] = kept.iter();
            proof {
                let keep = choose|keep: Seq<bool>|
                    {
                        &&& keep.len() == s.len()
                        &&& forall|i: int| 0 <= i < keep.len() ==> call_ensures(is_live, (&#[trigger] s[i],), keep[i])
                        &&& kept.entries_view() == select(s, keep)
                    };
                lemma_select_members(s, keep);
                let r = kept.entries_view();
                let rt = Transitions::Interval(kept).targets();
                assert forall|u: int| 0 <= u < rt.len() implies live_states@[(#[trigger] rt[u]).0 as int]
                    && exists|v: int| #![trigger t.targets()[v]] 0 <= v < t.targets().len() && rt[u] == t.targets()[v] by {
                    assert(rt.len() == r.len());
                    assert(0 <= u < select(s, keep).len());
                    assert(select(s, keep)[u] == r[u]);
                    let q = choose|q: int| #![trigger s[q]] 0 <= q < s.len() && keep[q] && select(s, keep)[u] == s[q];
                    assert(rt[u] == r[u].1);
                    assert(call_ensures(is_live, (&s[q],), keep[q]));
                    assert(t.targets()[q] == s[q].1);
                }
                assert forall|p: int|
                    #![trigger value_at(r, p)]
                    value_at(r, p) is Some implies value_at(r, p) == value_at(s, p) by {
                    let j = entry_index_at(r, p);
                    lemma_value_at(r, j, p);
                    let q = choose|q: int| #![trigger s[q]] 0 <= q < s.len() && keep[q] && select(s, keep)[j] == s[q];
                    lemma_value_at(s, q, p);
                }
                assert forall|m: int| #[trigger] has_target(Transitions::Interval(kept), m) implies has_target(*t, m) by {
                    let u = choose|u: int| 0 <= u < rt.len() && (#[trigger] rt[u]).0 == m;
                    let v = choose|v: int| 0 <= v < t.targets().len() && rt[u] == t.targets()[v];
                    assert(t.targets()[v].0 == m);
                }
                assert forall|p: int|
                    #![trigger value_at(s, p)]
                    value_at(s, p) is Some && live_states@[(value_at(s, p)->0).0 as int] implies value_at(r, p)
                        == value_at(s, p) by {
                    let q = entry_index_at(s, p);
                    lemma_value_at(s, q, p);
                    assert(call_ensures(is_live, (&s[q],), keep[q]));
                    lemma_select_keeps(s, keep, q);
                    let j = choose|j: int| 0 <= j < select(s, keep).len() && #[trigger] select(s, keep)[j] == s[q];
                    assert(r[j] == s[q]);
                    lemma_value_at(r, j, p);
                }
            }
            Transitions::Interval(kept)
        },
        Transitions::Spontaneous(targets) => {
            let mut kept: Vec<NfaIdx> = Vec::new();
            let mut i: usize = 0;
            while i < targets.len()
                invariant
                    0 <= i <= targets@.len(),
                    targets@ == t.targets(),
                    t.targets_below(live_states@.len() as int),
                    forall|u: int| 0 <= u < kept@.len() ==> live_states@[(#[trigger] kept@[u]).0 as int],
                    forall|u: int|
                        0 <= u < kept@.len() ==> exists|v: int| 0 <= v < i && #[trigger] kept@[u] == targets@[v],
                    forall|v: int|
                        0 <= v < i && live_states@[(#[trigger] targets@[v]).0 as int] ==> exists|u: int|
                            0 <= u < kept@.len() && kept@[u] == targets@[v],
                decreases targets@.len() - i,
            {
                let target: NfaIdx = targets[i];
                proof {
                    assert(t.targets()[i as int] == target);
                }
                let ghost before = kept@;
                if live_states[target.0] {
                    kept.push(target);
                }
                proof {
                    assert forall|v: int|
                        0 <= v < i + 1 && live_states@[(#[trigger] targets@[v]).0 as int] implies exists|u: int|
                            0 <= u < kept@.len() && kept@[u] == targets@[v] by {
                        if v < i {
                            let u = choose|u: int| 0 <= u < before.len() && before[u] == targets@[v];
                            assert(kept@[u] == before[u]);
                        } else {
                            assert(kept@[kept@.len() - 1] == targets@[v]);
                        }
                    }
                }
                i = i + 1;
            }
            let result: Transitions = Transitions::Spontaneous(kept);
            proof {
                assert forall|v: int|
                    0 <= v < t.targets().len() && live_states@[(#[trigger] t.targets()[v]).0 as int] implies has_target(
                    result,
                    t.targets()[v].0 as int,
                ) by {
                    assert(t.targets()[v] == targets@[v]);
                    let u = choose|u: int| 0 <= u < kept@.len() && kept@[u] == targets@[v];
                    assert(result.targets()[u] == kept@[u]);
                }
                assert forall|m: int| #[trigger] has_target(result, m) implies has_target(*t, m) by {
                    let u = choose|u: int| 0 <= u < result.targets().len() && (#[trigger] result.targets()[u]).0 == m;
                    let v = choose|v: int| 0 <= v < targets@.len() && #[trigger] kept@[u] == targets@[v];
                    assert(t.targets()[v] == targets@[v]);
                }
            }
            result
        },
        Transitions::Tagged { tag, positive, target } => {
            let result = Transitions::Tagged { tag: tag.deep_copy(), positive: *positive, target: *target };
            assert(result.targets() =~= t.targets());
            proof {
                assert forall|v: int|
                    0 <= v < t.targets().len() && live_states@[(#[trigger] t.targets()[v]).0 as int] implies has_target(
                    result,
                    t.targets()[v].0 as int,
                ) by {
                    assert(result.targets()[v] == t.targets()[v]);
                }
                assert forall|m: int| #[trigger] has_target(result, m) implies has_target(*t, m) by {
                    let u = choose|u: int| 0 <= u < result.targets().len() && (#[trigger] result.targets()[u]).0 == m;
                    assert(t.targets()[u] == result.targets()[u]);
                }
            }
            result
        },
    }
}

/// Moves without input in a product are such moves of each side, where the
/// other side stays.
proof fn lemma_product_eps(
    r: Seq<NfaState>,
    a: Seq<NfaState>,
    b: Seq<NfaState>,
    pairs: Seq<(int, int)>,
    i: int,
    j: int,
    k: nat,
)
    requires
        states_wf(r),
        product_of(r, a, b, pairs),
        0 <= i < r.len(),
        eps_within(r, i, j, k),
    ensures
        0 <= j < r.len(),
        eps_within(a, pairs[i].0, pairs[j].0, k),
        eps_within(b, pairs[i].1, pairs[j].1, k),
    decreases k,
{
    if k > 0 {
        let k1 = (k - 1) as nat;
        if eps_within(r, i, j, k1) {
            lemma_product_eps(r, a, b, pairs, i, j, k1);
        } else {
            let m = choose|m: int| 0 <= m < r.len() && eps_within(r, i, m, k1) && #[trigger] eps_edge(r, m, j);
            lemma_product_eps(r, a, b, pairs, i, m, k1);
            let u = choose|u: int|
                0 <= u < r[m].transitions.targets().len() && (#[trigger] r[m].transitions.targets()[u]).0 == j;
            assert(r[m].transitions.targets_below(r.len() as int));
            assert(eps_edge(r, m, j));
            if eps_edge(a, pairs[m].0, pairs[j].0) && pairs[m].1 == pairs[j].1 {
                assert(eps_within(a, pairs[i].0, pairs[j].0, k));
                assert(eps_within(b, pairs[i].1, pairs[j].1, k));
            } else {
                assert(eps_within(a, pairs[i].0, pairs[j].0, k));
                assert(eps_within(b, pairs[i].1, pairs[j].1, k));
            }
        }
    }
}

/// Where a product can be after reading some characters, each side can be
/// in the states of the pair.
proof fn lemma_product_configuration(
    r: Seq<NfaState>,
    a: Seq<NfaState>,
    b: Seq<NfaState>,
    pairs: Seq<(int, int)>,
    w: Seq<char>,
    k: nat,
    j: int,
)
    requires
        states_wf(r),
        product_of(r, a, b, pairs),
        0 <= j < r.len(),
        k <= w.len(),
        configuration(r, w, k, j),
    ensures
        configuration(a, w, k, pairs[j].0),
        configuration(b, w, k, pairs[j].1),
    decreases k,
{
    if k == 0 {
        let kk = choose|kk: nat| #[trigger] eps_within(r, 0, j, kk);
        lemma_product_eps(r, a, b, pairs, 0, j, kk);
        assert(eps_reach(a, 0, pairs[j].0));
        assert(eps_reach(b, 0, pairs[j].1));
    } else {
        let k1 = (k - 1) as nat;
        let (x, y) = choose|x: int, y: int|
            0 <= x < r.len() && 0 <= y < r.len() && configuration(r, w, k1, x) && #[trigger] char_edge(
                r,
                x,
                w[k - 1],
                y,
            ) && eps_reach(r, y, j);
        lemma_product_configuration(r, a, b, pairs, w, k1, x);
        let kk = choose|kk: nat| #[trigger] eps_within(r, y, j, kk);
        lemma_product_eps(r, a, b, pairs, y, j, kk);
        assert(eps_reach(a, pairs[y].0, pairs[j].0));
        assert(eps_reach(b, pairs[y].1, pairs[j].1));
        assert(char_edge(a, pairs[x].0, w[k - 1], pairs[y].0));
        assert(char_edge(b, pairs[x].1, w[k - 1], pairs[y].1));
        assert(0 <= pairs[x].0 < a.len() && 0 <= pairs[y].0 < a.len());
        assert(0 <= pairs[x].1 < b.len() && 0 <= pairs[y].1 < b.len());
    }
}

/// A product accepts only what both sides accept.
pub proof fn lemma_product_accepts(
    r: Seq<NfaState>,
    a: Seq<NfaState>,
    b: Seq<NfaState>,
    pairs: Seq<(int, int)>,
    w: Seq<char>,
)
    requires
        states_wf(r),
        product_of(r, a, b, pairs),
        accepts_input(r, w),
    ensures
        accepts_input(a, w),
        accepts_input(b, w),
{
    let j = choose|j: int|
        0 <= j < r.len() && #[trigger] configuration(r, w, w.len(), j) && r[j].maybe_accepts_for_rule is Some;
    lemma_product_configuration(r, a, b, pairs, w, w.len(), j);
    assert(configuration(a, w, w.len(), pairs[j].0));
    assert(configuration(b, w, w.len(), pairs[j].1));
}

proof fn lemma_count_none_all(s: Seq<Option<usize>>)
    requires
        forall|i: int| 0 <= i < s.len() ==> (#[trigger] s[i]) is None,
    ensures
        count_none(s) == s.len(),
    decreases s.len(),
{
    if s.len() > 0 {
        lemma_count_none_all(s.drop_last());
    }
}

impl Tnfa {
    /// The intersection of `self` and `other`: its states stand for the pairs
    /// of states reachable from the pair of start states, where the left
    /// state's moves without input are taken before the right state's, and
    /// moves on characters are taken together on the characters both move
    /// on; a pair of accepting states accepts for the left one's rule. Moves
    /// to states from which no accepting state can be reached are removed
    /// (tagged moves are kept). The right automaton has no tagged moves.
    pub fn intersect(&self, other: &Tnfa) -> (r: Tnfa)
        requires
            self.wf(),
            other.wf(),
            forall|j: int|
                0 <= j < other.states@.len() ==> !((#[trigger] other.states@[j]).transitions is Tagged),
            self.states@.len() * other.states@.len() <= usize::MAX,
        ensures
            r.wf(),
            r.tags@.len() == 0,
            exists|pairs: Seq<(int, int)>| product_of(r.states@, self.states@, other.states@, pairs),
            r.states@.len() <= self.states@.len() * other.states@.len(),
            (forall|i: int| 0 <= i < self.states@.len() ==> !((#[trigger] self.states@[i]).transitions is Tagged))
                ==> forall|k: int| 0 <= k < r.states@.len() ==> !((#[trigger] r.states@[k]).transitions is Tagged),
            forall|w: Seq<char>|
                #[trigger] accepts_input(r.states@, w) ==> accepts_input(self.states@, w) && accepts_input(
                    other.states@,
                    w,
                ),
            crate::nfa::accepting_nil(self.states@) && crate::nfa::accepting_nil(other.states@) && (forall|i: int|
                0 <= i < self.states@.len() && (#[trigger] self.states@[i]).maybe_accepts_for_rule is Some
                    ==> self.states@[i].transitions is Interval) ==> forall|w: Seq<char>|
                accepts_input(self.states@, w) && accepts_input(other.states@, w) ==> #[trigger] accepts_input(
                    r.states@,
                    w,
                ),
    {
        let ghost a = self.states@;
        let ghost b = other.states@;
        let n1: usize = self.states.len();
        let n2: usize = other.states.len();
        let total: usize = n1 * n2;
        proof {
            assert(1 <= total) by (nonlinear_arith)
                requires
                    1 <= n1,
                    1 <= n2,
                    total == n1 * n2,
            ;
        }
        let mut seen: Vec<Option<usize>> = Vec::new();
        let mut i: usize = 0;
        while i < total
            invariant
                0 <= i <= total,
                seen@.len() == i,
                forall|j: int| 0 <= j < i ==> (#[trigger] seen@[j]) is None,
            decreases total - i,
        {
            seen.push(None);
            i = i + 1;
        }
        proof {
            lemma_count_none_all(seen@);
            lemma_count_none_set(seen@, 0, 0);
        }
        seen.set(0, Some(0));
        let mut states: Vec<NfaState> = Vec::new();
        states.push(
            NfaState {
                idx: NfaIdx(0),
                transitions: Transitions::Spontaneous(Vec::new()),
                maybe_accepts_for_rule: None,
                maybe_encoding: None,
            },
        );
        let mut pairs: Vec<(usize, usize)> = Vec::new();
        pairs.push((0, 0));
        let mut stack: Vec<usize> = Vec::new();
        stack.push(0);
        let mut product: Product = Product { result: Tnfa { states, tags: Vec::new() }, pairs, seen, stack };
        proof {
            let r = product.result.states@;
            assert(r[0].transitions.targets() =~= Seq::<NfaIdx>::empty());
            assert(states_wf(r));
            assert(product.pairing()[0] == (0int, 0int));
            assert(slot(0, 0, n2 as int) == 0);
            assert forall|s: int|
                0 <= s < product.seen@.len() && (#[trigger] product.seen@[s]) is Some implies product.seen@[s]->0
                < product.pairs@.len() && slot(
                product.pairs@[product.seen@[s]->0 as int].0 as int,
                product.pairs@[product.seen@[s]->0 as int].1 as int,
                b.len() as int,
            ) == s by {
                if s != 0 {
                    assert(seen@[s] is None);
                }
            }
        }
        proof {
            assert forall|m: int|
                0 <= m < product.pairs@.len() && !on_stack(product.stack@, m) implies #[trigger] processed(
                product.result.states@,
                product.pairing(),
                a,
                b,
                m,
            ) by {
                assert(product.stack@[0] as int == m);
            }
        }
        while product.stack.len() > 0
            invariant
                product.inv(a, b),
                a == self.states@,
                b == other.states@,
                self.wf(),
                other.wf(),
                forall|j: int| 0 <= j < b.len() ==> !((#[trigger] b[j]).transitions is Tagged),
                forall|m: int|
                    0 <= m < product.pairs@.len() && !on_stack(product.stack@, m) ==> #[trigger] processed(
                        product.result.states@,
                        product.pairing(),
                        a,
                        b,
                        m,
                    ),
            decreases product.measure(),
        {
            let ghost before = product;
            let k: usize = product.stack.pop().unwrap();
            let ghost popped = product;
            proof {
                assert(before.stack@[before.stack@.len() - 1] == k);
                assert forall|q: int| 0 <= q < product.stack@.len() implies (#[trigger] product.stack@[q])
                    < product.pairs@.len() by {
                    assert(product.stack@[q] == before.stack@[q]);
                }
            }
            let x: usize = product.pairs[k].0;
            let y: usize = product.pairs[k].1;
            proof {
                assert(product.pairing()[k as int] == (x as int, y as int));
            }
            if self.states[x].is_accepting() && other.states[y].is_accepting() {
                product.mark_accepting(k, self, other);
                proof {
                    assert forall|m: int|
                        0 <= m < product.pairs@.len() && !on_stack(product.stack@, m) implies #[trigger] processed(
                        product.result.states@,
                        product.pairing(),
                        a,
                        b,
                        m,
                    ) by {
                        if m != k {
                            if on_stack(before.stack@, m) {
                                let i = choose|i: int| 0 <= i < before.stack@.len() && before.stack@[i] as int == m;
                                assert(popped.stack@[i] == before.stack@[i]);
                            }
                            assert(processed(before.result.states@, before.pairing(), a, b, m));
                            assert(product.result.states@[m] == before.result.states@[m]);
                        }
                    }
                }
            } else {
                product.expand(k, self, other);
                proof {
                    assert forall|m: int|
                        0 <= m < product.pairs@.len() && !on_stack(product.stack@, m) implies #[trigger] processed(
                        product.result.states@,
                        product.pairing(),
                        a,
                        b,
                        m,
                    ) by {
                        if m != k {
                            if m >= popped.pairs@.len() {
                                assert(on_stack(product.stack@, m));
                            } else {
                                if on_stack(popped.stack@, m) {
                                    let i = choose|i: int| 0 <= i < popped.stack@.len() && popped.stack@[i] as int == m;
                                    assert(product.stack@.subrange(0, popped.stack@.len() as int)[i] == product.stack@[i]);
                                    assert(on_stack(product.stack@, m));
                                }
                                if on_stack(before.stack@, m) {
                                    let i = choose|i: int| 0 <= i < before.stack@.len() && before.stack@[i] as int == m;
                                    assert(popped.stack@[i] == before.stack@[i]);
                                }
                                assert(processed(before.result.states@, before.pairing(), a, b, m));
                                assert(product.result.states@[m] == before.result.states@[m]);
                                assert(product.pairing()[m] == before.pairing()[m]) by {
                                    assert(product.pairing().subrange(0, popped.pairs@.len() as int)[m] == product.pairing()[m]);
                                }
                                let (x2, y2) = before.pairing()[m];
                                if !(a[x2].maybe_accepts_for_rule is Some && b[y2].maybe_accepts_for_rule is Some) {
                                    lemma_pair_moves_extend(
                                        before.result.states@[m].transitions,
                                        a[x2].transitions,
                                        b[y2].transitions,
                                        x2,
                                        y2,
                                        before.pairing(),
                                        product.pairing(),
                                    );
                                }
                            }
                        }
                    }
                }
            }
        }
        let ghost full = product.result.states@;
        let ghost prf = product.pairing();
        proof {
            assert forall|m: int| 0 <= m < full.len() implies #[trigger] processed(full, prf, a, b, m) by {
                assert(!on_stack(product.stack@, m));
            }
        }
        let live_states: Vec<bool> = product.result.compute_live_states();
        let len: usize = product.result.states.len();
        let mut k: usize = 0;
        while k < len
            invariant
                product.inv(a, b),
                len == product.result.states@.len(),
                live_states@.len() == len,
                0 <= k <= len,
                full.len() == len,
                product.pairing() == prf,
                forall|q: int| 0 <= q < len ==> live_states@[q] == live(full, q),
                forall|q: int| 0 <= q < k ==> kept_live(#[trigger] full[q].transitions, product.result.states@[q].transitions, live_states@),
                forall|q: int| k <= q < len ==> #[trigger] product.result.states@[q] == full[q],
                forall|q: int| 0 <= q < len ==> (#[trigger] product.result.states@[q]).maybe_accepts_for_rule == full[q].maybe_accepts_for_rule,
            decreases len - k,
        {
            let ghost r = product.result.states@;
            let ghost pr = product.pairing();
            proof {
                assert(r[k as int].transitions.targets_below(len as int));
            }
            let pruned: Transitions = prune_moves(&product.result.states[k].transitions, &live_states);
            proof {
                let t = r[k as int].transitions;
                assert forall|q: int| 0 <= q < pruned.targets().len() implies (#[trigger] pruned.targets()[q]).0
                    < len by {
                    assert(has_target(pruned, pruned.targets()[q].0 as int));
                    let v = choose|v: int| 0 <= v < t.targets().len() && (#[trigger] t.targets()[v]).0
                        == pruned.targets()[q].0;
                }
                assert forall|c: char|
                    #![trigger value_at(pruned->Interval_0.entries_view(), c as int)]
                    pruned is Interval && value_at(pruned->Interval_0.entries_view(), c as int) is Some && (value_at(
                        pruned->Interval_0.entries_view(),
                        c as int,
                    )->0).0 < pr.len() implies char_edge(
                    a,
                    pr[k as int].0,
                    c,
                    pr[(value_at(pruned->Interval_0.entries_view(), c as int)->0).0 as int].0,
                ) && char_edge(
                    b,
                    pr[k as int].1,
                    c,
                    pr[(value_at(pruned->Interval_0.entries_view(), c as int)->0).0 as int].1,
                ) by {
                    let m = (value_at(pruned->Interval_0.entries_view(), c as int)->0).0 as int;
                    assert(char_edge(r, k as int, c, m));
                }
                assert forall|u: int|
                    0 <= u < pruned.targets().len() && !(pruned is Interval) && 0 <= (
                    #[trigger] pruned.targets()[u]).0 < pr.len() implies (eps_edge(
                    a,
                    pr[k as int].0,
                    pr[pruned.targets()[u].0 as int].0,
                ) && pr[k as int].1 == pr[pruned.targets()[u].0 as int].1) || (pr[k as int].0
                    == pr[pruned.targets()[u].0 as int].0 && eps_edge(
                    b,
                    pr[k as int].1,
                    pr[pruned.targets()[u].0 as int].1,
                )) by {
                    let m = pruned.targets()[u].0 as int;
                    assert(has_target(pruned, m));
                    let v = choose|v: int| 0 <= v < t.targets().len() && (#[trigger] t.targets()[v]).0 == m;
                    assert(eps_edge(r, k as int, m));
                }
            }
            let ghost before_give = product.result.states@;
            product.give_moves(k, pruned, Ghost(a), Ghost(b));
            proof {
                let now = product.result.states@;
                assert(before_give[k as int] == full[k as int]);
                assert forall|q: int| 0 <= q < k + 1 implies kept_live(#[trigger] full[q].transitions, now[q].transitions, live_states@) by {
                    if q < k {
                        assert(now[q] == before_give[q]);
                    }
                }
                assert forall|q: int| k + 1 <= q < len implies #[trigger] now[q] == full[q] by {
                    assert(now[q] == before_give[q]);
                }
                assert forall|q: int| 0 <= q < len implies (#[trigger] now[q]).maybe_accepts_for_rule == full[q].maybe_accepts_for_rule by {
                    if q != k {
                        assert(now[q] == before_give[q]);
                    }
                }
            }
            k = k + 1;
        }
        let ghost pr = product.pairing();
        let result: Tnfa = product.result;
        proof {
            assert(product_of(result.states@, a, b, pr));
            assert(result.states@.len() <= a.len() * b.len());
            if forall|i: int| 0 <= i < a.len() ==> !((#[trigger] a[i]).transitions is Tagged) {
                assert forall|k: int| 0 <= k < result.states@.len() implies !((#[trigger] result.states@[k]).transitions is Tagged) by {
                    if result.states@[k].transitions is Tagged {
                        assert(a[pr[k].0].transitions is Tagged);
                    }
                }
            }
            assert forall|w: Seq<char>| #[trigger] accepts_input(result.states@, w) implies accepts_input(a, w)
                && accepts_input(b, w) by {
                lemma_product_accepts(result.states@, a, b, pr, w);
            }
            if crate::nfa::accepting_nil(a) && crate::nfa::accepting_nil(b) && (forall|i: int|
                0 <= i < a.len() && (#[trigger] a[i]).maybe_accepts_for_rule is Some ==> a[i].transitions is Interval) {
                assert(all_processed(full, prf, a, b)) by {
                    assert(product_of(full, a, b, prf));
                }
                assert forall|w: Seq<char>|
                    accepts_input(a, w) && accepts_input(b, w) implies #[trigger] accepts_input(result.states@, w) by {
                    lemma_product_complete(full, result.states@, live_states@, prf, a, b, w);
                }
            }
        }
        result
    }
}

} // verus!
