//! Running an automaton on a string, keeping the set of states it can be in.
//! Tags do not affect which strings are accepted; they are not recorded.

use vstd::prelude::*;

use crate::interval_tree::value_at;
use crate::nfa::NfaIdx;
use crate::nfa::NfaState;
use crate::nfa::Tnfa;
use crate::nfa::Transitions;
use crate::nfa::count_false;
use crate::nfa::lemma_count_false_bound;
use crate::nfa::lemma_count_false_set;
use crate::nfa::states_wf;
use crate::text::char_code;
use crate::text::chars_of;

verus! {

/// A move without input (spontaneous or tagged) from `i` to `j`.
pub open spec fn eps_edge(states: Seq<NfaState>, i: int, j: int) -> bool {
    &&& !(states[i].transitions is Interval)
    &&& exists|t: int|
        0 <= t < states[i].transitions.targets().len() && (#[trigger] states[i].transitions.targets()[t]).0 == j
}

/// `j` is reachable from `i` by at most `k` moves without input.
pub open spec fn eps_within(states: Seq<NfaState>, i: int, j: int, k: nat) -> bool
    decreases k,
{
    if k == 0 {
        i == j
    } else {
        eps_within(states, i, j, (k - 1) as nat) || exists|m: int|
            0 <= m < states.len() && eps_within(states, i, m, (k - 1) as nat) && #[trigger] eps_edge(states, m, j)
    }
}

/// `j` is reachable from `i` by moves without input.
pub open spec fn eps_reach(states: Seq<NfaState>, i: int, j: int) -> bool {
    exists|k: nat| #[trigger] eps_within(states, i, j, k)
}

/// A move from `i` to `j` on the character `c`.
pub open spec fn char_edge(states: Seq<NfaState>, i: int, c: char, j: int) -> bool {
    match states[i].transitions {
        Transitions::Interval(tree) => value_at(tree.entries_view(), c as int) == Some(NfaIdx(j as usize)),
        _ => false,
    }
}

/// After reading the first `k` characters of `input` from state 0, the
/// automaton can be in state `j`.
pub open spec fn configuration(states: Seq<NfaState>, input: Seq<char>, k: nat, j: int) -> bool
    decreases k,
{
    if k == 0 {
        eps_reach(states, 0, j)
    } else {
        exists|a: int, b: int|
            0 <= a < states.len() && 0 <= b < states.len() && configuration(states, input, (k - 1) as nat, a)
                && #[trigger] char_edge(states, a, input[k - 1], b) && eps_reach(states, b, j)
    }
}

/// Reading all of `input` from state 0, the automaton can end in an
/// accepting state.
pub open spec fn accepts_input(states: Seq<NfaState>, input: Seq<char>) -> bool {
    exists|j: int|
        0 <= j < states.len() && #[trigger] configuration(states, input, input.len(), j)
            && states[j].maybe_accepts_for_rule is Some
}

/// A set closed under moves without input holds everything reachable from it.
proof fn lemma_closed_holds_reach(states: Seq<NfaState>, set: Seq<bool>, i: int, j: int, k: nat)
    requires
        states_wf(states),
        set.len() == states.len(),
        0 <= i < states.len(),
        set[i],
        forall|m: int, t: int|
            0 <= m < states.len() && set[m] && !(states[m].transitions is Interval) && 0 <= t
                < states[m].transitions.targets().len() ==> set[(#[trigger] states[m].transitions.targets()[
                t]).0 as int],
        eps_within(states, i, j, k),
    ensures
        0 <= j < states.len(),
        set[j],
    decreases k,
{
    if k > 0 {
        if eps_within(states, i, j, (k - 1) as nat) {
            lemma_closed_holds_reach(states, set, i, j, (k - 1) as nat);
        } else {
            let m = choose|m: int|
                0 <= m < states.len() && eps_within(states, i, m, (k - 1) as nat) && #[trigger] eps_edge(
                    states,
                    m,
                    j,
                );
            lemma_closed_holds_reach(states, set, i, m, (k - 1) as nat);
            let t = choose|t: int|
                0 <= t < states[m].transitions.targets().len() && (#[trigger] states[m].transitions.targets()[
                t]).0 == j;
            assert(states[m].transitions.targets_below(states.len() as int));
        }
    }
}

/// Every state of `set` is reachable from one of `start`.
pub open spec fn from_start(states: Seq<NfaState>, start: Seq<bool>, set: Seq<bool>) -> bool {
    forall|j: int|
        0 <= j < states.len() && #[trigger] set[j] ==> exists|i: int|
            0 <= i < states.len() && start[i] && #[trigger] eps_reach(states, i, j)
}

/// Every state of `start` is in `set`.
pub open spec fn covers(states: Seq<NfaState>, start: Seq<bool>, set: Seq<bool>) -> bool {
    forall|j: int| 0 <= j < states.len() && #[trigger] start[j] ==> set[j]
}

/// Moves without input from the states of `set` below `m` stay in `set`.
pub open spec fn closed_below(states: Seq<NfaState>, set: Seq<bool>, m: int) -> bool {
    forall|a: int, t: int|
        0 <= a < m && set[a] && !(states[a].transitions is Interval) && 0 <= t
            < states[a].transitions.targets().len() ==> set[(#[trigger] states[a].transitions.targets()[t]).0 as int]
}

proof fn lemma_start_set(states: Seq<NfaState>, start: Seq<bool>)
    requires
        start.len() == states.len(),
    ensures
        covers(states, start, start),
        from_start(states, start, start),
{
    assert forall|j: int| 0 <= j < states.len() && #[trigger] start[j] implies exists|i: int|
        0 <= i < states.len() && start[i] && #[trigger] eps_reach(states, i, j) by {
        assert(eps_within(states, j, j, 0));
        assert(eps_reach(states, j, j));
    }
}

proof fn lemma_closed_set(states: Seq<NfaState>, start: Seq<bool>, set: Seq<bool>)
    requires
        states_wf(states),
        set.len() == states.len(),
        start.len() == states.len(),
        covers(states, start, set),
        from_start(states, start, set),
        closed_below(states, set, states.len() as int),
    ensures
        forall|j: int|
            0 <= j < states.len() ==> (set[j] <==> exists|i: int|
                0 <= i < states.len() && start[i] && #[trigger] eps_reach(states, i, j)),
{
    assert forall|j: int|
        0 <= j < states.len() implies (set[j] <==> exists|i: int|
            0 <= i < states.len() && start[i] && #[trigger] eps_reach(states, i, j)) by {
        if exists|i: int| 0 <= i < states.len() && start[i] && #[trigger] eps_reach(states, i, j) {
            let i = choose|i: int| 0 <= i < states.len() && start[i] && #[trigger] eps_reach(states, i, j);
            let k = choose|k: nat| #[trigger] eps_within(states, i, j, k);
            lemma_closed_holds_reach(states, set, i, j, k);
        }
    }
}

impl Tnfa {
    /// Adds the targets of the moves without input from state `m`.
    fn spread(
        &self,
        set: &mut Vec<bool>,
        m: usize,
        Ghost(start): Ghost<Seq<bool>>,
        Ghost(before): Ghost<Seq<bool>>,
        changed: bool,
    ) -> (r: bool)
        requires
            states_wf(self.states@),
            old(set)@.len() == self.states@.len(),
            start.len() == self.states@.len(),
            before.len() == self.states@.len(),
            m < self.states@.len(),
            old(set)@[m as int],
            !(self.states@[m as int].transitions is Interval),
            covers(self.states@, start, old(set)@),
            from_start(self.states@, start, old(set)@),
            !changed ==> old(set)@ == before,
            changed ==> count_false(old(set)@) < count_false(before),
            !changed ==> closed_below(self.states@, old(set)@, m as int),
        ensures
            final(set)@.len() == self.states@.len(),
            covers(self.states@, start, final(set)@),
            from_start(self.states@, start, final(set)@),
            !r ==> final(set)@ == before,
            r ==> count_false(final(set)@) < count_false(before),
            !r ==> closed_below(self.states@, final(set)@, m + 1),
    {
        let ghost states = self.states@;
        let n: usize = self.states.len();
        let ghost mm = m as int;
        let targets: Vec<NfaIdx> = self.states[m].transitions.successors();
        let mut changed: bool = changed;
        let mut t: usize = 0;
        while t < targets.len()
            invariant
                n == states.len(),
                states == self.states@,
                states_wf(states),
                set@.len() == n,
                start.len() == n,
                before.len() == n,
                0 <= m < n,
                mm == m,
                set@[mm],
                !(states[mm].transitions is Interval),
                targets@ == states[mm].transitions.targets(),
                0 <= t <= targets@.len(),
                covers(states, start, set@),
                from_start(states, start, set@),
                !changed ==> set@ == before,
                changed ==> count_false(set@) < count_false(before),
                !changed ==> closed_below(states, set@, mm),
                !changed ==> forall|u: int| 0 <= u < t ==> set@[(#[trigger] targets@[u]).0 as int],
            decreases targets@.len() - t,
        {
            proof {
                assert(states[mm].transitions.targets_below(n as int));
                assert(targets@[t as int] == states[mm].transitions.targets()[t as int]);
            }
            let j: usize = targets[t].0;
            if !set[j] {
                proof {
                    let i = choose|i: int| 0 <= i < n && start[i] && #[trigger] eps_reach(states, i, mm);
                    let k = choose|k: nat| #[trigger] eps_within(states, i, mm, k);
                    assert(eps_edge(states, mm, j as int));
                    assert(eps_within(states, i, j as int, k + 1));
                    assert(eps_reach(states, i, j as int));
                    lemma_count_false_set(set@, j as int);
                }
                set.set(j, true);
                changed = true;
            }
            t = t + 1;
        }
        proof {
            if !changed {
                assert forall|a: int, u: int|
                    0 <= a < mm + 1 && set@[a] && !(states[a].transitions is Interval) && 0 <= u
                        < states[a].transitions.targets().len() implies set@[(
                    #[trigger] states[a].transitions.targets()[u]).0 as int] by {
                    if a == mm {
                        assert(targets@[u] == states[a].transitions.targets()[u]);
                    }
                }
            }
        }
        changed
    }

    /// Adds every state reachable by moves without input.
    fn close(&self, set: &mut Vec<bool>)
        requires
            states_wf(self.states@),
            old(set)@.len() == self.states@.len(),
        ensures
            final(set)@.len() == self.states@.len(),
            forall|j: int|
                0 <= j < self.states@.len() ==> (final(set)@[j] <==> exists|i: int|
                    0 <= i < self.states@.len() && old(set)@[i] && #[trigger] eps_reach(self.states@, i, j)),
    {
        let ghost states = self.states@;
        let ghost start = set@;
        let n: usize = self.states.len();
        proof {
            lemma_start_set(states, start);
        }
        let mut changed: bool = true;
        while changed
            invariant
                n == states.len(),
                states == self.states@,
                states_wf(states),
                set@.len() == n,
                start.len() == n,
                covers(states, start, set@),
                from_start(states, start, set@),
                !changed ==> closed_below(states, set@, n as int),
            decreases count_false(set@) + if changed {
                1nat
            } else {
                0nat
            },
        {
            let ghost before = set@;
            changed = false;
            let mut m: usize = 0;
            while m < n
                invariant
                    n == states.len(),
                    states == self.states@,
                    states_wf(states),
                    set@.len() == n,
                    start.len() == n,
                    before.len() == n,
                    0 <= m <= n,
                    covers(states, start, set@),
                    from_start(states, start, set@),
                    !changed ==> set@ == before,
                    changed ==> count_false(set@) < count_false(before),
                    !changed ==> closed_below(states, set@, m as int),
                decreases n - m,
            {
                let spontaneous: bool = match &self.states[m].transitions {
                    Transitions::Interval(_) => false,
                    _ => true,
                };
                if set[m] && spontaneous {
                    changed = self.spread(set, m, Ghost(start), Ghost(before), changed);
                } else {
                    proof {
                        if !changed {
                            assert forall|a: int, u: int|
                                0 <= a < m + 1 && set@[a] && !(states[a].transitions is Interval) && 0 <= u
                                    < states[a].transitions.targets().len() implies set@[(
                                #[trigger] states[a].transitions.targets()[u]).0 as int] by {}
                        }
                    }
                }
                m = m + 1;
            }
            proof {
                lemma_count_false_bound(set@);
            }
        }
        proof {
            lemma_closed_set(states, start, set@);
        }
    }

    /// The states reached from those of `set` by a move on `c`.
    fn step(&self, set: &Vec<bool>, c: char) -> (r: Vec<bool>)
        requires
            states_wf(self.states@),
            set@.len() == self.states@.len(),
        ensures
            r@.len() == self.states@.len(),
            forall|j: int|
                0 <= j < self.states@.len() ==> (r@[j] <==> exists|a: int|
                    0 <= a < self.states@.len() && set@[a] && #[trigger] char_edge(self.states@, a, c, j)),
    {
        let ghost states = self.states@;
        let n: usize = self.states.len();
        let mut next: Vec<bool> = Vec::new();
        let mut k: usize = 0;
        while k < n
            invariant
                0 <= k <= n,
                next@.len() == k,
                forall|j: int| 0 <= j < k ==> !next@[j],
            decreases n - k,
        {
            next.push(false);
            k = k + 1;
        }
        let code: u32 = char_code(c);
        let mut a: usize = 0;
        while a < n
            invariant
                n == states.len(),
                states == self.states@,
                states_wf(states),
                set@.len() == n,
                next@.len() == n,
                0 <= a <= n,
                code as int == c as int,
                forall|j: int|
                    0 <= j < n ==> (next@[j] <==> exists|b: int|
                        0 <= b < a && set@[b] && #[trigger] char_edge(states, b, c, j)),
            decreases n - a,
        {
            if set[a] {
                match &self.states[a].transitions {
                    Transitions::Interval(tree) => {
                        match tree.lookup(code) {
                            Some(target) => {
                                let j: usize = target.0;
                                proof {
                                    let s = tree.entries_view();
                                    let idx = crate::interval_tree::entry_index_at(s, code as int);
                                    assert(states[a as int].transitions.targets()[idx] == s[idx].1);
                                    assert(states[a as int].transitions.targets_below(n as int));
                                    assert(char_edge(states, a as int, c, j as int));
                                }
                                next.set(j, true);
                                proof {
                                    assert forall|x: int|
                                        0 <= x < n implies (next@[x] <==> exists|b: int|
                                            0 <= b < a + 1 && set@[b] && #[trigger] char_edge(states, b, c, x)) by {
                                        if x != j && exists|b: int|
                                            0 <= b < a + 1 && set@[b] && #[trigger] char_edge(states, b, c, x) {
                                            let b = choose|b: int|
                                                0 <= b < a + 1 && set@[b] && #[trigger] char_edge(states, b, c, x);
                                            if b == a {
                                                assert(NfaIdx(x as usize) != NfaIdx(j));
                                            }
                                        }
                                    }
                                }
                            },
                            None => {
                                proof {
                                    assert forall|x: int|
                                        0 <= x < n implies (next@[x] <==> exists|b: int|
                                            0 <= b < a + 1 && set@[b] && #[trigger] char_edge(states, b, c, x)) by {
                                        if exists|b: int|
                                            0 <= b < a + 1 && set@[b] && #[trigger] char_edge(states, b, c, x) {
                                            let b = choose|b: int|
                                                0 <= b < a + 1 && set@[b] && #[trigger] char_edge(states, b, c, x);
                                            assert(b != a);
                                        }
                                    }
                                }
                            },
                        }
                    },
                    _ => {
                        proof {
                            assert forall|x: int|
                                0 <= x < n implies (next@[x] <==> exists|b: int|
                                    0 <= b < a + 1 && set@[b] && #[trigger] char_edge(states, b, c, x)) by {
                                if exists|b: int| 0 <= b < a + 1 && set@[b] && #[trigger] char_edge(states, b, c, x) {
                                    let b = choose|b: int|
                                        0 <= b < a + 1 && set@[b] && #[trigger] char_edge(states, b, c, x);
                                    assert(b != a);
                                }
                            }
                        }
                    },
                }
            } else {
                proof {
                    assert forall|x: int|
                        0 <= x < n implies (next@[x] <==> exists|b: int|
                            0 <= b < a + 1 && set@[b] && #[trigger] char_edge(states, b, c, x)) by {
                        if exists|b: int| 0 <= b < a + 1 && set@[b] && #[trigger] char_edge(states, b, c, x) {
                            let b = choose|b: int| 0 <= b < a + 1 && set@[b] && #[trigger] char_edge(states, b, c, x);
                            assert(b != a);
                        }
                    }
                }
            }
            a = a + 1;
        }
        next
    }

    /// Whether the automaton, run from state 0 on all of `input`, can end in
    /// an accepting state (tags are ignored).
    pub fn accepts(&self, input: &str) -> (r: bool)
        requires
            self.wf(),
        ensures
            r == accepts_input(self.states@, input@),
    {
        let ghost states = self.states@;
        let chars: Vec<char> = chars_of(input);
        let n: usize = self.states.len();
        let mut set: Vec<bool> = Vec::new();
        let mut k: usize = 0;
        while k < n
            invariant
                0 <= k <= n,
                n >= 1,
                set@.len() == k,
                forall|j: int| 0 <= j < k ==> set@[j] == (j == 0),
            decreases n - k,
        {
            set.push(k == 0);
            k = k + 1;
        }
        self.close(&mut set);
        proof {
            assert forall|j: int| 0 <= j < n implies set@[j] == configuration(states, input@, 0, j) by {
                if configuration(states, input@, 0, j) {
                    assert(eps_reach(states, 0, j));
                }
            }
        }
        let mut i: usize = 0;
        while i < chars.len()
            invariant
                chars@ == input@,
                0 <= i <= chars@.len(),
                n == states.len(),
                states == self.states@,
                states_wf(states),
                set@.len() == n,
                forall|j: int| 0 <= j < n ==> set@[j] == configuration(states, input@, i as nat, j),
            decreases chars@.len() - i,
        {
            let stepped: Vec<bool> = self.step(&set, chars[i]);
            let mut next: Vec<bool> = stepped;
            let ghost moved = next@;
            self.close(&mut next);
            proof {
                let c = input@[i as int];
                assert forall|j: int| 0 <= j < n implies next@[j] == configuration(
                    states,
                    input@,
                    (i + 1) as nat,
                    j,
                ) by {
                    if next@[j] {
                        let b = choose|b: int| 0 <= b < n && moved[b] && #[trigger] eps_reach(states, b, j);
                        let a = choose|a: int| 0 <= a < n && set@[a] && #[trigger] char_edge(states, a, c, b);
                        assert(configuration(states, input@, i as nat, a));
                        let kk: nat = (i + 1) as nat;
                        assert(input@[kk - 1] == c);
                        assert(char_edge(states, a, input@[kk - 1], b));
                        assert(configuration(states, input@, kk, j));
                    }
                    if configuration(states, input@, (i + 1) as nat, j) {
                        let (a, b) = choose|a: int, b: int|
                            0 <= a < n && 0 <= b < n && configuration(states, input@, i as nat, a)
                                && #[trigger] char_edge(states, a, c, b) && eps_reach(states, b, j);
                        assert(set@[a]);
                        assert(moved[b]);
                    }
                }
            }
            set = next;
            i = i + 1;
        }
        let mut j: usize = 0;
        while j < n
            invariant
                0 <= j <= n,
                n == states.len(),
                states == self.states@,
                set@.len() == n,
                chars@ == input@,
                forall|x: int| 0 <= x < n ==> set@[x] == configuration(states, input@, input@.len(), x),
                forall|x: int| 0 <= x < j ==> !(set@[x] && states[x].maybe_accepts_for_rule is Some),
            decreases n - j,
        {
            if set[j] && self.states[j].is_accepting() {
                return true;
            }
            j = j + 1;
        }
        proof {
            assert forall|x: int|
                0 <= x < n implies !(#[trigger] configuration(states, input@, input@.len(), x)
                && states[x].maybe_accepts_for_rule is Some) by {
                assert(set@[x] == configuration(states, input@, input@.len(), x));
            }
        }
        false
    }
}

} // verus!
