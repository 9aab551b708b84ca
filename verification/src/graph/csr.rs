//! Compressed sparse row storage of the edges of a graph.

use vstd::prelude::*;

verus! {

/// A graph's edges grouped by source: the edges of vertex `i` are
/// `edges[offsets[i]..offsets[i + 1]]`.
#[derive(Debug)]
pub struct Csr<T> {
    pub offsets: Vec<usize>,
    pub edges: Vec<Edge<T>>,
}

#[derive(Debug)]
pub struct Edge<T> {
    pub source: usize,
    pub target: usize,
    pub value: T,
}

/// The number of entries of `s` whose source is `b`.
pub open spec fn count_source<T>(s: Seq<(usize, usize, T)>, b: int) -> nat
    decreases s.len(),
{
    if s.len() == 0 {
        0
    } else {
        count_source(s.drop_last(), b) + if s.last().0 == b {
            1nat
        } else {
            0nat
        }
    }
}

/// The number of entries of `s` whose source is below `i`.
pub open spec fn count_below<T>(s: Seq<(usize, usize, T)>, i: int) -> nat
    decreases i,
{
    if i <= 0 {
        0
    } else {
        count_below(s, i - 1) + count_source(s, i - 1)
    }
}

/// The edge `e` is the entry `t`.
pub open spec fn edge_is<T>(e: Edge<T>, t: (usize, usize, T)) -> bool {
    e.source == t.0 && e.target == t.1 && e.value == t.2
}

/// The slot holds an edge from `x`.
pub open spec fn holds_source<T>(slot: Option<Edge<T>>, x: int) -> bool {
    slot matches Some(e) && e.source == x
}

/// The slot holds the entry `t`.
pub open spec fn holds_entry<T>(slot: Option<Edge<T>>, t: (usize, usize, T)) -> bool {
    slot matches Some(e) && edge_is(e, t)
}

proof fn lemma_count_below_push<T>(s: Seq<(usize, usize, T)>, e: (usize, usize, T), i: int)
    ensures
        count_below(s.push(e), i) == count_below(s, i) + if 0 <= e.0 < i {
            1int
        } else {
            0int
        },
    decreases i,
{
    assert(s.push(e).drop_last() =~= s);
    if i > 0 {
        lemma_count_below_push(s, e, i - 1);
    }
}

proof fn lemma_count_below_empty<T>(s: Seq<(usize, usize, T)>, n: int)
    requires
        s.len() == 0,
    ensures
        count_below(s, n) == 0,
    decreases n,
{
    if n > 0 {
        lemma_count_below_empty(s, n - 1);
    }
}

proof fn lemma_count_below_all<T>(s: Seq<(usize, usize, T)>, n: int)
    requires
        forall|k: int| 0 <= k < s.len() ==> (#[trigger] s[k]).0 < n,
    ensures
        count_below(s, n) == s.len(),
    decreases s.len(),
{
    if s.len() == 0 {
        lemma_count_below_empty(s, n);
    } else {
        let init = s.drop_last();
        assert forall|k: int| 0 <= k < init.len() implies (#[trigger] init[k]).0 < n by {
            assert(init[k] == s[k]);
        }
        lemma_count_below_all(init, n);
        assert(init.push(s.last()) =~= s);
        lemma_count_below_push(init, s.last(), n);
    }
}

proof fn lemma_count_below_monotone<T>(s: Seq<(usize, usize, T)>, i: int, j: int)
    requires
        i <= j,
    ensures
        count_below(s, i) <= count_below(s, j),
        i >= 0 ==> count_below(s, i + 1) == count_below(s, i) + count_source(s, i),
    decreases j - i,
{
    if i < j {
        lemma_count_below_monotone(s, i, j - 1);
    }
}

proof fn lemma_count_source_concat<T>(a: Seq<(usize, usize, T)>, c: Seq<(usize, usize, T)>, b: int)
    ensures
        count_source(a + c, b) == count_source(a, b) + count_source(c, b),
    decreases c.len(),
{
    if c.len() > 0 {
        lemma_count_source_concat(a, c.drop_last(), b);
        assert((a + c).drop_last() =~= a + c.drop_last());
    } else {
        assert(a + c =~= a);
    }
}

/// Moves each edge into the next free slot of its source's range, scanning
/// the entries from the last; returns the slots and where each entry went.
fn place_edges<T>(
    num_vertices: usize,
    offsets: &Vec<usize>,
    cursors: Vec<usize>,
    slots: Vec<Option<Edge<T>>>,
    get_edges: Vec<(usize, usize, T)>,
    Ghost(input): Ghost<Seq<(usize, usize, T)>>,
) -> (r: (Vec<Option<Edge<T>>>, Ghost<Seq<int>>))
    requires
        get_edges@ == input,
        slots@.len() == input.len(),
        forall|q: int| 0 <= q < slots@.len() ==> (#[trigger] slots@[q]) is None,
        offsets@.len() == num_vertices + 1,
        cursors@.len() == num_vertices,
        offsets@[0] == 0,
        offsets@[num_vertices as int] == input.len(),
        forall|j: int| 0 <= j < input.len() ==> (#[trigger] input[j]).0 < num_vertices,
        forall|x: int, y: int| 0 <= x <= y <= num_vertices ==> offsets@[x] <= offsets@[y],
        forall|x: int| 0 <= x < num_vertices ==> offsets@[x + 1] == offsets@[x] + count_source(input, x),
        forall|x: int| 0 <= x < num_vertices ==> cursors@[x] == offsets@[x],
    ensures
        r.0@.len() == input.len(),
        forall|q: int| 0 <= q < input.len() ==> (#[trigger] r.0@[q]) is Some,
        forall|q: int, x: int|
            0 <= x < num_vertices && offsets@[x] <= q < offsets@[x + 1] ==> #[trigger] holds_source(r.0@[q], x),
        r.1@.len() == input.len(),
        forall|q: int|
            0 <= q < input.len() ==> {
                let src = (#[trigger] input[q]).0 as int;
                &&& offsets@[src] <= r.1@[q] < offsets@[src + 1]
                &&& holds_entry(r.0@[r.1@[q]], input[q])
            },
        forall|q1: int, q2: int| 0 <= q1 < q2 < input.len() ==> #[trigger] r.1@[q1] != #[trigger] r.1@[q2],
{
    let m: usize = get_edges.len();
    let mut cursors: Vec<usize> = cursors;
    let mut slots: Vec<Option<Edge<T>>> = slots;
    proof {
        assert(input.subrange(m as int, m as int) =~= Seq::<(usize, usize, T)>::empty());
        assert(input.subrange(0, m as int) =~= input);
        assert forall|x: int| 0 <= x < num_vertices implies count_source(input.subrange(m as int, m as int), x) == 0 by {}
    }
        let mut remaining: Vec<(usize, usize, T)> = get_edges;
        let mut k: usize = m;
        let ghost mut pos: Seq<int> = Seq::new(m as nat, |q: int| 0int);
        while k > 0
            invariant
                0 <= k <= m,
                m == input.len(),
                remaining@ == input.subrange(0, k as int),
                slots@.len() == m,
                offsets@.len() == num_vertices + 1,
                cursors@.len() == num_vertices,
                pos.len() == m,
                offsets@[0] == 0,
                offsets@[num_vertices as int] == m,
                forall|j: int| 0 <= j < input.len() ==> (#[trigger] input[j]).0 < num_vertices,
                forall|x: int, y: int| 0 <= x <= y <= num_vertices ==> offsets@[x] <= offsets@[y],
                forall|x: int|
                    0 <= x < num_vertices ==> offsets@[x + 1] == offsets@[x] + count_source(input, x),
                forall|x: int|
                    0 <= x < num_vertices ==> cursors@[x] == offsets@[x] + count_source(
                        input.subrange(k as int, m as int),
                        x,
                    ),
                forall|x: int|
                    0 <= x < num_vertices ==> count_source(input.subrange(k as int, m as int), x) + count_source(
                        input.subrange(0, k as int),
                        x,
                    ) == count_source(input, x),
                forall|q: int, x: int|
                    0 <= x < num_vertices && offsets@[x] <= q < cursors@[x] ==> #[trigger] holds_source(
                        slots@[q],
                        x,
                    ),
                forall|q: int|
                    0 <= q < m && (#[trigger] slots@[q]) is Some ==> exists|x: int|
                        0 <= x < num_vertices && #[trigger] offsets@[x] <= q < cursors@[x],
                forall|q: int|
                    k <= q < m ==> {
                        let src = (#[trigger] input[q]).0 as int;
                        &&& offsets@[src] <= pos[q] < cursors@[src]
                        &&& holds_entry(slots@[pos[q]], input[q])
                    },
                forall|q1: int, q2: int|
                    k <= q1 < q2 < m ==> #[trigger] pos[q1] != #[trigger] pos[q2],
            decreases k,
        {
            let ghost before = remaining@;
            let entry: (usize, usize, T) = remaining.pop().unwrap();
            proof {
                assert(entry == input[k - 1]);
                assert(remaining@ =~= input.subrange(0, k - 1));
            }
            let (source, target, value) = entry;
            let slot: usize = cursors[source];
            proof {
                let done = input.subrange(k as int, m as int);
                let pre = input.subrange(0, k - 1);
                let one = seq![input[k - 1]];
                assert(pre + one =~= input.subrange(0, k as int));
                lemma_count_source_concat(pre, one, source as int);
                assert(one.drop_last() =~= Seq::<(usize, usize, T)>::empty());
                assert(count_source(one, source as int) == 1);
                assert(count_source(input.subrange(0, k as int), source as int) >= 1);
                assert(count_source(done, source as int) + count_source(input.subrange(0, k as int), source as int)
                    == count_source(input, source as int));
                assert(cursors@[source as int] == offsets@[source as int] + count_source(done, source as int));
                assert(offsets@[source + 1] == offsets@[source as int] + count_source(input, source as int));
                assert(slot < offsets@[source + 1]);
            }
            let ghost old_slots = slots@;
            let ghost old_cursors = cursors@;
            slots[slot] = Some(Edge { source, target, value });
            cursors[source] = slot + 1;
            proof {
                pos = pos.update(k - 1, slot as int);
                let done = input.subrange(k as int, m as int);
                let next_done = input.subrange(k - 1, m as int);
                let pre = input.subrange(0, k - 1);
                let one = seq![input[k - 1]];
                assert(next_done =~= one + done);
                assert(pre + one =~= input.subrange(0, k as int));
                assert(one.drop_last() =~= Seq::<(usize, usize, T)>::empty());
                assert forall|x: int| 0 <= x < num_vertices implies old_cursors[x] <= offsets@[x + 1] by {
                    assert(count_source(done, x) + count_source(input.subrange(0, k as int), x) == count_source(
                        input,
                        x,
                    ));
                }
                assert forall|x: int| 0 <= x < num_vertices implies cursors@[x] == offsets@[x] + count_source(
                    next_done,
                    x,
                ) && count_source(next_done, x) + count_source(input.subrange(0, k - 1), x) == count_source(
                    input,
                    x,
                ) by {
                    lemma_count_source_concat(one, done, x);
                    lemma_count_source_concat(pre, one, x);
                    assert(count_source(done, x) + count_source(input.subrange(0, k as int), x) == count_source(
                        input,
                        x,
                    ));
                }
                // The slot was free: it lies in the source's range, past its cursor.
                assert(old_slots[slot as int] is None) by {
                    if old_slots[slot as int] is Some {
                        let x = choose|x: int|
                            0 <= x < num_vertices && #[trigger] offsets@[x] <= slot < old_cursors[x];
                        if x < source {
                            assert(offsets@[x + 1] <= offsets@[source as int]);
                        } else if x > source {
                            assert(offsets@[source + 1] <= offsets@[x]);
                        }
                    }
                }
                assert forall|q: int, x: int|
                    0 <= x < num_vertices && offsets@[x] <= q < cursors@[x] implies #[trigger] holds_source(
                    slots@[q],
                    x,
                ) by {
                    if q != slot {
                        if x == source {
                            assert(q < old_cursors[x]);
                        }
                    } else {
                        if x < source {
                            assert(offsets@[x + 1] <= offsets@[source as int]);
                        } else if x > source {
                            assert(offsets@[source + 1] <= offsets@[x]);
                        }
                    }
                }
                assert forall|q: int| 0 <= q < m && (#[trigger] slots@[q]) is Some implies exists|x: int|
                    0 <= x < num_vertices && #[trigger] offsets@[x] <= q < cursors@[x] by {
                    if q == slot {
                        assert(offsets@[source as int] <= q < cursors@[source as int]);
                    } else {
                        assert(old_slots[q] is Some);
                        let x = choose|x: int| 0 <= x < num_vertices && #[trigger] offsets@[x] <= q < old_cursors[x];
                        assert(offsets@[x] <= q < cursors@[x]);
                    }
                }
                assert forall|q: int| k - 1 <= q < m implies {
                    let src = (#[trigger] input[q]).0 as int;
                    &&& offsets@[src] <= pos[q] < cursors@[src]
                    &&& holds_entry(slots@[pos[q]], input[q])
                } by {
                    if q >= k {
                        let src = input[q].0 as int;
                        assert(pos[q] != slot) by {
                            if src == source {
                                assert(pos[q] < old_cursors[src]);
                            } else if src < source {
                                assert(offsets@[src + 1] <= offsets@[source as int]);
                                assert(pos[q] < offsets@[src + 1]);
                            } else {
                                assert(offsets@[source + 1] <= offsets@[src]);
                            }
                        }
                    }
                }
                assert forall|q1: int, q2: int| k - 1 <= q1 < q2 < m implies #[trigger] pos[q1]
                    != #[trigger] pos[q2] by {
                    if q1 == k - 1 {
                        let src = input[q2].0 as int;
                        if src == source {
                            assert(pos[q2] < old_cursors[src]);
                        } else if src < source {
                            assert(offsets@[src + 1] <= offsets@[source as int]);
                        } else {
                            assert(offsets@[source + 1] <= offsets@[src]);
                        }
                    }
                }
            }
            k = k - 1;
        }
        proof {
            assert(input.subrange(0, m as int) =~= input);
            assert forall|q: int| 0 <= q < m implies (#[trigger] slots@[q]) is Some by {
                let x = lemma_bucket_of_offsets(offsets@, num_vertices as int, q);
                assert(count_source(input.subrange(0, 0), x) == 0);
                assert(cursors@[x] == offsets@[x + 1]);
                assert(holds_source(slots@[q], x));
            }
            assert forall|q: int, x: int|
                0 <= x < num_vertices && offsets@[x] <= q < offsets@[x + 1] implies #[trigger] holds_source(
                slots@[q],
                x,
            ) by {
                assert(count_source(input.subrange(0, 0), x) == 0);
            }
            assert forall|q: int| 0 <= q < input.len() implies {
                let src = (#[trigger] input[q]).0 as int;
                &&& offsets@[src] <= pos[q] < offsets@[src + 1]
                &&& holds_entry(slots@[pos[q]], input[q])
            } by {
                let src = input[q].0 as int;
                assert(count_source(input.subrange(0, 0), src) == 0);
            }
        }
        (slots, Ghost(pos))
}

/// Every position below the last offset lies in the range of some vertex.
proof fn lemma_bucket_of_offsets(offsets: Seq<usize>, n: int, q: int) -> (b: int)
    requires
        n >= 0,
        offsets.len() == n + 1,
        offsets[0] == 0,
        0 <= q < offsets[n],
        forall|x: int, y: int| 0 <= x <= y <= n ==> offsets[x] <= offsets[y],
    ensures
        0 <= b < n,
        offsets[b] <= q < offsets[b + 1],
    decreases n,
{
    if q >= offsets[n - 1] {
        n - 1
    } else {
        let init = offsets.subrange(0, n);
        assert forall|x: int, y: int| 0 <= x <= y <= n - 1 implies init[x] <= init[y] by {
            assert(offsets[x] <= offsets[y]);
        }
        let b = lemma_bucket_of_offsets(init, n - 1, q);
        assert(init[b] == offsets[b] && init[b + 1] == offsets[b + 1]);
        b
    }
}

/// The number of entries of each source.
fn count_sources<T>(num_vertices: usize, get_edges: &Vec<(usize, usize, T)>) -> (counts: Vec<usize>)
    requires
        forall|j: int| 0 <= j < get_edges@.len() ==> (#[trigger] get_edges@[j]).0 < num_vertices,
    ensures
        counts@.len() == num_vertices,
        forall|b: int| 0 <= b < num_vertices ==> counts@[b] == count_source(get_edges@, b),
{
    let ghost input = get_edges@;
    let m: usize = get_edges.len();
        // Count the edges of each vertex.
        let mut counts: Vec<usize> = Vec::new();
        let mut v: usize = 0;
        while v < num_vertices
            invariant
                0 <= v <= num_vertices,
                counts@.len() == v,
                forall|b: int| 0 <= b < v ==> counts@[b] == 0,
            decreases num_vertices - v,
        {
            counts.push(0);
            v = v + 1;
        }
        let mut k: usize = 0;
        while k < m
            invariant
                m == input.len(),
                0 <= k <= m,
                counts@.len() == num_vertices,
                forall|j: int| 0 <= j < input.len() ==> (#[trigger] input[j]).0 < num_vertices,
                forall|b: int| 0 <= b < num_vertices ==> counts@[b] == count_source(input.subrange(0, k as int), b),
                forall|b: int| 0 <= b < num_vertices ==> counts@[b] <= k,
                get_edges@ == input,
            decreases m - k,
        {
            let source: usize = get_edges[k].0;
            proof {
                let next = input.subrange(0, k + 1);
                assert(next.drop_last() =~= input.subrange(0, k as int));
            }
            counts[source] = counts[source] + 1;
            k = k + 1;
        }
        proof {
            assert(input.subrange(0, m as int) =~= input);
        }
    counts
}

/// The running totals of `counts`, starting at 0.
fn prefix_offsets<T>(num_vertices: usize, counts: &Vec<usize>, Ghost(input): Ghost<Seq<(usize, usize, T)>>) -> (offsets: Vec<
    usize,
>)
    requires
        num_vertices < usize::MAX,
        counts@.len() == num_vertices,
        forall|b: int| 0 <= b < num_vertices ==> counts@[b] == count_source(input, b),
        forall|j: int| 0 <= j < input.len() ==> (#[trigger] input[j]).0 < num_vertices,
        input.len() <= usize::MAX,
    ensures
        offsets@.len() == num_vertices + 1,
        forall|b: int| 0 <= b <= num_vertices ==> offsets@[b] == count_below(input, b),
{
        // Offsets by prefix sums.
        let mut offsets: Vec<usize> = Vec::new();
        offsets.push(0);
        let mut i: usize = 0;
        while i < num_vertices
            invariant
                0 <= i <= num_vertices,
                counts@.len() == num_vertices,
                forall|b: int| 0 <= b < num_vertices ==> counts@[b] == count_source(input, b),
                forall|j: int| 0 <= j < input.len() ==> (#[trigger] input[j]).0 < num_vertices,
                offsets@.len() == i + 1,
                input.len() <= usize::MAX,
                forall|b: int| 0 <= b <= i ==> offsets@[b] == count_below(input, b),
            decreases num_vertices - i,
        {
            proof {
                lemma_count_below_monotone(input, i + 1, num_vertices as int);
                lemma_count_below_all(input, num_vertices as int);
            }
            let next: usize = offsets[i] + counts[i];
            offsets.push(next);
            i = i + 1;
        }
    offsets
}

/// The edges held by the slots, in order.
fn take_all<T>(slots: Vec<Option<Edge<T>>>) -> (edges: Vec<Edge<T>>)
    requires
        forall|q: int| 0 <= q < slots@.len() ==> (#[trigger] slots@[q]) is Some,
    ensures
        edges@.len() == slots@.len(),
        forall|q: int| 0 <= q < slots@.len() ==> slots@[q] == Some(#[trigger] edges@[q]),
{
    let m: usize = slots.len();
    let mut slots: Vec<Option<Edge<T>>> = slots;
        let ghost filled = slots@;
        let mut edges: Vec<Edge<T>> = Vec::new();
        let mut x: usize = 0;
        while x < m
            invariant
                0 <= x <= m,
                slots@.len() == m,
                filled.len() == m,
                edges@.len() == x,
                forall|q: int| x <= q < m ==> #[trigger] slots@[q] == filled[q],
                forall|q: int| 0 <= q < m ==> (#[trigger] filled[q]) is Some,
                forall|q: int| 0 <= q < x ==> filled[q] == Some(#[trigger] edges@[q]),
            decreases m - x,
        {
            let mut taken: Option<Edge<T>> = None;
            std::mem::swap(&mut taken, &mut slots[x]);
            match taken {
                Some(edge) => {
                    edges.push(edge);
                },
                None => {
                    proof {
                        assert(filled[x as int] is Some);
                    }
                },
            }
            x = x + 1;
        }
    edges
}

impl<T> Csr<T> {
    /// Groups the edges `(source, target, value)` of a graph with
    /// `num_vertices` vertices by source. The order of the edges of one
    /// vertex is unspecified.
    pub fn build(num_vertices: usize, get_edges: Vec<(usize, usize, T)>) -> (r: Csr<T>)
        requires
            num_vertices < usize::MAX,
            forall|k: int| 0 <= k < get_edges@.len() ==> (#[trigger] get_edges@[k]).0 < num_vertices,
        ensures
            r.offsets@.len() == num_vertices + 1,
            forall|i: int| 0 <= i <= num_vertices ==> r.offsets@[i] == count_below(get_edges@, i),
            r.edges@.len() == get_edges@.len(),
            forall|i: int, j: int|
                #![trigger r.offsets@[i], r.edges@[j]]
                0 <= i < num_vertices && r.offsets@[i] <= j < r.offsets@[i + 1] ==> r.edges@[j].source == i,
            exists|pos: Seq<int>|
                pos.len() == get_edges@.len() && (forall|k: int|
                    0 <= k < pos.len() ==> 0 <= #[trigger] pos[k] < get_edges@.len() && edge_is(
                        r.edges@[pos[k]],
                        get_edges@[k],
                    )) && (forall|k1: int, k2: int|
                    0 <= k1 < k2 < pos.len() ==> #[trigger] pos[k1] != #[trigger] pos[k2]),
    {
        let ghost input = get_edges@;
        let m: usize = get_edges.len();
        let counts: Vec<usize> = count_sources(num_vertices, &get_edges);
        let offsets: Vec<usize> = prefix_offsets::<T>(num_vertices, &counts, Ghost(input));
        let mut cursors: Vec<usize> = Vec::new();
        let mut b: usize = 0;
        while b < num_vertices
            invariant
                0 <= b <= num_vertices,
                offsets@.len() == num_vertices + 1,
                cursors@.len() == b,
                forall|x: int| 0 <= x < b ==> cursors@[x] == offsets@[x],
            decreases num_vertices - b,
        {
            cursors.push(offsets[b]);
            b = b + 1;
        }
        let mut slots: Vec<Option<Edge<T>>> = Vec::new();
        let mut j: usize = 0;
        while j < m
            invariant
                0 <= j <= m,
                slots@.len() == j,
                forall|x: int| 0 <= x < j ==> slots@[x] is None,
            decreases m - j,
        {
            slots.push(None);
            j = j + 1;
        }
        proof {
            assert forall|x: int, y: int| 0 <= x <= y <= num_vertices implies offsets@[x] <= offsets@[y] by {
                lemma_count_below_monotone(input, x, y);
            }
            assert forall|x: int| 0 <= x < num_vertices implies offsets@[x + 1] == offsets@[x] + count_source(
                input,
                x,
            ) by {
                lemma_count_below_monotone(input, x, x + 1);
            }
            lemma_count_below_all(input, num_vertices as int);
        }
        let (slots, Ghost(pos)) = place_edges(num_vertices, &offsets, cursors, slots, get_edges, Ghost(input));
        let ghost filled = slots@;
        let edges: Vec<Edge<T>> = take_all(slots);
        proof {
            assert forall|q: int, y: int|
                #![trigger offsets@[q], edges@[y]]
                0 <= q < num_vertices && offsets@[q] <= y < offsets@[q + 1] implies edges@[y].source == q by {
                assert(holds_source(filled[y], q));
            }
            assert forall|q: int| 0 <= q < pos.len() implies 0 <= #[trigger] pos[q] < input.len() && edge_is(
                edges@[pos[q]],
                input[q],
            ) by {
                let src = input[q].0 as int;
                assert(offsets@[src + 1] <= offsets@[num_vertices as int]);
                assert(holds_entry(filled[pos[q]], input[q]));
            }
        }
        Csr { offsets, edges }
    }
}

} // verus!
