//! Tarjan's strongly connected components, listed in topological order.

use vstd::prelude::*;

pub use crate::graph::DfsIndex;

verus! {

/// What the search learned of one vertex.
#[derive(Debug, Clone, Copy)]
pub struct TarjanVertex {
    /// Order in which the vertex was visited (`usize::MAX` when never).
    pub encountered_at: DfsIndex,
    /// Smallest visit order reachable through the vertex's component.
    pub low_link: DfsIndex,
    /// Index of the vertex's component in [`TarjanSccs::sccs`].
    pub scc: usize,
    /// Working data: whether the vertex is on the search's stack.
    pub on_stack: bool,
}

/// The strongly connected components of a graph.
///
/// `sccs` lists the components in topological order: an edge never leads
/// to an earlier component. Each component lists its vertices by visit
/// order, starting with its root.
#[derive(Debug, Clone)]
pub struct TarjanSccs {
    pub sccs: Vec<Vec<usize>>,
    pub vertices: Vec<TarjanVertex>,
    /// `original_indices[d]` is the vertex visited `d`-th.
    pub original_indices: Vec<usize>,
}

/// Every edge leads to a vertex of the graph.
pub open spec fn graph_wf(graph: Seq<Vec<usize>>) -> bool {
    forall|v: int, k: int|
        0 <= v < graph.len() && 0 <= k < graph[v]@.len() ==> (#[trigger] graph[v]@[k]) < graph.len()
}

/// `s` holds the entries and every successor of its vertices.
pub open spec fn closed_under(graph: Seq<Vec<usize>>, entries: Seq<usize>, s: Set<int>) -> bool {
    &&& forall|e: int| 0 <= e < entries.len() ==> s.contains(#[trigger] entries[e] as int)
    &&& forall|v: int, k: int|
        0 <= v < graph.len() && 0 <= k < graph[v]@.len() && s.contains(v) ==> s.contains(
            #[trigger] graph[v]@[k] as int,
        )
}

/// Every vertex is reachable from the entries: it lies in every set that
/// holds the entries and is closed under successors.
pub open spec fn spans(graph: Seq<Vec<usize>>, entries: Seq<usize>) -> bool {
    forall|s: Set<int>| #[trigger]
        closed_under(graph, entries, s) ==> forall|v: int| 0 <= v < graph.len() ==> s.contains(v)
}

spec fn enc(vs: Seq<TarjanVertex>, v: int) -> int {
    vs[v].encountered_at.0 as int
}

spec fn low(vs: Seq<TarjanVertex>, v: int) -> int {
    vs[v].low_link.0 as int
}

spec fn seen(vs: Seq<TarjanVertex>, v: int) -> bool {
    vs[v].encountered_at.0 != usize::MAX
}

/// The visit order and the vertices agree.
spec fn order_ok(n: int, vs: Seq<TarjanVertex>, order: Seq<usize>) -> bool {
    &&& vs.len() == n
    &&& order.len() <= n
    &&& forall|d: int|
        0 <= d < order.len() ==> (#[trigger] order[d]) < n && seen(vs, order[d] as int) && enc(vs, order[d] as int)
            == d
    &&& forall|v: int| #![trigger enc(vs, v)] 0 <= v < n && seen(vs, v) ==> enc(vs, v) < order.len() && order[enc(vs, v)] == v
    &&& forall|v: int| 0 <= v < n && !seen(vs, v) ==> !vs[v].on_stack && vs[v].scc == usize::MAX
    &&& forall|v: int| 0 <= v < n && seen(vs, v) ==> (vs[v].on_stack <==> vs[v].scc == usize::MAX)
}

/// The components found so far: each is nonempty, sorted by visit order,
/// rooted at a vertex whose low link is its own visit order, and lists
/// exactly the vertices assigned to it.
spec fn sccs_ok(n: int, vs: Seq<TarjanVertex>, sccs: Seq<Vec<usize>>) -> bool {
    &&& forall|s: int| 0 <= s < sccs.len() ==> (#[trigger] sccs[s])@.len() > 0
    &&& forall|s: int, k: int|
        0 <= s < sccs.len() && 0 <= k < sccs[s]@.len() ==> (#[trigger] sccs[s]@[k]) < n && vs[sccs[s]@[k] as int].scc
            == s && seen(vs, sccs[s]@[k] as int) && !vs[sccs[s]@[k] as int].on_stack
    &&& forall|s: int, i: int, j: int|
        0 <= s < sccs.len() && 0 <= i < j < sccs[s]@.len() ==> enc(vs, #[trigger] sccs[s]@[i] as int) < enc(
            vs,
            #[trigger] sccs[s]@[j] as int,
        )
    &&& forall|s: int|
        0 <= s < sccs.len() ==> low(vs, (#[trigger] sccs[s])@[0] as int) == enc(vs, sccs[s]@[0] as int)
    &&& forall|v: int|
        0 <= v < n && seen(vs, v) && !vs[v].on_stack ==> vs[v].scc < sccs.len() && exists|k: int|
            0 <= k < sccs[vs[v].scc as int]@.len() && #[trigger] sccs[vs[v].scc as int]@[k] == v
}

/// Edges from assigned vertices lead to assigned vertices of the same or
/// an earlier-found component.
spec fn topo_ok(graph: Seq<Vec<usize>>, vs: Seq<TarjanVertex>, sccs_len: int) -> bool {
    forall|w: int, k: int|
        0 <= w < graph.len() && 0 <= k < graph[w]@.len() && vs[w].scc < sccs_len ==> vs[graph[w]@[k] as int].scc
            < sccs_len && vs[#[trigger] graph[w]@[k] as int].scc <= vs[w].scc
}

/// At rest: nothing on the stack, every visited vertex assigned.
spec fn rest_ok(graph: Seq<Vec<usize>>, vs: Seq<TarjanVertex>, order: Seq<usize>, sccs: Seq<Vec<usize>>) -> bool {
    &&& graph_wf(graph)
    &&& order_ok(graph.len() as int, vs, order)
    &&& sccs_ok(graph.len() as int, vs, sccs)
    &&& topo_ok(graph, vs, sccs.len() as int)
    &&& forall|v: int| 0 <= v < graph.len() ==> !(#[trigger] vs[v]).on_stack
    &&& sccs.len() <= order.len()
    &&& forall|v: int| 0 <= v < graph.len() ==> #[trigger] vs[v].scc == usize::MAX || vs[v].scc < sccs.len()
}

/// The search in progress: the stack, the active frames (vertex and number
/// of its edges followed), and for each vertex the number of its edges
/// followed (`done`) and whether it has an active frame (`active`).
spec fn dfs_core(
    graph: Seq<Vec<usize>>,
    vs: Seq<TarjanVertex>,
    order: Seq<usize>,
    sccs: Seq<Vec<usize>>,
    stack: Seq<usize>,
    frames: Seq<(usize, usize)>,
    done: Seq<int>,
    active: Seq<bool>,
    start: int,
) -> bool {
    let n = graph.len() as int;
    &&& graph_wf(graph)
    &&& n < usize::MAX
    &&& order_ok(n, vs, order)
    &&& sccs_ok(n, vs, sccs)
    &&& topo_ok(graph, vs, sccs.len() as int)
    &&& sccs.len() + stack.len() <= order.len()
    &&& forall|v: int| 0 <= v < n ==> #[trigger] vs[v].scc == usize::MAX || vs[v].scc < sccs.len()
    &&& done.len() == n
    &&& active.len() == n
    &&& forall|i: int|
        0 <= i < stack.len() ==> (#[trigger] stack[i]) < n && seen(vs, stack[i] as int) && vs[stack[i] as int].on_stack
    &&& forall|i: int, j: int|
        0 <= i < j < stack.len() ==> enc(vs, #[trigger] stack[i] as int) < enc(vs, #[trigger] stack[j] as int)
    &&& forall|v: int| 0 <= v < n && vs[v].on_stack ==> exists|i: int| 0 <= i < stack.len() && #[trigger] stack[i] == v
    &&& forall|f: int|
        0 <= f < frames.len() ==> (#[trigger] frames[f]).0 < n && vs[frames[f].0 as int].on_stack && active[frames[f].0 as int]
            && frames[f].1 == done[frames[f].0 as int]
    &&& forall|f: int, g: int|
        0 <= f < g < frames.len() ==> enc(vs, (#[trigger] frames[f]).0 as int) < enc(vs, (#[trigger] frames[g]).0 as int)
    &&& forall|v: int| 0 <= v < n && active[v] ==> exists|f: int| 0 <= f < frames.len() && (#[trigger] frames[f]).0 == v
    &&& forall|v: int| 0 <= v < n ==> 0 <= #[trigger] done[v] <= graph[v]@.len()
    &&& forall|v: int| 0 <= v < n && !seen(vs, v) ==> done[v] == 0 && !active[v]
    &&& forall|v: int| 0 <= v < n && seen(vs, v) && !active[v] ==> done[v] == graph[v]@.len()
    &&& forall|w: int, k: int|
        0 <= w < n && 0 <= k < done[w] ==> seen(vs, #[trigger] graph[w]@[k] as int) && (!vs[graph[w]@[k] as int].on_stack
            || low(vs, w) <= enc(vs, graph[w]@[k] as int))
    &&& forall|v: int|
        0 <= v < n && (#[trigger] vs[v]).on_stack ==> stack.len() > 0 && low(vs, v) <= enc(vs, v) && low(vs, v) >= enc(
            vs,
            stack[0] as int,
        )
    &&& forall|w: int, f: int|
        #![trigger active[w], frames[f]]
        0 <= w < n && vs[w].on_stack && !active[w] && 0 <= f < frames.len() && enc(vs, frames[f].0 as int) < enc(vs, w)
            && (f + 1 == frames.len() || enc(vs, w) < enc(vs, frames[f + 1].0 as int)) ==> low(vs, frames[f].0 as int)
            <= low(vs, w)
    &&& frames.len() > 0 ==> stack.len() > 0 && stack[0] == start && frames[0].0 == start
}

/// The vertices of each component found reach each other.
spec fn sccs_reach(graph: Seq<Vec<usize>>, sccs: Seq<Vec<usize>>) -> bool {
    forall|s: int, a: int, b: int|
        0 <= s < sccs.len() && 0 <= a < sccs[s]@.len() && 0 <= b < sccs[s]@.len() ==> graph_reaches(
            graph,
            #[trigger] sccs[s]@[a] as int,
            #[trigger] sccs[s]@[b] as int,
        )
}

/// The vertex at stack position `x` reaches the stack vertex, at or below
/// it, whose visit order is its low link.
spec fn reaches_low(graph: Seq<Vec<usize>>, vs: Seq<TarjanVertex>, stack: Seq<usize>, x: int) -> bool {
    exists|y: int|
        0 <= y <= x && enc(vs, stack[y] as int) == low(vs, stack[x] as int) && #[trigger] graph_reaches(
            graph,
            stack[x] as int,
            stack[y] as int,
        )
}

/// What the search knows of walks among the vertices on the stack: each
/// reaches the stack vertex whose visit order is its low link; each that is
/// finished (but `except`) has a low link below its visit order; each
/// active frame's vertex reaches every stack vertex visited after it.
spec fn stack_reach(
    graph: Seq<Vec<usize>>,
    vs: Seq<TarjanVertex>,
    stack: Seq<usize>,
    frames: Seq<(usize, usize)>,
    active: Seq<bool>,
    except: int,
) -> bool {
    &&& forall|x: int| 0 <= x < stack.len() ==> #[trigger] reaches_low(graph, vs, stack, x)
    &&& forall|x: int|
        0 <= x < stack.len() && !active[stack[x] as int] && stack[x] as int != except ==> low(
            vs,
            #[trigger] stack[x] as int,
        ) < enc(vs, stack[x] as int)
    &&& forall|f: int, x: int|
        0 <= f < frames.len() && 0 <= x < stack.len() && enc(vs, frames[f].0 as int) <= enc(vs, stack[x] as int)
            ==> graph_reaches(graph, (#[trigger] frames[f]).0 as int, #[trigger] stack[x] as int)
}

proof fn lemma_reach_refl(graph: Seq<Vec<usize>>, u: int)
    ensures
        graph_reaches(graph, u, u),
{
    let p = seq![u];
    assert(p.len() >= 1 && p[0] == u && p[p.len() - 1] == u);
}

proof fn lemma_reach_edge(graph: Seq<Vec<usize>>, u: int, v: int, k: int)
    requires
        graph_reaches(graph, u, v),
        0 <= v < graph.len(),
        0 <= k < graph[v]@.len(),
    ensures
        graph_reaches(graph, u, graph[v]@[k] as int),
{
    let p = choose|p: Seq<int>|
        #![trigger p.len(), p[0]]
        p.len() >= 1 && p[0] == u && p[p.len() - 1] == v && forall|i: int|
            0 <= i < p.len() - 1 ==> #[trigger] graph_edge(graph, p[i], p[i + 1]);
    let w = graph[v]@[k] as int;
    let q = p.push(w);
    assert(graph_edge(graph, v, w));
    assert forall|i: int| 0 <= i < q.len() - 1 implies #[trigger] graph_edge(graph, q[i], q[i + 1]) by {
        if i < p.len() - 1 {
            assert(q[i] == p[i] && q[i + 1] == p[i + 1]);
        } else {
            assert(q[i] == v && q[i + 1] == w);
        }
    }
    assert(q.len() >= 1 && q[0] == u && q[q.len() - 1] == w);
}

proof fn lemma_reach_trans(graph: Seq<Vec<usize>>, u: int, v: int, w: int)
    requires
        graph_reaches(graph, u, v),
        graph_reaches(graph, v, w),
    ensures
        graph_reaches(graph, u, w),
{
    let p = choose|p: Seq<int>|
        #![trigger p.len(), p[0]]
        p.len() >= 1 && p[0] == u && p[p.len() - 1] == v && forall|i: int|
            0 <= i < p.len() - 1 ==> #[trigger] graph_edge(graph, p[i], p[i + 1]);
    let q = choose|q: Seq<int>|
        #![trigger q.len(), q[0]]
        q.len() >= 1 && q[0] == v && q[q.len() - 1] == w && forall|i: int|
            0 <= i < q.len() - 1 ==> #[trigger] graph_edge(graph, q[i], q[i + 1]);
    let r = p + q.subrange(1, q.len() as int);
    assert forall|i: int| 0 <= i < r.len() - 1 implies #[trigger] graph_edge(graph, r[i], r[i + 1]) by {
        if i < p.len() - 1 {
            assert(r[i] == p[i] && r[i + 1] == p[i + 1]);
        } else {
            let t = i - (p.len() - 1);
            assert(r[i] == q[t] && r[i + 1] == q[t + 1]);
            assert(graph_edge(graph, q[t], q[t + 1]));
        }
    }
    assert(r.len() >= 1 && r[0] == u && r[r.len() - 1] == w);
}

/// Walks as the search starts from `start`.
proof fn lemma_reach_start(
    graph: Seq<Vec<usize>>,
    vs: Seq<TarjanVertex>,
    stack: Seq<usize>,
    frames: Seq<(usize, usize)>,
    active: Seq<bool>,
    start: int,
)
    requires
        stack.len() == 1,
        stack[0] as int == start,
        frames.len() == 1,
        frames[0].0 as int == start,
        0 <= start < active.len(),
        active[start],
        low(vs, start) == enc(vs, start),
    ensures
        stack_reach(graph, vs, stack, frames, active, -1),
{
    lemma_reach_refl(graph, start);
    assert(graph_reaches(graph, stack[0] as int, stack[0] as int));
    assert(reaches_low(graph, vs, stack, 0));
    assert forall|f: int, x: int|
        0 <= f < frames.len() && 0 <= x < stack.len() && enc(vs, frames[f].0 as int) <= enc(vs, stack[x] as int)
            implies graph_reaches(graph, (#[trigger] frames[f]).0 as int, #[trigger] stack[x] as int) by {
        assert(f == 0 && x == 0);
    }
}

/// Walks after following a tree edge to an unvisited vertex.
proof fn lemma_reach_visit(
    graph: Seq<Vec<usize>>,
    vs: Seq<TarjanVertex>,
    order: Seq<usize>,
    sccs: Seq<Vec<usize>>,
    stack: Seq<usize>,
    frames: Seq<(usize, usize)>,
    done: Seq<int>,
    active: Seq<bool>,
    start: int,
    j: int,
)
    requires
        dfs_ok(graph, vs, order, sccs, stack, frames, done, active, start),
        stack_reach(graph, vs, stack, frames, active, -1),
        frames.len() > 0,
        frames.last().1 < graph[frames.last().0 as int]@.len(),
        j == graph[frames.last().0 as int]@[frames.last().1 as int],
        !seen(vs, j),
    ensures
        stack_reach(
            graph,
            vs.update(j, fresh(order.len() as int)),
            stack.push(j as usize),
            frames.update(frames.len() - 1, (frames.last().0, (frames.last().1 + 1) as usize)).push((j as usize, 0usize)),
            active.update(j, true),
            -1,
        ),
{
    let n = graph.len() as int;
    let i = frames.last().0 as int;
    let d = order.len() as int;
    let vs2 = vs.update(j, fresh(d));
    let stack2 = stack.push(j as usize);
    let frames2 = frames.update(frames.len() - 1, (frames.last().0, (frames.last().1 + 1) as usize)).push(
        (j as usize, 0usize),
    );
    let active2 = active.update(j, true);
    assert(0 <= j < n);
    assert forall|x: int| 0 <= x < stack.len() implies stack[x] as int != j by {
        assert(seen(vs, stack[x] as int));
    }
    assert forall|x: int| 0 <= x < stack.len() implies enc(vs, stack[x] as int) < d by {
        assert(order[enc(vs, stack[x] as int)] == stack[x]);
    }
    assert forall|x: int| 0 <= x < stack2.len() implies #[trigger] reaches_low(graph, vs2, stack2, x) by {
        if x < stack.len() {
            assert(reaches_low(graph, vs, stack, x));
            let y = choose|y: int|
                0 <= y <= x && enc(vs, stack[y] as int) == low(vs, stack[x] as int) && #[trigger] graph_reaches(
                    graph,
                    stack[x] as int,
                    stack[y] as int,
                );
            assert(stack2[y] == stack[y] && stack2[x] == stack[x]);
            assert(graph_reaches(graph, stack2[x] as int, stack2[y] as int));
        } else {
            lemma_reach_refl(graph, j);
            assert(graph_reaches(graph, stack2[x] as int, stack2[x] as int));
        }
    }
    assert forall|x: int|
        0 <= x < stack2.len() && !active2[stack2[x] as int] && stack2[x] as int != -1 implies low(
        vs2,
        #[trigger] stack2[x] as int,
    ) < enc(vs2, stack2[x] as int) by {
        assert(x < stack.len());
        assert(stack2[x] == stack[x]);
    }
    // The active frame's vertex `i` lies on the stack.
    let fi = frames.len() - 1;
    assert(vs[i].on_stack);
    let xi = choose|xi: int| 0 <= xi < stack.len() && #[trigger] stack[xi] == i;
    assert forall|f: int, x: int|
        0 <= f < frames2.len() && 0 <= x < stack2.len() && enc(vs2, frames2[f].0 as int) <= enc(vs2, stack2[x] as int)
            implies graph_reaches(graph, (#[trigger] frames2[f]).0 as int, #[trigger] stack2[x] as int) by {
        if f < frames.len() {
            assert(frames2[f].0 == frames[f].0);
            let v = frames[f].0 as int;
            assert(vs[v].on_stack);
            assert(v != j);
            if x < stack.len() {
                assert(stack2[x] == stack[x]);
            } else {
                if f < fi {
                    assert(enc(vs, frames[f].0 as int) < enc(vs, frames[fi].0 as int));
                }
                assert(enc(vs, v) <= enc(vs, stack[xi] as int));
                assert(graph_reaches(graph, v, i));
                lemma_reach_edge(graph, v, i, frames.last().1 as int);
            }
        } else {
            if x < stack.len() {
                assert(enc(vs2, stack2[x] as int) < d);
            } else {
                lemma_reach_refl(graph, j);
            }
        }
    }
}

/// Walks after following an edge to a visited vertex.
proof fn lemma_reach_follow(
    graph: Seq<Vec<usize>>,
    vs: Seq<TarjanVertex>,
    order: Seq<usize>,
    sccs: Seq<Vec<usize>>,
    stack: Seq<usize>,
    frames: Seq<(usize, usize)>,
    done: Seq<int>,
    active: Seq<bool>,
    start: int,
    j: int,
)
    requires
        dfs_ok(graph, vs, order, sccs, stack, frames, done, active, start),
        stack_reach(graph, vs, stack, frames, active, -1),
        frames.len() > 0,
        frames.last().1 < graph[frames.last().0 as int]@.len(),
        j == graph[frames.last().0 as int]@[frames.last().1 as int],
        seen(vs, j),
    ensures
        stack_reach(
            graph,
            if vs[j].on_stack {
                vs.update(frames.last().0 as int, lowered(vs[frames.last().0 as int], vs[j].low_link))
            } else {
                vs
            },
            stack,
            frames.update(frames.len() - 1, (frames.last().0, (frames.last().1 + 1) as usize)),
            active,
            -1,
        ),
{
    let i = frames.last().0 as int;
    let vs2 = if vs[j].on_stack {
        vs.update(i, lowered(vs[i], vs[j].low_link))
    } else {
        vs
    };
    let frames2 = frames.update(frames.len() - 1, (frames.last().0, (frames.last().1 + 1) as usize));
    assert(vs[i].on_stack);
    let xi = choose|xi: int| 0 <= xi < stack.len() && #[trigger] stack[xi] == i;
    assert forall|v: int| 0 <= v < vs.len() implies enc(vs2, v) == enc(vs, v) by {}
    assert forall|x: int| 0 <= x < stack.len() implies #[trigger] reaches_low(graph, vs2, stack, x) by {
        assert(reaches_low(graph, vs, stack, x));
        if x == xi && vs[j].on_stack && low(vs, j) < low(vs, i) {
            let xj = choose|xj: int| 0 <= xj < stack.len() && #[trigger] stack[xj] == j;
            assert(reaches_low(graph, vs, stack, xj));
            let y = choose|y: int|
                0 <= y <= xj && enc(vs, stack[y] as int) == low(vs, stack[xj] as int) && #[trigger] graph_reaches(
                    graph,
                    stack[xj] as int,
                    stack[y] as int,
                );
            assert(low(vs, i) <= enc(vs, i));
            if y >= xi {
                if y > xi {
                    assert(enc(vs, stack[xi] as int) < enc(vs, stack[y] as int));
                }
                assert(false);
            }
            lemma_reach_refl(graph, i);
            lemma_reach_edge(graph, i, i, frames.last().1 as int);
            lemma_reach_trans(graph, i, j, stack[y] as int);
            assert(enc(vs2, stack[y] as int) == low(vs2, stack[x] as int));
            assert(graph_reaches(graph, stack[x] as int, stack[y] as int));
        } else {
            let y = choose|y: int|
                0 <= y <= x && enc(vs, stack[y] as int) == low(vs, stack[x] as int) && #[trigger] graph_reaches(
                    graph,
                    stack[x] as int,
                    stack[y] as int,
                );
            assert(enc(vs2, stack[y] as int) == low(vs2, stack[x] as int));
        }
    }
    assert forall|x: int|
        0 <= x < stack.len() && !active[stack[x] as int] && stack[x] as int != -1 implies low(
        vs2,
        #[trigger] stack[x] as int,
    ) < enc(vs2, stack[x] as int) by {
        assert(active[i]);
        assert(stack[x] as int != i);
    }
    assert forall|f: int, x: int|
        0 <= f < frames2.len() && 0 <= x < stack.len() && enc(vs2, frames2[f].0 as int) <= enc(vs2, stack[x] as int)
            implies graph_reaches(graph, (#[trigger] frames2[f]).0 as int, #[trigger] stack[x] as int) by {
        assert(frames2[f].0 == frames[f].0);
    }
}

/// Walks after the top frame finishes; the finished vertex's own low link
/// is left open, and it reaches every stack vertex visited after it.
proof fn lemma_reach_finish(
    graph: Seq<Vec<usize>>,
    vs: Seq<TarjanVertex>,
    order: Seq<usize>,
    sccs: Seq<Vec<usize>>,
    stack: Seq<usize>,
    frames: Seq<(usize, usize)>,
    done: Seq<int>,
    active: Seq<bool>,
    start: int,
)
    requires
        dfs_ok(graph, vs, order, sccs, stack, frames, done, active, start),
        stack_reach(graph, vs, stack, frames, active, -1),
        frames.len() > 0,
        frames.last().1 >= graph[frames.last().0 as int]@.len(),
    ensures
        stack_reach(
            graph,
            finished_lows(vs, frames),
            stack,
            frames.drop_last(),
            active.update(frames.last().0 as int, false),
            frames.last().0 as int,
        ),
        forall|x: int|
            0 <= x < stack.len() && enc(finished_lows(vs, frames), frames.last().0 as int) <= enc(
                finished_lows(vs, frames),
                stack[x] as int,
            ) ==> graph_reaches(graph, frames.last().0 as int, #[trigger] stack[x] as int),
{
    let i = frames.last().0 as int;
    let vs2 = finished_lows(vs, frames);
    let frames2 = frames.drop_last();
    let active2 = active.update(i, false);
    let fi = frames.len() - 1;
    assert(frames[fi].0 as int == i);
    assert forall|v: int| 0 <= v < vs.len() implies enc(vs2, v) == enc(vs, v) by {}
    assert forall|x: int|
        0 <= x < stack.len() && enc(vs2, i) <= enc(vs2, stack[x] as int) implies graph_reaches(
        graph,
        i,
        #[trigger] stack[x] as int,
    ) by {
        assert(graph_reaches(graph, frames[fi].0 as int, stack[x] as int));
    }
    assert(vs[i].on_stack);
    let xi = choose|xi: int| 0 <= xi < stack.len() && #[trigger] stack[xi] == i;
    if frames2.len() > 0 {
        let p = frames2.last().0 as int;
        let fp = frames2.len() - 1;
        assert(frames[fp].0 as int == p);
        assert(enc(vs, p) < enc(vs, i));
        assert(vs[p].on_stack);
        let xp = choose|xp: int| 0 <= xp < stack.len() && #[trigger] stack[xp] == p;
        assert(graph_reaches(graph, frames[fp].0 as int, stack[xi] as int));
        assert forall|x: int| 0 <= x < stack.len() implies #[trigger] reaches_low(graph, vs2, stack, x) by {
            assert(reaches_low(graph, vs, stack, x));
            if x == xp && low(vs, i) < low(vs, p) {
                assert(reaches_low(graph, vs, stack, xi));
                let y = choose|y: int|
                    0 <= y <= xi && enc(vs, stack[y] as int) == low(vs, stack[xi] as int) && #[trigger] graph_reaches(
                        graph,
                        stack[xi] as int,
                        stack[y] as int,
                    );
                assert(low(vs, p) <= enc(vs, p));
                if y >= xp {
                    if y > xp {
                        assert(enc(vs, stack[xp] as int) < enc(vs, stack[y] as int));
                    }
                    assert(false);
                }
                lemma_reach_trans(graph, p, i, stack[y] as int);
                assert(enc(vs2, stack[y] as int) == low(vs2, stack[x] as int));
                assert(graph_reaches(graph, stack[x] as int, stack[y] as int));
            } else {
                let y = choose|y: int|
                    0 <= y <= x && enc(vs, stack[y] as int) == low(vs, stack[x] as int) && #[trigger] graph_reaches(
                        graph,
                        stack[x] as int,
                        stack[y] as int,
                    );
                assert(enc(vs2, stack[y] as int) == low(vs2, stack[x] as int));
            }
        }
        assert forall|x: int|
            0 <= x < stack.len() && !active2[stack[x] as int] && stack[x] as int != i implies low(
            vs2,
            #[trigger] stack[x] as int,
        ) < enc(vs2, stack[x] as int) by {
            assert(active[p]);
            assert(stack[x] as int != p);
        }
    } else {
        assert(vs2 == vs);
        assert forall|x: int| 0 <= x < stack.len() implies #[trigger] reaches_low(graph, vs2, stack, x) by {
            assert(reaches_low(graph, vs, stack, x));
        }
    }
    assert forall|f: int, x: int|
        0 <= f < frames2.len() && 0 <= x < stack.len() && enc(vs2, frames2[f].0 as int) <= enc(vs2, stack[x] as int)
            implies graph_reaches(graph, (#[trigger] frames2[f]).0 as int, #[trigger] stack[x] as int) by {
        assert(frames2[f] == frames[f]);
    }
}

/// Each stack vertex at or above the root's position `pr`, whose low links
/// point no lower than the root, reaches the root.
proof fn lemma_reach_root(
    graph: Seq<Vec<usize>>,
    vs: Seq<TarjanVertex>,
    stack: Seq<usize>,
    pr: int,
    x: int,
)
    requires
        0 <= pr <= x < stack.len(),
        forall|a: int, b: int| 0 <= a < b < stack.len() ==> enc(vs, #[trigger] stack[a] as int) < enc(vs, #[trigger] stack[b] as int),
        forall|y: int| 0 <= y < stack.len() ==> #[trigger] reaches_low(graph, vs, stack, y),
        forall|y: int| pr < y < stack.len() ==> low(vs, #[trigger] stack[y] as int) < enc(vs, stack[y] as int),
        forall|y: int| pr <= y < stack.len() ==> low(vs, #[trigger] stack[y] as int) >= enc(vs, stack[pr] as int),
    ensures
        graph_reaches(graph, stack[x] as int, stack[pr] as int),
    decreases x,
{
    if x == pr {
        lemma_reach_refl(graph, stack[pr] as int);
    } else {
        assert(reaches_low(graph, vs, stack, x));
        let y = choose|y: int|
            0 <= y <= x && enc(vs, stack[y] as int) == low(vs, stack[x] as int) && #[trigger] graph_reaches(
                graph,
                stack[x] as int,
                stack[y] as int,
            );
        assert(low(vs, stack[x] as int) < enc(vs, stack[x] as int));
        assert(y != x);
        if y < pr {
            assert(enc(vs, stack[y] as int) < enc(vs, stack[pr] as int));
            assert(false);
        }
        lemma_reach_root(graph, vs, stack, pr, y);
        lemma_reach_trans(graph, stack[x] as int, stack[y] as int, stack[pr] as int);
    }
}

/// Walks after the component rooted at `i` is popped: its vertices reach
/// each other, and what the search knows of the rest of the stack stays.
proof fn lemma_reach_pop(
    graph: Seq<Vec<usize>>,
    vs2: Seq<TarjanVertex>,
    vs3: Seq<TarjanVertex>,
    order: Seq<usize>,
    sccs: Seq<Vec<usize>>,
    sccs3: Seq<Vec<usize>>,
    stack: Seq<usize>,
    stack3: Seq<usize>,
    frames2: Seq<(usize, usize)>,
    done: Seq<int>,
    active2: Seq<bool>,
    start: int,
    i: int,
)
    requires
        dfs_core(graph, vs2, order, sccs, stack, frames2, done, active2, start),
        sccs_reach(graph, sccs),
        stack_reach(graph, vs2, stack, frames2, active2, i),
        0 <= i < graph.len(),
        vs2[i].on_stack,
        low(vs2, i) == enc(vs2, i),
        forall|f: int| 0 <= f < frames2.len() ==> enc(vs2, (#[trigger] frames2[f]).0 as int) < enc(vs2, i),
        forall|w: int|
            0 <= w < graph.len() && (#[trigger] vs2[w]).on_stack && enc(vs2, w) >= enc(vs2, i) ==> low(vs2, w) >= enc(
                vs2,
                i,
            ),
        forall|x: int|
            0 <= x < stack.len() && enc(vs2, i) <= enc(vs2, stack[x] as int) ==> graph_reaches(
                graph,
                i,
                #[trigger] stack[x] as int,
            ),
        vs3.len() == vs2.len(),
        forall|v: int|
            0 <= v < graph.len() ==> (#[trigger] vs3[v]).encountered_at == vs2[v].encountered_at && vs3[v].low_link
                == vs2[v].low_link,
        exists|pr: int|
            0 <= pr < stack.len() && stack[pr] == i && stack3 == stack.subrange(0, pr) && sccs3.drop_last() == sccs
                && sccs3.len() == sccs.len() + 1 && sccs3.last()@ == stack.subrange(pr, stack.len() as int),
    ensures
        sccs_reach(graph, sccs3),
        stack_reach(graph, vs3, stack3, frames2, active2, -1),
{
    let n = graph.len() as int;
    let pr = choose|pr: int|
        0 <= pr < stack.len() && stack[pr] == i && stack3 == stack.subrange(0, pr) && sccs3.drop_last() == sccs
            && sccs3.len() == sccs.len() + 1 && sccs3.last()@ == stack.subrange(pr, stack.len() as int);
    let comp = stack.subrange(pr, stack.len() as int);
    assert forall|v: int| 0 <= v < n implies enc(vs3, v) == enc(vs2, v) && low(vs3, v) == low(vs2, v) by {
        assert(vs3[v].encountered_at == vs2[v].encountered_at);
    }
    // Every vertex of the component reaches the root, and the root reaches each.
    assert forall|y: int| pr < y < stack.len() implies low(vs2, #[trigger] stack[y] as int) < enc(vs2, stack[y] as int) by {
        let w = stack[y] as int;
        assert(enc(vs2, stack[pr] as int) < enc(vs2, stack[y] as int));
        if active2[w] {
            let f = choose|f: int| 0 <= f < frames2.len() && (#[trigger] frames2[f]).0 == w;
            assert(enc(vs2, frames2[f].0 as int) < enc(vs2, i));
            assert(false);
        }
        assert(w != i);
    }
    assert forall|y: int| pr <= y < stack.len() implies low(vs2, #[trigger] stack[y] as int) >= enc(vs2, stack[pr] as int) by {
        let w = stack[y] as int;
        assert(vs2[w].on_stack);
        if y > pr {
            assert(enc(vs2, stack[pr] as int) < enc(vs2, stack[y] as int));
        }
    }
    assert forall|a: int, b: int|
        0 <= a < comp.len() && 0 <= b < comp.len() implies graph_reaches(graph, comp[a] as int, comp[b] as int) by {
        lemma_reach_root(graph, vs2, stack, pr, pr + a);
        if b > 0 {
            assert(enc(vs2, stack[pr] as int) < enc(vs2, stack[pr + b] as int));
        }
        assert(graph_reaches(graph, i, stack[pr + b] as int));
        lemma_reach_trans(graph, comp[a] as int, i, comp[b] as int);
    }
    assert forall|s: int, a: int, b: int|
        0 <= s < sccs3.len() && 0 <= a < sccs3[s]@.len() && 0 <= b < sccs3[s]@.len() implies graph_reaches(
        graph,
        #[trigger] sccs3[s]@[a] as int,
        #[trigger] sccs3[s]@[b] as int,
    ) by {
        if s < sccs.len() {
            assert(sccs3[s] == sccs3.drop_last()[s]);
            assert(graph_reaches(graph, sccs[s]@[a] as int, sccs[s]@[b] as int));
        } else {
            assert(sccs3[s]@ == comp);
            assert(graph_reaches(graph, comp[a] as int, comp[b] as int));
        }
    }
    assert forall|x: int| 0 <= x < stack3.len() implies #[trigger] reaches_low(graph, vs3, stack3, x) by {
        assert(stack3[x] == stack[x]);
        assert(reaches_low(graph, vs2, stack, x));
        let y = choose|y: int|
            0 <= y <= x && enc(vs2, stack[y] as int) == low(vs2, stack[x] as int) && #[trigger] graph_reaches(
                graph,
                stack[x] as int,
                stack[y] as int,
            );
        assert(stack3[y] == stack[y]);
        assert(enc(vs3, stack3[y] as int) == low(vs3, stack3[x] as int));
        assert(graph_reaches(graph, stack3[x] as int, stack3[y] as int));
    }
    assert forall|x: int|
        0 <= x < stack3.len() && !active2[stack3[x] as int] && stack3[x] as int != -1 implies low(
        vs3,
        #[trigger] stack3[x] as int,
    ) < enc(vs3, stack3[x] as int) by {
        assert(stack3[x] == stack[x]);
        assert(enc(vs2, stack[x] as int) < enc(vs2, stack[pr] as int));
        assert(stack[x] as int != i);
    }
    assert forall|f: int, x: int|
        0 <= f < frames2.len() && 0 <= x < stack3.len() && enc(vs3, frames2[f].0 as int) <= enc(vs3, stack3[x] as int)
            implies graph_reaches(graph, (#[trigger] frames2[f]).0 as int, #[trigger] stack3[x] as int) by {
        assert(stack3[x] == stack[x]);
        assert(frames2[f].0 < n);
        assert(graph_reaches(graph, frames2[f].0 as int, stack[x] as int));
    }
}

/// [`dfs_core`], and the stack is empty once no frame is left.
spec fn dfs_ok(
    graph: Seq<Vec<usize>>,
    vs: Seq<TarjanVertex>,
    order: Seq<usize>,
    sccs: Seq<Vec<usize>>,
    stack: Seq<usize>,
    frames: Seq<(usize, usize)>,
    done: Seq<int>,
    active: Seq<bool>,
    start: int,
) -> bool {
    &&& dfs_core(graph, vs, order, sccs, stack, frames, done, active, start)
    &&& frames.len() == 0 ==> stack.len() == 0
}

/// The edges left to follow from the active frames, and one per frame.
spec fn work(graph: Seq<Vec<usize>>, frames: Seq<(usize, usize)>) -> int
    decreases frames.len(),
{
    if frames.len() == 0 {
        0
    } else {
        work(graph, frames.drop_last()) + (graph[frames.last().0 as int]@.len() - frames.last().1) + 1
    }
}

proof fn lemma_order_ok_kept(n: int, vs0: Seq<TarjanVertex>, vs1: Seq<TarjanVertex>, order: Seq<usize>)
    requires
        order_ok(n, vs0, order),
        vs1.len() == n,
        forall|v: int| 0 <= v < n ==> (#[trigger] vs1[v]).encountered_at == vs0[v].encountered_at,
        forall|v: int|
            0 <= v < n && seen(vs0, v) ==> ((#[trigger] vs1[v]).on_stack <==> vs1[v].scc == usize::MAX),
        forall|v: int|
            0 <= v < n && !seen(vs0, v) ==> (#[trigger] vs1[v]).on_stack == vs0[v].on_stack && vs1[v].scc
                == vs0[v].scc,
    ensures
        order_ok(n, vs1, order),
{
    assert forall|d: int| 0 <= d < order.len() implies (#[trigger] order[d]) < n && seen(vs1, order[d] as int) && enc(
        vs1,
        order[d] as int,
    ) == d by {
        assert(vs1[order[d] as int].encountered_at == vs0[order[d] as int].encountered_at);
    }
    assert forall|v: int| 0 <= v < n && seen(vs1, v) implies #[trigger] enc(vs1, v) == enc(vs0, v) && seen(vs0, v)
        && enc(vs0, v) < order.len() && order[enc(vs0, v)] == v by {
        assert(vs1[v].encountered_at == vs0[v].encountered_at);
        assert(seen(vs0, v));
        assert(order[enc(vs0, v)] == v);
    }
    assert forall|v: int| 0 <= v < n && !seen(vs1, v) implies !vs1[v].on_stack && vs1[v].scc == usize::MAX by {
        assert(vs1[v].encountered_at == vs0[v].encountered_at);
    }
    assert forall|v: int| 0 <= v < n && seen(vs1, v) implies (vs1[v].on_stack <==> vs1[v].scc == usize::MAX) by {
        assert(vs1[v].encountered_at == vs0[v].encountered_at);
    }
}

/// Pops the component rooted at `root` off the stack: `root` and every
/// vertex above it, which all have later visit orders.
#[verifier::rlimit(60)]
fn pop_component(
    vertices: &mut Vec<TarjanVertex>,
    sccs: &mut Vec<Vec<usize>>,
    stack: &mut Vec<usize>,
    root: usize,
    Ghost(graph): Ghost<Seq<Vec<usize>>>,
    Ghost(order): Ghost<Seq<usize>>,
    Ghost(done): Ghost<Seq<int>>,
)
    requires
        graph_wf(graph),
        graph.len() < usize::MAX,
        order_ok(graph.len() as int, old(vertices)@, order),
        sccs_ok(graph.len() as int, old(vertices)@, old(sccs)@),
        topo_ok(graph, old(vertices)@, old(sccs)@.len() as int),
        old(sccs)@.len() + old(stack)@.len() <= order.len(),
        forall|v: int|
            0 <= v < graph.len() ==> #[trigger] old(vertices)@[v].scc == usize::MAX || old(vertices)@[v].scc < old(
                sccs,
            )@.len(),
        forall|i: int|
            0 <= i < old(stack)@.len() ==> (#[trigger] old(stack)@[i]) < graph.len() && seen(
                old(vertices)@,
                old(stack)@[i] as int,
            ) && old(vertices)@[old(stack)@[i] as int].on_stack,
        forall|i: int, j: int|
            0 <= i < j < old(stack)@.len() ==> enc(old(vertices)@, #[trigger] old(stack)@[i] as int) < enc(
                old(vertices)@,
                #[trigger] old(stack)@[j] as int,
            ),
        forall|v: int|
            0 <= v < graph.len() && old(vertices)@[v].on_stack ==> exists|i: int|
                0 <= i < old(stack)@.len() && #[trigger] old(stack)@[i] == v,
        done.len() == graph.len(),
        forall|w: int, k: int|
            0 <= w < graph.len() && 0 <= k < done[w] ==> seen(old(vertices)@, #[trigger] graph[w]@[k] as int) && (
            !old(vertices)@[graph[w]@[k] as int].on_stack || low(old(vertices)@, w) <= enc(
                old(vertices)@,
                graph[w]@[k] as int,
            )),
        root < graph.len(),
        old(vertices)@[root as int].on_stack,
        low(old(vertices)@, root as int) == enc(old(vertices)@, root as int),
        forall|w: int|
            0 <= w < graph.len() && (#[trigger] old(vertices)@[w]).on_stack && enc(old(vertices)@, w) >= enc(
                old(vertices)@,
                root as int,
            ) ==> done[w] == graph[w]@.len() && low(old(vertices)@, w) >= enc(old(vertices)@, root as int),
    ensures
        order_ok(graph.len() as int, final(vertices)@, order),
        sccs_ok(graph.len() as int, final(vertices)@, final(sccs)@),
        topo_ok(graph, final(vertices)@, final(sccs)@.len() as int),
        final(sccs)@.len() == old(sccs)@.len() + 1,
        final(sccs)@.len() + final(stack)@.len() <= order.len(),
        forall|v: int|
            0 <= v < graph.len() ==> #[trigger] final(vertices)@[v].scc == usize::MAX || final(vertices)@[v].scc
                < final(sccs)@.len(),
        exists|pr: int| 0 <= pr < old(stack)@.len() && old(stack)@[pr] == root && final(stack)@ == old(stack)@.subrange(0, pr),
        exists|pr: int|
            0 <= pr < old(stack)@.len() && old(stack)@[pr] == root && final(stack)@ == old(stack)@.subrange(0, pr)
                && final(sccs)@.drop_last() == old(sccs)@ && final(sccs)@.len() == old(sccs)@.len() + 1
                && final(sccs)@.last()@ == old(stack)@.subrange(pr, old(stack)@.len() as int),
        forall|v: int|
            0 <= v < graph.len() ==> (#[trigger] final(vertices)@[v]).encountered_at == old(vertices)@[v].encountered_at
                && final(vertices)@[v].low_link == old(vertices)@[v].low_link,
        forall|v: int|
            0 <= v < graph.len() ==> (#[trigger] final(vertices)@[v]).on_stack == (old(vertices)@[v].on_stack
                && enc(old(vertices)@, v) < enc(old(vertices)@, root as int)),
{
    let ghost vs0 = vertices@;
    let ghost st0 = stack@;
    let ghost s_idx = sccs@.len();
    let ghost n = graph.len() as int;
    let ghost pr = choose|i: int| 0 <= i < st0.len() && #[trigger] st0[i] == root;
    let index: usize = sccs.len();
    let mut component: Vec<usize> = Vec::new();
    let mut finished: bool = false;
    let ghost mut bound: int = usize::MAX as int + 1;
    while !finished
        invariant
            vs0.len() == n,
            vertices@.len() == n,
            0 <= pr < st0.len(),
            st0[pr] == root,
            index == s_idx,
            graph_wf(graph),
            n == graph.len(),
            order_ok(n, vs0, order),
            forall|i: int|
                0 <= i < st0.len() ==> (#[trigger] st0[i]) < n && seen(vs0, st0[i] as int) && vs0[st0[i] as int].on_stack,
            forall|i: int, j: int|
                0 <= i < j < st0.len() ==> enc(vs0, #[trigger] st0[i] as int) < enc(vs0, #[trigger] st0[j] as int),
            forall|v: int|
                0 <= v < n && vs0[v].on_stack ==> exists|i: int| 0 <= i < st0.len() && #[trigger] st0[i] == v,
            stack@.len() <= st0.len(),
            !finished ==> pr < stack@.len() && stack@ == st0.subrange(0, stack@.len() as int) && component@
                == st0.subrange(stack@.len() as int, st0.len() as int),
            finished ==> stack@ == st0.subrange(0, pr) && component@ == st0.subrange(pr, st0.len() as int),
            stack@.len() < st0.len() ==> bound == enc(vs0, st0[stack@.len() as int] as int),
            stack@.len() == st0.len() ==> bound == usize::MAX as int + 1,
            forall|v: int|
                0 <= v < n ==> (#[trigger] vertices@[v]).encountered_at == vs0[v].encountered_at
                    && vertices@[v].low_link == vs0[v].low_link,
            forall|v: int|
                0 <= v < n && vs0[v].on_stack && enc(vs0, v) >= bound ==> !(#[trigger] vertices@[v]).on_stack
                    && vertices@[v].scc == s_idx,
            forall|v: int|
                0 <= v < n && !(vs0[v].on_stack && enc(vs0, v) >= bound) ==> (#[trigger] vertices@[v]).on_stack
                    == vs0[v].on_stack && vertices@[v].scc == vs0[v].scc,
        decreases stack@.len(),
    {
        let ghost before = vertices@;
        let ghost len_before = stack@.len();
        proof {
            assert(pr < stack@.len());
            let last = (len_before - 1) as int;
            assert(stack@ == st0.subrange(0, stack@.len() as int));
            assert(0 <= last < stack@.len());
            assert(st0.subrange(0, stack@.len() as int)[last] == st0[last]);
            assert(stack@[last] == st0[last]);
        }
        let w: usize = stack.pop().unwrap();
        proof {
            let last = (len_before - 1) as int;
            assert(w == st0[last]);
            assert(stack@ =~= st0.subrange(0, last));
        }
        let mut t: TarjanVertex = vertices[w];
        t.on_stack = false;
        t.scc = index;
        vertices.set(w, t);
        component.insert(0, w);
        let ghost old_bound = bound;
        proof {
            bound = enc(vs0, w as int);
            assert(component@ =~= st0.subrange(stack@.len() as int, st0.len() as int));
            assert forall|v: int| 0 <= v < n && vs0[v].on_stack && enc(vs0, v) >= bound implies !(
            #[trigger] vertices@[v]).on_stack && vertices@[v].scc == s_idx by {
                if v != w {
                    assert(vertices@[v] == before[v]);
                    let i = choose|i: int| 0 <= i < st0.len() && #[trigger] st0[i] == v;
                    if i < len_before - 1 {
                        assert(enc(vs0, st0[i] as int) < enc(vs0, st0[len_before - 1] as int));
                    } else if i == len_before - 1 {
                    } else {
                        assert(len_before < st0.len());
                        if i > len_before {
                            assert(enc(vs0, st0[len_before as int] as int) < enc(vs0, st0[i] as int));
                        }
                        assert(enc(vs0, v) >= old_bound);
                    }
                }
            }
            assert forall|v: int| 0 <= v < n && !(vs0[v].on_stack && enc(vs0, v) >= bound) implies (
            #[trigger] vertices@[v]).on_stack == vs0[v].on_stack && vertices@[v].scc == vs0[v].scc by {
                assert(v != w);
                assert(vertices@[v] == before[v]);
                if vs0[v].on_stack && enc(vs0, v) >= old_bound {
                    if len_before < st0.len() {
                        assert(enc(vs0, st0[len_before - 1] as int) < enc(vs0, st0[len_before as int] as int));
                    }
                }
            }
        }
        if w == root {
            finished = true;
            proof {
                if stack@.len() != pr {
                    if stack@.len() < pr {
                        assert(enc(vs0, st0[stack@.len() as int] as int) < enc(vs0, st0[pr] as int));
                    } else {
                        assert(enc(vs0, st0[pr] as int) < enc(vs0, st0[stack@.len() as int] as int));
                    }
                }
            }
        } else {
            proof {
                if stack@.len() == pr {
                    assert(st0[pr] == w);
                }
                assert(stack@.len() != pr);
                if stack@.len() < pr {
                    assert(enc(vs0, st0[stack@.len() as int] as int) < enc(vs0, st0[pr] as int));
                    assert(false);
                }
            }
        }
    }
    let ghost vs1 = vertices@;
    sccs.push(component);
    proof {
        let comp = st0.subrange(pr, st0.len() as int);
        let sc = sccs@;
        assert(sc[s_idx as int]@ == comp);
        assert(sc.drop_last() =~= old(sccs)@);
        // Which vertices were popped: exactly those on the stack visited no earlier than the root.
        assert forall|v: int| 0 <= v < n implies ((exists|i: int| pr <= i < st0.len() && #[trigger] st0[i] == v)
            <==> (vs0[v].on_stack && enc(vs0, v) >= enc(vs0, root as int))) by {
            if exists|i: int| pr <= i < st0.len() && #[trigger] st0[i] == v {
                let i = choose|i: int| pr <= i < st0.len() && #[trigger] st0[i] == v;
                if i > pr {
                    assert(enc(vs0, st0[pr] as int) < enc(vs0, st0[i] as int));
                }
            }
            if vs0[v].on_stack && enc(vs0, v) >= enc(vs0, root as int) {
                let i = choose|i: int| 0 <= i < st0.len() && #[trigger] st0[i] == v;
                if i < pr {
                    assert(enc(vs0, st0[i] as int) < enc(vs0, st0[pr] as int));
                }
                assert(pr <= i < st0.len());
            }
        }
        assert(bound == enc(vs0, root as int));
        assert forall|v: int| 0 <= v < n implies (#[trigger] vs1[v]).on_stack == (vs0[v].on_stack && enc(vs0, v) < enc(
            vs0,
            root as int,
        )) by {
            if vs0[v].on_stack && enc(vs0, v) >= bound {
            }
        }
        assert forall|v: int| 0 <= v < n && seen(vs0, v) implies (vs1[v].on_stack <==> vs1[v].scc == usize::MAX) by {
            if vs0[v].on_stack && enc(vs0, v) >= bound {
                assert(order.len() <= n);
                assert(!vs1[v].on_stack && vs1[v].scc == s_idx);
            } else {
                assert(vs1[v].on_stack == vs0[v].on_stack && vs1[v].scc == vs0[v].scc);
            }
        }
        assert forall|v: int| 0 <= v < n && !seen(vs0, v) implies vs1[v].on_stack == vs0[v].on_stack && vs1[v].scc
            == vs0[v].scc by {
            assert(!vs0[v].on_stack);
        }
        lemma_order_ok_kept(n, vs0, vs1, order);
        assert(sccs_ok(n, vs1, sc)) by {
            assert forall|s: int, k: int| 0 <= s < sc.len() && 0 <= k < sc[s]@.len() implies (#[trigger] sc[s]@[k]) < n
                && vs1[sc[s]@[k] as int].scc == s && seen(vs1, sc[s]@[k] as int) && !vs1[sc[s]@[k] as int].on_stack by {
                if s == s_idx {
                    assert(sc[s]@[k] == st0[pr + k]);
                    assert(vs1[sc[s]@[k] as int].encountered_at == vs0[sc[s]@[k] as int].encountered_at);
                } else {
                    let v = sc[s]@[k] as int;
                    assert(sc[s] == old(sccs)@[s]);
                    assert(vs0[v].scc == s);
                    if exists|i: int| pr <= i < st0.len() && #[trigger] st0[i] == v {
                        let i = choose|i: int| pr <= i < st0.len() && #[trigger] st0[i] == v;
                        assert(vs0[st0[i] as int].on_stack);
                    }
                    assert(vs1[v].encountered_at == vs0[v].encountered_at);
                }
            }
            assert forall|s: int, i: int, j: int| 0 <= s < sc.len() && 0 <= i < j < sc[s]@.len() implies enc(
                vs1,
                #[trigger] sc[s]@[i] as int,
            ) < enc(vs1, #[trigger] sc[s]@[j] as int) by {
                assert(vs1[sc[s]@[i] as int].encountered_at == vs0[sc[s]@[i] as int].encountered_at);
                assert(vs1[sc[s]@[j] as int].encountered_at == vs0[sc[s]@[j] as int].encountered_at);
                if s == s_idx {
                    assert(sc[s]@[i] == st0[pr + i]);
                    assert(sc[s]@[j] == st0[pr + j]);
                } else {
                    assert(sc[s] == old(sccs)@[s]);
                }
            }
            assert forall|s: int| 0 <= s < sc.len() implies low(vs1, (#[trigger] sc[s])@[0] as int) == enc(
                vs1,
                sc[s]@[0] as int,
            ) by {
                assert(vs1[sc[s]@[0] as int].encountered_at == vs0[sc[s]@[0] as int].encountered_at);
                if s == s_idx {
                    assert(sc[s]@[0] == root);
                } else {
                    assert(sc[s] == old(sccs)@[s]);
                }
            }
            assert forall|s: int| 0 <= s < sc.len() implies (#[trigger] sc[s])@.len() > 0 by {
                if s != s_idx {
                    assert(sc[s] == old(sccs)@[s]);
                }
            }
            assert forall|v: int| 0 <= v < n && seen(vs1, v) && !vs1[v].on_stack implies vs1[v].scc < sc.len()
                && exists|k: int| 0 <= k < sc[vs1[v].scc as int]@.len() && #[trigger] sc[vs1[v].scc as int]@[k] == v by {
                assert(vs1[v].encountered_at == vs0[v].encountered_at);
                if vs0[v].on_stack && enc(vs0, v) >= bound {
                    let i = choose|i: int| 0 <= i < st0.len() && #[trigger] st0[i] == v;
                    if i < pr {
                        assert(enc(vs0, st0[i] as int) < enc(vs0, st0[pr] as int));
                    }
                    assert(sc[s_idx as int]@[i - pr] == v);
                } else {
                    assert(vs1[v].on_stack == vs0[v].on_stack && vs1[v].scc == vs0[v].scc);
                    assert(seen(vs0, v) && !vs0[v].on_stack);
                    assert(vs0[v].scc < s_idx);
                    let s = vs0[v].scc as int;
                    assert(exists|k: int| 0 <= k < old(sccs)@[s]@.len() && #[trigger] old(sccs)@[s]@[k] == v);
                    assert(sc[s] == old(sccs)@[s]);
                    let k = choose|k: int| 0 <= k < old(sccs)@[s]@.len() && #[trigger] old(sccs)@[s]@[k] == v;
                    assert(sc[s]@[k] == v);
                }
            }
        }
        assert(topo_ok(graph, vs1, sc.len() as int)) by {
            assert forall|w: int, k: int| 0 <= w < n && 0 <= k < graph[w]@.len() && vs1[w].scc < sc.len() implies vs1[graph[w]@[k] as int].scc
                < sc.len() && vs1[#[trigger] graph[w]@[k] as int].scc <= vs1[w].scc by {
                let x = graph[w]@[k] as int;
                if exists|i: int| pr <= i < st0.len() && #[trigger] st0[i] == w {
                    // a popped vertex: its edges all lead to assigned or popped vertices
                    assert(vs0[w].on_stack && enc(vs0, w) >= enc(vs0, root as int));
                    assert(done[w] == graph[w]@.len());
                    assert(seen(vs0, x));
                    if vs0[x].on_stack {
                        assert(enc(vs0, x) >= low(vs0, w));
                        assert(enc(vs0, x) >= enc(vs0, root as int));
                    } else {
                        assert(vs0[x].scc < s_idx);
                    }
                } else {
                    assert(vs0[w].scc < s_idx);
                }
            }
        }
        assert(sc.len() + stack@.len() <= order.len()) by {
            assert(stack@.len() == pr);
        }
        assert(forall|v: int| 0 <= v < n ==> #[trigger] vs1[v].scc == usize::MAX || vs1[v].scc < sc.len());
    }
}

/// The vertex as first visited, `d`-th.
spec fn fresh(d: int) -> TarjanVertex {
    TarjanVertex {
        encountered_at: DfsIndex(d as usize),
        low_link: DfsIndex(d as usize),
        scc: usize::MAX,
        on_stack: true,
    }
}

/// `t` with its low link lowered to `l` when that is smaller.
spec fn lowered(t: TarjanVertex, l: DfsIndex) -> TarjanVertex {
    TarjanVertex { low_link: if l.0 < t.low_link.0 { l } else { t.low_link }, ..t }
}

/// Following a tree edge `i -> j` to an unvisited `j` keeps the search's
/// invariant.
proof fn lemma_visit(
    graph: Seq<Vec<usize>>,
    vs: Seq<TarjanVertex>,
    order: Seq<usize>,
    sccs: Seq<Vec<usize>>,
    stack: Seq<usize>,
    frames: Seq<(usize, usize)>,
    done: Seq<int>,
    active: Seq<bool>,
    start: int,
    j: int,
)
    requires
        dfs_ok(graph, vs, order, sccs, stack, frames, done, active, start),
        frames.len() > 0,
        frames.last().1 < graph[frames.last().0 as int]@.len(),
        j == graph[frames.last().0 as int]@[frames.last().1 as int],
        !seen(vs, j),
    ensures
        dfs_ok(
            graph,
            vs.update(j, fresh(order.len() as int)),
            order.push(j as usize),
            sccs,
            stack.push(j as usize),
            frames.update(frames.len() - 1, (frames.last().0, (frames.last().1 + 1) as usize)).push((j as usize, 0usize)),
            done.update(frames.last().0 as int, frames.last().1 + 1),
            active.update(j, true),
            start,
        ),
{
    let n = graph.len() as int;
    let i = frames.last().0 as int;
    let c = frames.last().1 as int;
    let d = order.len() as int;
    let vs2 = vs.update(j, fresh(d));
    let order2 = order.push(j as usize);
    let stack2 = stack.push(j as usize);
    let frames2 = frames.update(frames.len() - 1, (frames.last().0, (frames.last().1 + 1) as usize)).push(
        (j as usize, 0usize),
    );
    let done2 = done.update(i, c + 1);
    let active2 = active.update(j, true);
    assert(0 <= j < n);
    assert(d < n) by {
        // `j` is unvisited, so not every vertex has been visited.
        if d >= n {
            lemma_injective_covers(n, vs, order, j);
        }
    }
    assert(seen(vs, i));
    assert(order[enc(vs, i)] == i);
    assert(enc(vs, i) < d);
    assert forall|v: int| 0 <= v < n && v != j implies #[trigger] vs2[v] == vs[v] by {}
    assert(order_ok(n, vs2, order2)) by {
        assert forall|x: int| 0 <= x < order2.len() implies (#[trigger] order2[x]) < n && seen(vs2, order2[x] as int)
            && enc(vs2, order2[x] as int) == x by {
            if x < d {
                assert(order2[x] == order[x]);
                assert(order[x] != j);
            }
        }
        assert forall|v: int| #![trigger enc(vs2, v)] 0 <= v < n && seen(vs2, v) implies enc(vs2, v) < order2.len() && order2[enc(
            vs2,
            v,
        )] == v by {
            if v != j {
                assert(vs2[v] == vs[v]);
                assert(order[enc(vs, v)] == v);
                assert(order2[enc(vs, v)] == v);
            } else {
                assert(order2[d] == j);
            }
        }
        assert forall|v: int| 0 <= v < n && !seen(vs2, v) implies !vs2[v].on_stack && vs2[v].scc == usize::MAX by {
            assert(v != j);
            assert(vs2[v] == vs[v]);
            assert(!seen(vs, v));
            assert(!vs[v].on_stack && vs[v].scc == usize::MAX);
        }
        assert forall|v: int| 0 <= v < n && seen(vs2, v) implies (vs2[v].on_stack <==> vs2[v].scc == usize::MAX) by {
            if v != j {
                assert(vs2[v] == vs[v]);
                assert(seen(vs, v));
                assert(vs[v].on_stack <==> vs[v].scc == usize::MAX);
            }
        }
    }
    assert(sccs_ok(n, vs2, sccs)) by {
        assert forall|s: int, k: int| 0 <= s < sccs.len() && 0 <= k < sccs[s]@.len() implies (#[trigger] sccs[s]@[k])
            < n && vs2[sccs[s]@[k] as int].scc == s && seen(vs2, sccs[s]@[k] as int) && !vs2[sccs[s]@[k] as int].on_stack by {
            assert(sccs[s]@[k] != j);
        }
        assert forall|s: int, x: int, y: int| 0 <= s < sccs.len() && 0 <= x < y < sccs[s]@.len() implies enc(
            vs2,
            #[trigger] sccs[s]@[x] as int,
        ) < enc(vs2, #[trigger] sccs[s]@[y] as int) by {
            assert(sccs[s]@[x] != j);
            assert(sccs[s]@[y] != j);
        }
        assert forall|s: int| 0 <= s < sccs.len() implies low(vs2, (#[trigger] sccs[s])@[0] as int) == enc(
            vs2,
            sccs[s]@[0] as int,
        ) by {
            assert(sccs[s]@[0] != j);
        }
        assert forall|v: int| 0 <= v < n && seen(vs2, v) && !vs2[v].on_stack implies vs2[v].scc < sccs.len()
            && exists|k: int| 0 <= k < sccs[vs2[v].scc as int]@.len() && #[trigger] sccs[vs2[v].scc as int]@[k] == v by {
            assert(v != j);
            assert(vs2[v] == vs[v]);
            assert(seen(vs, v) && !vs[v].on_stack);
        }
    }
    assert(topo_ok(graph, vs2, sccs.len() as int)) by {
        assert forall|w: int, k: int|
            0 <= w < n && 0 <= k < graph[w]@.len() && vs2[w].scc < sccs.len() implies vs2[graph[w]@[k] as int].scc
            < sccs.len() && vs2[#[trigger] graph[w]@[k] as int].scc <= vs2[w].scc by {
            assert(w != j);
        }
    }
    assert forall|x: int, y: int| 0 <= x < y < stack2.len() implies enc(vs2, #[trigger] stack2[x] as int) < enc(
        vs2,
        #[trigger] stack2[y] as int,
    ) by {
        assert(stack2[x] != j);
        if y < stack.len() {
            assert(stack2[y] != j);
        } else {
            assert(enc(vs, stack[x] as int) < d);
        }
    }
    assert forall|v: int| 0 <= v < n && vs2[v].on_stack implies exists|x: int|
        0 <= x < stack2.len() && #[trigger] stack2[x] == v by {
        if v == j {
            assert(stack2[stack.len() as int] == v);
        } else {
            let x = choose|x: int| 0 <= x < stack.len() && #[trigger] stack[x] == v;
            assert(stack2[x] == v);
        }
    }
    assert forall|f: int, g: int| 0 <= f < g < frames2.len() implies enc(vs2, (#[trigger] frames2[f]).0 as int) < enc(
        vs2,
        (#[trigger] frames2[g]).0 as int,
    ) by {
        assert(frames2[f].0 != j);
        if g < frames.len() {
            assert(frames2[g].0 != j);
        } else {
            assert(enc(vs, frames[f].0 as int) <= enc(vs, i));
        }
    }
    assert forall|v: int| 0 <= v < n && active2[v] implies exists|f: int|
        0 <= f < frames2.len() && (#[trigger] frames2[f]).0 == v by {
        if v == j {
            assert(frames2[frames.len() as int].0 == v);
        } else {
            let f = choose|f: int| 0 <= f < frames.len() && (#[trigger] frames[f]).0 == v;
            assert(frames2[f].0 == v);
        }
    }
    assert forall|w: int, k: int| 0 <= w < n && 0 <= k < done2[w] implies seen(vs2, #[trigger] graph[w]@[k] as int)
        && (!vs2[graph[w]@[k] as int].on_stack || low(vs2, w) <= enc(vs2, graph[w]@[k] as int)) by {
        if w == i && k == c {
            assert(low(vs, i) <= enc(vs, i));
        } else {
            assert(k < done[w]);
            assert(w != j);
        }
    }
    assert forall|v: int| 0 <= v < n && (#[trigger] vs2[v]).on_stack implies stack2.len() > 0 && low(vs2, v) <= enc(
        vs2,
        v,
    ) && low(vs2, v) >= enc(vs2, stack2[0] as int) by {
        assert(stack2[0] == stack[0]);
        if v == j {
            assert(enc(vs, stack[0] as int) <= enc(vs, i));
        }
    }
    assert forall|w: int, f: int|
        #![trigger active2[w], frames2[f]]
        0 <= w < n && vs2[w].on_stack && !active2[w] && 0 <= f < frames2.len() && enc(vs2, frames2[f].0 as int) < enc(
            vs2,
            w,
        ) && (f + 1 == frames2.len() || enc(vs2, w) < enc(vs2, frames2[f + 1].0 as int)) implies low(
        vs2,
        frames2[f].0 as int,
    ) <= low(vs2, w) by {
        assert(w != j);
        if f == frames.len() {
            assert(frames2[f].0 == j);
        } else if f + 1 == frames.len() {
            assert(frames2[f].0 == frames[f].0);
            assert(active[w] == active2[w]);
        } else {
            assert(frames2[f].0 == frames[f].0);
            assert(frames2[f + 1].0 == frames[f + 1].0);
        }
    }
    assert(graph_wf(graph));
    assert(sccs.len() + stack2.len() <= order2.len());
    assert(forall|v: int| 0 <= v < n ==> #[trigger] vs2[v].scc == usize::MAX || vs2[v].scc < sccs.len());
    assert(done2.len() == n && active2.len() == n);
    assert(forall|x: int|
        0 <= x < stack2.len() ==> (#[trigger] stack2[x]) < n && seen(vs2, stack2[x] as int) && vs2[stack2[x] as int].on_stack);
    assert forall|f: int|
        0 <= f < frames2.len() implies (#[trigger] frames2[f]).0 < n && vs2[frames2[f].0 as int].on_stack && active2[frames2[f].0 as int]
            && frames2[f].1 == done2[frames2[f].0 as int] by {
        let top = frames.len() - 1;
        if f == frames.len() {
            assert(frames2[f] == (j as usize, 0usize));
            assert(j != i);
        } else if f == top {
            assert(graph[i].len() == graph[i]@.len());
            assert(c + 1 <= usize::MAX);
            assert(frames2[f] == (i as usize, (c + 1) as usize));
            assert(done2[i] == c + 1);
        } else {
            assert(frames2[f] == frames[f]);
            assert(enc(vs, frames[f].0 as int) < enc(vs, frames[top].0 as int));
            assert(frames[f].0 != i);
            assert(frames[f].0 != j);
        }
    }
    assert(forall|v: int| 0 <= v < n ==> 0 <= #[trigger] done2[v] <= graph[v]@.len());
    assert(forall|v: int| 0 <= v < n && !seen(vs2, v) ==> done2[v] == 0 && !active2[v]);
    assert(forall|v: int| 0 <= v < n && seen(vs2, v) && !active2[v] ==> done2[v] == graph[v]@.len());
    assert(frames2.len() > 0 ==> stack2.len() > 0 && stack2[0] == start && frames2[0].0 == start);
}

/// If every visit order below `n` names a distinct vertex below `n`, all
/// `n` vertices are named.
proof fn lemma_injective_covers(n: int, vs: Seq<TarjanVertex>, order: Seq<usize>, v: int)
    requires
        order_ok(n, vs, order),
        order.len() == n,
        0 <= v < n,
    ensures
        seen(vs, v),
{
    let named = Set::new(|x: int| 0 <= x < n && seen(vs, x));
    let all = Set::new(|x: int| 0 <= x < n);
    let ds = Set::new(|d: int| 0 <= d < n);
    vstd::set_lib::lemma_int_range(0, n);
    assert(all =~= vstd::set_lib::set_int_range(0, n));
    assert(ds =~= all);
    let to_vertex = |d: int| order[d] as int;
    assert(named.finite()) by {
        assert(named.subset_of(all));
        vstd::set_lib::lemma_len_subset(named, all);
    }
    assert(vstd::relations::injective_on(to_vertex, ds)) by {
        assert forall|a: int, b: int| ds.contains(a) && ds.contains(b) && #[trigger] to_vertex(a) == #[trigger] to_vertex(
            b,
        ) implies a == b by {
            assert(enc(vs, order[a] as int) == a);
            assert(enc(vs, order[b] as int) == b);
        }
    }
    assert(ds.map(to_vertex).subset_of(named)) by {
        assert forall|x: int| ds.map(to_vertex).contains(x) implies named.contains(x) by {
            let d = choose|d: int| ds.contains(d) && to_vertex(d) == x;
            assert(order[d] < n && seen(vs, order[d] as int));
        }
    }
    assert(ds.finite());
    vstd::set_lib::lemma_map_size(ds, ds.map(to_vertex), to_vertex);
    assert(ds.len() == n);
    vstd::set_lib::lemma_len_subset(ds.map(to_vertex), named);
    vstd::set_lib::lemma_len_subset(named, all);
    if !seen(vs, v) {
        assert(!named.contains(v));
        assert(named.subset_of(all.remove(v)));
        vstd::set_lib::lemma_len_subset(named, all.remove(v));
        assert(all.contains(v));
    }
}

/// Following the edge `i -> j` to a visited `j` keeps the search's
/// invariant; the low link of `i` drops to that of `j` when `j` is on the
/// stack.
proof fn lemma_follow(
    graph: Seq<Vec<usize>>,
    vs: Seq<TarjanVertex>,
    order: Seq<usize>,
    sccs: Seq<Vec<usize>>,
    stack: Seq<usize>,
    frames: Seq<(usize, usize)>,
    done: Seq<int>,
    active: Seq<bool>,
    start: int,
    j: int,
)
    requires
        dfs_ok(graph, vs, order, sccs, stack, frames, done, active, start),
        frames.len() > 0,
        frames.last().1 < graph[frames.last().0 as int]@.len(),
        j == graph[frames.last().0 as int]@[frames.last().1 as int],
        seen(vs, j),
    ensures
        dfs_ok(
            graph,
            if vs[j].on_stack {
                vs.update(frames.last().0 as int, lowered(vs[frames.last().0 as int], vs[j].low_link))
            } else {
                vs
            },
            order,
            sccs,
            stack,
            frames.update(frames.len() - 1, (frames.last().0, (frames.last().1 + 1) as usize)),
            done.update(frames.last().0 as int, frames.last().1 + 1),
            active,
            start,
        ),
{
    let n = graph.len() as int;
    let top = frames.len() - 1;
    let i = frames.last().0 as int;
    let c = frames.last().1 as int;
    let vs2 = if vs[j].on_stack {
        vs.update(i, lowered(vs[i], vs[j].low_link))
    } else {
        vs
    };
    let frames2 = frames.update(top, (frames.last().0, (frames.last().1 + 1) as usize));
    let done2 = done.update(i, c + 1);
    assert(0 <= j < n);
    assert(vs[i].on_stack);
    assert forall|v: int| 0 <= v < n && v != i implies #[trigger] vs2[v] == vs[v] by {}
    assert forall|v: int| 0 <= v < n implies (#[trigger] vs2[v]).encountered_at == vs[v].encountered_at && vs2[v].scc
        == vs[v].scc && vs2[v].on_stack == vs[v].on_stack && low(vs2, v) <= low(vs, v) by {}
    assert(low(vs2, i) <= enc(vs2, i));
    assert forall|v: int| 0 <= v < n && seen(vs, v) implies ((#[trigger] vs2[v]).on_stack <==> vs2[v].scc == usize::MAX) by {
        assert(vs[v].on_stack <==> vs[v].scc == usize::MAX);
    }
    assert forall|v: int| 0 <= v < n && !seen(vs, v) implies (#[trigger] vs2[v]).on_stack == vs[v].on_stack && vs2[v].scc
        == vs[v].scc by {}
    lemma_order_ok_kept(n, vs, vs2, order);
    assert(sccs_ok(n, vs2, sccs)) by {
        assert forall|s: int, k: int| 0 <= s < sccs.len() && 0 <= k < sccs[s]@.len() implies (#[trigger] sccs[s]@[k])
            < n && vs2[sccs[s]@[k] as int].scc == s && seen(vs2, sccs[s]@[k] as int) && !vs2[sccs[s]@[k] as int].on_stack by {
            assert(vs2[sccs[s]@[k] as int].encountered_at == vs[sccs[s]@[k] as int].encountered_at);
        }
        assert forall|s: int, x: int, y: int| 0 <= s < sccs.len() && 0 <= x < y < sccs[s]@.len() implies enc(
            vs2,
            #[trigger] sccs[s]@[x] as int,
        ) < enc(vs2, #[trigger] sccs[s]@[y] as int) by {
            assert(vs2[sccs[s]@[x] as int].encountered_at == vs[sccs[s]@[x] as int].encountered_at);
            assert(vs2[sccs[s]@[y] as int].encountered_at == vs[sccs[s]@[y] as int].encountered_at);
        }
        assert forall|s: int| 0 <= s < sccs.len() implies low(vs2, (#[trigger] sccs[s])@[0] as int) == enc(
            vs2,
            sccs[s]@[0] as int,
        ) by {
            assert(sccs[s]@[0] != i);
            assert(vs2[sccs[s]@[0] as int] == vs[sccs[s]@[0] as int]);
        }
        assert forall|v: int| 0 <= v < n && seen(vs2, v) && !vs2[v].on_stack implies vs2[v].scc < sccs.len()
            && exists|k: int| 0 <= k < sccs[vs2[v].scc as int]@.len() && #[trigger] sccs[vs2[v].scc as int]@[k] == v by {
            assert(v != i);
            assert(vs2[v] == vs[v]);
            assert(seen(vs, v) && !vs[v].on_stack);
        }
    }
    assert(topo_ok(graph, vs2, sccs.len() as int)) by {
        assert forall|w: int, k: int|
            0 <= w < n && 0 <= k < graph[w]@.len() && vs2[w].scc < sccs.len() implies vs2[graph[w]@[k] as int].scc
            < sccs.len() && vs2[#[trigger] graph[w]@[k] as int].scc <= vs2[w].scc by {
            assert(vs2[w].scc == vs[w].scc);
            assert(vs2[graph[w]@[k] as int].scc == vs[graph[w]@[k] as int].scc);
        }
    }
    assert forall|x: int| 0 <= x < stack.len() implies (#[trigger] stack[x]) < n && seen(vs2, stack[x] as int)
        && vs2[stack[x] as int].on_stack by {
        assert(vs2[stack[x] as int].encountered_at == vs[stack[x] as int].encountered_at);
    }
    assert forall|x: int, y: int| 0 <= x < y < stack.len() implies enc(vs2, #[trigger] stack[x] as int) < enc(
        vs2,
        #[trigger] stack[y] as int,
    ) by {
        assert(vs2[stack[x] as int].encountered_at == vs[stack[x] as int].encountered_at);
        assert(vs2[stack[y] as int].encountered_at == vs[stack[y] as int].encountered_at);
    }
    assert forall|v: int| 0 <= v < n && vs2[v].on_stack implies exists|x: int|
        0 <= x < stack.len() && #[trigger] stack[x] == v by {
        assert(vs[v].on_stack);
    }
    assert forall|f: int| 0 <= f < frames2.len() implies (#[trigger] frames2[f]).0 < n && vs2[frames2[f].0 as int].on_stack
        && active[frames2[f].0 as int] && frames2[f].1 == done2[frames2[f].0 as int] by {
        if f == top {
            assert(graph[i].len() == graph[i]@.len());
            assert(frames2[f] == (i as usize, (c + 1) as usize));
        } else {
            assert(frames2[f] == frames[f]);
            assert(enc(vs, frames[f].0 as int) < enc(vs, frames[top].0 as int));
            assert(frames[f].0 != i);
        }
        assert(vs2[frames2[f].0 as int].on_stack == vs[frames2[f].0 as int].on_stack);
    }
    assert forall|f: int, g: int| 0 <= f < g < frames2.len() implies enc(vs2, (#[trigger] frames2[f]).0 as int) < enc(
        vs2,
        (#[trigger] frames2[g]).0 as int,
    ) by {
        assert(frames2[f].0 == frames[f].0);
        assert(frames2[g].0 == frames[g].0);
        assert(vs2[frames[f].0 as int].encountered_at == vs[frames[f].0 as int].encountered_at);
        assert(vs2[frames[g].0 as int].encountered_at == vs[frames[g].0 as int].encountered_at);
    }
    assert forall|v: int| 0 <= v < n && active[v] implies exists|f: int|
        0 <= f < frames2.len() && (#[trigger] frames2[f]).0 == v by {
        let f = choose|f: int| 0 <= f < frames.len() && (#[trigger] frames[f]).0 == v;
        assert(frames2[f].0 == v);
    }
    assert forall|w: int, k: int| 0 <= w < n && 0 <= k < done2[w] implies seen(vs2, #[trigger] graph[w]@[k] as int)
        && (!vs2[graph[w]@[k] as int].on_stack || low(vs2, w) <= enc(vs2, graph[w]@[k] as int)) by {
        let x = graph[w]@[k] as int;
        assert(vs2[x].encountered_at == vs[x].encountered_at && vs2[x].on_stack == vs[x].on_stack);
        if w == i && k == c {
            assert(x == j);
        } else {
            assert(k < done[w]);
        }
    }
    assert forall|v: int| 0 <= v < n && (#[trigger] vs2[v]).on_stack implies stack.len() > 0 && low(vs2, v) <= enc(
        vs2,
        v,
    ) && low(vs2, v) >= enc(vs2, stack[0] as int) by {
        assert(vs2[stack[0] as int].encountered_at == vs[stack[0] as int].encountered_at);
        if v == i && vs[j].on_stack {
            assert(low(vs, j) >= enc(vs, stack[0] as int));
        }
    }
    assert forall|w: int, f: int|
        #![trigger active[w], frames2[f]]
        0 <= w < n && vs2[w].on_stack && !active[w] && 0 <= f < frames2.len() && enc(vs2, frames2[f].0 as int) < enc(
            vs2,
            w,
        ) && (f + 1 == frames2.len() || enc(vs2, w) < enc(vs2, frames2[f + 1].0 as int)) implies low(
        vs2,
        frames2[f].0 as int,
    ) <= low(vs2, w) by {
        assert(w != i);
        assert(frames2[f].0 == frames[f].0);
        if f + 1 < frames2.len() {
            assert(frames2[f + 1].0 == frames[f + 1].0);
        }
        assert(vs2[frames[f].0 as int].encountered_at == vs[frames[f].0 as int].encountered_at);
        assert(vs2[w] == vs[w]);
        assert(active[w] && frames[f] == frames[f] ==> true);
        if f + 1 < frames.len() {
            assert(vs2[frames[f + 1].0 as int].encountered_at == vs[frames[f + 1].0 as int].encountered_at);
        }
    }
    assert(frames2.len() > 0 ==> stack.len() > 0 && stack[0] == start && frames2[0].0 == start);
}

/// The low links after the top frame `i` finishes: its parent's (if any)
/// drops to `i`'s.
spec fn finished_lows(vs: Seq<TarjanVertex>, frames: Seq<(usize, usize)>) -> Seq<TarjanVertex> {
    let i = frames.last().0 as int;
    let rest = frames.drop_last();
    if rest.len() > 0 {
        vs.update(rest.last().0 as int, lowered(vs[rest.last().0 as int], vs[i].low_link))
    } else {
        vs
    }
}

/// Finishing the top frame keeps the search's invariant (but for an empty
/// stack when no frame is left); when the finished vertex is the root of
/// its component, every vertex above it on the stack is finished and has
/// a low link no smaller than the root's visit order.
proof fn lemma_finish(
    graph: Seq<Vec<usize>>,
    vs: Seq<TarjanVertex>,
    order: Seq<usize>,
    sccs: Seq<Vec<usize>>,
    stack: Seq<usize>,
    frames: Seq<(usize, usize)>,
    done: Seq<int>,
    active: Seq<bool>,
    start: int,
)
    requires
        dfs_ok(graph, vs, order, sccs, stack, frames, done, active, start),
        frames.len() > 0,
        frames.last().1 == graph[frames.last().0 as int]@.len(),
    ensures
        ({
            let i = frames.last().0 as int;
            let vs2 = finished_lows(vs, frames);
            let frames2 = frames.drop_last();
            let active2 = active.update(i, false);
            &&& dfs_core(graph, vs2, order, sccs, stack, frames2, done, active2, start)
            &&& 0 <= i < graph.len()
            &&& vs2[i] == vs[i]
            &&& vs2[i].on_stack
            &&& low(vs2, i) != enc(vs2, i) ==> frames2.len() > 0
            &&& frames2.len() == 0 ==> i == start && stack.len() > 0 && stack[0] == i
            &&& forall|f: int| 0 <= f < frames2.len() ==> enc(vs2, (#[trigger] frames2[f]).0 as int) < enc(vs2, i)
            &&& low(vs2, i) == enc(vs2, i) ==> forall|w: int|
                0 <= w < graph.len() && (#[trigger] vs2[w]).on_stack && enc(vs2, w) >= enc(vs2, i) ==> done[w]
                    == graph[w]@.len() && low(vs2, w) >= enc(vs2, i)
        }),
{
    let n = graph.len() as int;
    let top = frames.len() - 1;
    let i = frames.last().0 as int;
    let vs2 = finished_lows(vs, frames);
    let frames2 = frames.drop_last();
    let active2 = active.update(i, false);
    let has_parent = frames2.len() > 0;
    let p = if has_parent {
        frames2.last().0 as int
    } else {
        -1
    };
    assert(frames[top].0 == i);
    assert(0 <= i < n);
    assert forall|f: int| 0 <= f < frames2.len() implies (#[trigger] frames2[f]) == frames[f] && enc(
        vs,
        frames[f].0 as int,
    ) < enc(vs, i) && frames[f].0 != i by {}
    if has_parent {
        assert(p != i);
        assert(0 <= p < n);
    }
    assert forall|v: int| 0 <= v < n && v != p implies #[trigger] vs2[v] == vs[v] by {}
    assert forall|v: int| 0 <= v < n implies (#[trigger] vs2[v]).encountered_at == vs[v].encountered_at && vs2[v].scc
        == vs[v].scc && vs2[v].on_stack == vs[v].on_stack && low(vs2, v) <= low(vs, v) by {}
    assert(vs2[i] == vs[i]);
    assert forall|v: int| 0 <= v < n && seen(vs, v) implies ((#[trigger] vs2[v]).on_stack <==> vs2[v].scc == usize::MAX) by {
        assert(vs[v].on_stack <==> vs[v].scc == usize::MAX);
    }
    assert forall|v: int| 0 <= v < n && !seen(vs, v) implies (#[trigger] vs2[v]).on_stack == vs[v].on_stack && vs2[v].scc
        == vs[v].scc by {}
    lemma_order_ok_kept(n, vs, vs2, order);
    assert(sccs_ok(n, vs2, sccs)) by {
        assert forall|s: int, k: int| 0 <= s < sccs.len() && 0 <= k < sccs[s]@.len() implies (#[trigger] sccs[s]@[k])
            < n && vs2[sccs[s]@[k] as int].scc == s && seen(vs2, sccs[s]@[k] as int) && !vs2[sccs[s]@[k] as int].on_stack by {
            assert(vs2[sccs[s]@[k] as int].encountered_at == vs[sccs[s]@[k] as int].encountered_at);
        }
        assert forall|s: int, x: int, y: int| 0 <= s < sccs.len() && 0 <= x < y < sccs[s]@.len() implies enc(
            vs2,
            #[trigger] sccs[s]@[x] as int,
        ) < enc(vs2, #[trigger] sccs[s]@[y] as int) by {
            assert(vs2[sccs[s]@[x] as int].encountered_at == vs[sccs[s]@[x] as int].encountered_at);
            assert(vs2[sccs[s]@[y] as int].encountered_at == vs[sccs[s]@[y] as int].encountered_at);
        }
        assert forall|s: int| 0 <= s < sccs.len() implies low(vs2, (#[trigger] sccs[s])@[0] as int) == enc(
            vs2,
            sccs[s]@[0] as int,
        ) by {
            assert(!vs[sccs[s]@[0] as int].on_stack);
            assert(vs2[sccs[s]@[0] as int] == vs[sccs[s]@[0] as int]);
        }
        assert forall|v: int| 0 <= v < n && seen(vs2, v) && !vs2[v].on_stack implies vs2[v].scc < sccs.len()
            && exists|k: int| 0 <= k < sccs[vs2[v].scc as int]@.len() && #[trigger] sccs[vs2[v].scc as int]@[k] == v by {
            assert(vs2[v] == vs[v]);
            assert(seen(vs, v) && !vs[v].on_stack);
        }
    }
    assert(topo_ok(graph, vs2, sccs.len() as int)) by {
        assert forall|w: int, k: int|
            0 <= w < n && 0 <= k < graph[w]@.len() && vs2[w].scc < sccs.len() implies vs2[graph[w]@[k] as int].scc
            < sccs.len() && vs2[#[trigger] graph[w]@[k] as int].scc <= vs2[w].scc by {
            assert(vs2[w].scc == vs[w].scc);
            assert(vs2[graph[w]@[k] as int].scc == vs[graph[w]@[k] as int].scc);
        }
    }
    assert forall|x: int| 0 <= x < stack.len() implies (#[trigger] stack[x]) < n && seen(vs2, stack[x] as int)
        && vs2[stack[x] as int].on_stack by {
        assert(vs2[stack[x] as int].encountered_at == vs[stack[x] as int].encountered_at);
    }
    assert forall|x: int, y: int| 0 <= x < y < stack.len() implies enc(vs2, #[trigger] stack[x] as int) < enc(
        vs2,
        #[trigger] stack[y] as int,
    ) by {
        assert(vs2[stack[x] as int].encountered_at == vs[stack[x] as int].encountered_at);
        assert(vs2[stack[y] as int].encountered_at == vs[stack[y] as int].encountered_at);
    }
    assert forall|v: int| 0 <= v < n && vs2[v].on_stack implies exists|x: int|
        0 <= x < stack.len() && #[trigger] stack[x] == v by {
        assert(vs[v].on_stack);
    }
    assert forall|f: int| 0 <= f < frames2.len() implies (#[trigger] frames2[f]).0 < n && vs2[frames2[f].0 as int].on_stack
        && active2[frames2[f].0 as int] && frames2[f].1 == done[frames2[f].0 as int] by {
        assert(frames2[f] == frames[f]);
        assert(vs2[frames[f].0 as int].on_stack == vs[frames[f].0 as int].on_stack);
    }
    assert forall|f: int, g: int| 0 <= f < g < frames2.len() implies enc(vs2, (#[trigger] frames2[f]).0 as int) < enc(
        vs2,
        (#[trigger] frames2[g]).0 as int,
    ) by {
        assert(frames2[f] == frames[f]);
        assert(frames2[g] == frames[g]);
        assert(vs2[frames[f].0 as int].encountered_at == vs[frames[f].0 as int].encountered_at);
        assert(vs2[frames[g].0 as int].encountered_at == vs[frames[g].0 as int].encountered_at);
    }
    assert forall|v: int| 0 <= v < n && active2[v] implies exists|f: int|
        0 <= f < frames2.len() && (#[trigger] frames2[f]).0 == v by {
        let f = choose|f: int| 0 <= f < frames.len() && (#[trigger] frames[f]).0 == v;
        assert(f != top);
        assert(frames2[f] == frames[f]);
    }
    assert forall|v: int| 0 <= v < n && seen(vs2, v) && !active2[v] implies done[v] == graph[v]@.len() by {
        assert(vs2[v].encountered_at == vs[v].encountered_at);
        if v == i {
            assert(frames[top].1 == done[i]);
        }
    }
    assert forall|v: int| 0 <= v < n && !seen(vs2, v) implies done[v] == 0 && !active2[v] by {
        assert(vs2[v].encountered_at == vs[v].encountered_at);
    }
    assert forall|w: int, k: int| 0 <= w < n && 0 <= k < done[w] implies seen(vs2, #[trigger] graph[w]@[k] as int)
        && (!vs2[graph[w]@[k] as int].on_stack || low(vs2, w) <= enc(vs2, graph[w]@[k] as int)) by {
        let x = graph[w]@[k] as int;
        assert(vs2[x].encountered_at == vs[x].encountered_at && vs2[x].on_stack == vs[x].on_stack);
    }
    assert forall|v: int| 0 <= v < n && (#[trigger] vs2[v]).on_stack implies stack.len() > 0 && low(vs2, v) <= enc(
        vs2,
        v,
    ) && low(vs2, v) >= enc(vs2, stack[0] as int) by {
        assert(vs2[stack[0] as int].encountered_at == vs[stack[0] as int].encountered_at);
        assert(vs[i].on_stack);
        if v == p {
            assert(low(vs, i) >= enc(vs, stack[0] as int));
            assert(low(vs, p) >= enc(vs, stack[0] as int));
        }
    }
    assert forall|w: int, f: int|
        #![trigger active2[w], frames2[f]]
        0 <= w < n && vs2[w].on_stack && !active2[w] && 0 <= f < frames2.len() && enc(vs2, frames2[f].0 as int) < enc(
            vs2,
            w,
        ) && (f + 1 == frames2.len() || enc(vs2, w) < enc(vs2, frames2[f + 1].0 as int)) implies low(
        vs2,
        frames2[f].0 as int,
    ) <= low(vs2, w) by {
        assert(frames2[f] == frames[f]);
        assert(vs2[frames[f].0 as int].encountered_at == vs[frames[f].0 as int].encountered_at);
        assert(vs2[w].encountered_at == vs[w].encountered_at);
        if w == i {
            if f + 1 < frames2.len() {
                assert(frames2[f + 1] == frames[f + 1]);
                assert(vs2[frames[f + 1].0 as int].encountered_at == vs[frames[f + 1].0 as int].encountered_at);
                assert(enc(vs, frames[f + 1].0 as int) < enc(vs, i));
            }
            assert(frames2[f].0 == p);
        } else {
            assert(active2[w] == active[w]);
            assert(w != p) by {
                if w == p {
                    assert(active[p]);
                }
            }
            assert(vs2[w] == vs[w]);
            if f + 1 < frames2.len() {
                assert(frames2[f + 1] == frames[f + 1]);
                assert(vs2[frames[f + 1].0 as int].encountered_at == vs[frames[f + 1].0 as int].encountered_at);
                assert(frames[f].0 != p);
                assert(low(vs, frames[f].0 as int) <= low(vs, w));
            } else {
                assert(frames2[f].0 == p);
                if enc(vs, w) < enc(vs, i) {
                    assert(frames[f + 1].0 == i);
                    assert(low(vs, p) <= low(vs, w));
                } else {
                    assert(enc(vs, w) != enc(vs, i)) by {
                        assert(order[enc(vs, w)] == w);
                        assert(order[enc(vs, i)] == i);
                    }
                    assert(frames[top].0 == i);
                    assert(low(vs, i) <= low(vs, w));
                }
            }
        }
    }
    if low(vs2, i) == enc(vs2, i) {
        assert forall|w: int|
            0 <= w < n && (#[trigger] vs2[w]).on_stack && enc(vs2, w) >= enc(vs2, i) implies done[w] == graph[w]@.len()
                && low(vs2, w) >= enc(vs2, i) by {
            assert(vs2[w].encountered_at == vs[w].encountered_at);
            if w == i {
                assert(frames[top].1 == done[i]);
            } else {
                assert(enc(vs, w) != enc(vs, i)) by {
                    assert(order[enc(vs, w)] == w);
                    assert(order[enc(vs, i)] == i);
                }
                assert(!active[w]) by {
                    if active[w] {
                        let f = choose|f: int| 0 <= f < frames.len() && (#[trigger] frames[f]).0 == w;
                        assert(f != top);
                        assert(enc(vs, frames[f].0 as int) < enc(vs, frames[top].0 as int));
                    }
                }
                assert(w != p) by {
                    if w == p {
                        assert(active[p]);
                    }
                }
                assert(vs2[w] == vs[w]);
                assert(frames[top].0 == i);
                assert(low(vs, i) <= low(vs, w));
            }
        }
    }
    if !has_parent {
        assert(frames[0].0 == start);
        assert(low(vs, i) >= enc(vs, stack[0] as int));
        assert(stack[0] as int == i) by {
            assert(order[enc(vs, i)] == i);
            assert(order[enc(vs, stack[0] as int)] == stack[0] as int);
        }
    }
}

/// Popping the finished root `i`'s component restores the search's
/// invariant.
proof fn lemma_after_pop(
    graph: Seq<Vec<usize>>,
    vs2: Seq<TarjanVertex>,
    vs3: Seq<TarjanVertex>,
    order: Seq<usize>,
    sccs: Seq<Vec<usize>>,
    sccs3: Seq<Vec<usize>>,
    stack: Seq<usize>,
    stack3: Seq<usize>,
    frames2: Seq<(usize, usize)>,
    done: Seq<int>,
    active2: Seq<bool>,
    start: int,
    i: int,
)
    requires
        dfs_core(graph, vs2, order, sccs, stack, frames2, done, active2, start),
        0 <= i < graph.len(),
        vs2[i].on_stack,
        forall|f: int| 0 <= f < frames2.len() ==> enc(vs2, (#[trigger] frames2[f]).0 as int) < enc(vs2, i),
        frames2.len() == 0 ==> i == start && stack.len() > 0 && stack[0] == i,
        order_ok(graph.len() as int, vs3, order),
        sccs_ok(graph.len() as int, vs3, sccs3),
        topo_ok(graph, vs3, sccs3.len() as int),
        sccs3.len() + stack3.len() <= order.len(),
        forall|v: int| 0 <= v < graph.len() ==> #[trigger] vs3[v].scc == usize::MAX || vs3[v].scc < sccs3.len(),
        exists|pr: int| 0 <= pr < stack.len() && stack[pr] == i && stack3 == stack.subrange(0, pr),
        forall|v: int|
            0 <= v < graph.len() ==> (#[trigger] vs3[v]).encountered_at == vs2[v].encountered_at && vs3[v].low_link
                == vs2[v].low_link,
        forall|v: int|
            0 <= v < graph.len() ==> (#[trigger] vs3[v]).on_stack == (vs2[v].on_stack && enc(vs2, v) < enc(vs2, i)),
    ensures
        dfs_ok(graph, vs3, order, sccs3, stack3, frames2, done, active2, start),
{
    let n = graph.len() as int;
    let pr = choose|pr: int| 0 <= pr < stack.len() && stack[pr] == i && stack3 == stack.subrange(0, pr);
    assert forall|v: int| 0 <= v < n implies enc(vs3, v) == enc(vs2, v) && low(vs3, v) == low(vs2, v) && seen(vs3, v)
        == seen(vs2, v) && (#[trigger] vs3[v]).on_stack == (vs2[v].on_stack && enc(vs2, v) < enc(vs2, i)) by {
        assert(vs3[v].encountered_at == vs2[v].encountered_at);
    }
    assert forall|x: int| 0 <= x < stack3.len() implies (#[trigger] stack3[x]) < n && seen(vs3, stack3[x] as int)
        && vs3[stack3[x] as int].on_stack by {
        assert(stack3[x] == stack[x]);
        assert(enc(vs2, stack[x] as int) < enc(vs2, stack[pr] as int));
        assert(vs3[stack[x] as int].on_stack == (vs2[stack[x] as int].on_stack && enc(vs2, stack[x] as int) < enc(vs2, i)));
    }
    assert forall|x: int, y: int| 0 <= x < y < stack3.len() implies enc(vs3, #[trigger] stack3[x] as int) < enc(
        vs3,
        #[trigger] stack3[y] as int,
    ) by {
        assert(stack3[x] == stack[x]);
        assert(stack3[y] == stack[y]);
        assert(enc(vs3, stack[x] as int) == enc(vs2, stack[x] as int));
        assert(enc(vs3, stack[y] as int) == enc(vs2, stack[y] as int));
    }
    assert forall|v: int| 0 <= v < n && vs3[v].on_stack implies exists|x: int|
        0 <= x < stack3.len() && #[trigger] stack3[x] == v by {
        assert(vs2[v].on_stack && enc(vs2, v) < enc(vs2, i));
        let x = choose|x: int| 0 <= x < stack.len() && #[trigger] stack[x] == v;
        if x >= pr {
            if x > pr {
                assert(enc(vs2, stack[pr] as int) < enc(vs2, stack[x] as int));
            }
        }
        assert(stack3[x] == v);
    }
    assert forall|f: int| 0 <= f < frames2.len() implies (#[trigger] frames2[f]).0 < n && vs3[frames2[f].0 as int].on_stack
        && active2[frames2[f].0 as int] && frames2[f].1 == done[frames2[f].0 as int] by {
        assert(vs3[frames2[f].0 as int].on_stack == (vs2[frames2[f].0 as int].on_stack && enc(vs2, frames2[f].0 as int)
            < enc(vs2, i)));
    }
    assert forall|f: int, g: int| 0 <= f < g < frames2.len() implies enc(vs3, (#[trigger] frames2[f]).0 as int) < enc(
        vs3,
        (#[trigger] frames2[g]).0 as int,
    ) by {
        assert(enc(vs3, frames2[f].0 as int) == enc(vs2, frames2[f].0 as int));
        assert(enc(vs3, frames2[g].0 as int) == enc(vs2, frames2[g].0 as int));
    }
    assert forall|v: int| 0 <= v < n && seen(vs3, v) && !active2[v] implies done[v] == graph[v]@.len() by {
        assert(seen(vs3, v) == seen(vs2, v));
    }
    assert forall|v: int| 0 <= v < n && !seen(vs3, v) implies done[v] == 0 && !active2[v] by {
        assert(seen(vs3, v) == seen(vs2, v));
    }
    assert forall|w: int, k: int| 0 <= w < n && 0 <= k < done[w] implies seen(vs3, #[trigger] graph[w]@[k] as int)
        && (!vs3[graph[w]@[k] as int].on_stack || low(vs3, w) <= enc(vs3, graph[w]@[k] as int)) by {
        let x = graph[w]@[k] as int;
        assert(seen(vs3, x) == seen(vs2, x));
        assert(enc(vs3, x) == enc(vs2, x) && low(vs3, w) == low(vs2, w));
        assert(vs3[x].on_stack == (vs2[x].on_stack && enc(vs2, x) < enc(vs2, i)));
    }
    assert forall|v: int| 0 <= v < n && (#[trigger] vs3[v]).on_stack implies stack3.len() > 0 && low(vs3, v) <= enc(
        vs3,
        v,
    ) && low(vs3, v) >= enc(vs3, stack3[0] as int) by {
        assert(vs2[v].on_stack && enc(vs2, v) < enc(vs2, i));
        let x = choose|x: int| 0 <= x < stack.len() && #[trigger] stack[x] == v;
        if x >= pr {
            if x > pr {
                assert(enc(vs2, stack[pr] as int) < enc(vs2, stack[x] as int));
            }
        }
        assert(pr > 0);
        assert(stack3[0] == stack[0]);
        assert(enc(vs3, stack[0] as int) == enc(vs2, stack[0] as int));
        assert(enc(vs3, v) == enc(vs2, v) && low(vs3, v) == low(vs2, v));
    }
    assert forall|w: int, f: int|
        #![trigger active2[w], frames2[f]]
        0 <= w < n && vs3[w].on_stack && !active2[w] && 0 <= f < frames2.len() && enc(vs3, frames2[f].0 as int) < enc(
            vs3,
            w,
        ) && (f + 1 == frames2.len() || enc(vs3, w) < enc(vs3, frames2[f + 1].0 as int)) implies low(
        vs3,
        frames2[f].0 as int,
    ) <= low(vs3, w) by {
        assert(vs3[w].on_stack == (vs2[w].on_stack && enc(vs2, w) < enc(vs2, i)));
        assert(enc(vs3, frames2[f].0 as int) == enc(vs2, frames2[f].0 as int));
        assert(low(vs3, frames2[f].0 as int) == low(vs2, frames2[f].0 as int));
        assert(enc(vs3, w) == enc(vs2, w) && low(vs3, w) == low(vs2, w));
        if f + 1 < frames2.len() {
            assert(enc(vs3, frames2[f + 1].0 as int) == enc(vs2, frames2[f + 1].0 as int));
        }
    }
    if frames2.len() > 0 {
        assert(frames2[0].0 == start);
        assert(stack[0] == start);
        assert(enc(vs2, start) < enc(vs2, i));
        assert(pr > 0) by {
            if pr == 0 {
                assert(stack[0] == i);
            }
        }
        assert(stack3[0] == start);
    } else {
        assert(pr == 0) by {
            if pr > 0 {
                assert(enc(vs2, stack[0] as int) < enc(vs2, stack[pr] as int));
            }
        }
        assert(stack3.len() == 0);
    }
}

/// Searches from `start` (unless already visited), finding the components
/// of every vertex it reaches.
#[verifier::rlimit(80)]
fn strong_connect(
    vertices: &mut Vec<TarjanVertex>,
    order: &mut Vec<usize>,
    sccs: &mut Vec<Vec<usize>>,
    graph: &Vec<Vec<usize>>,
    start: usize,
)
    requires
        rest_ok(graph@, old(vertices)@, old(order)@, old(sccs)@),
        sccs_reach(graph@, old(sccs)@),
        start < graph@.len(),
        graph@.len() < usize::MAX,
    ensures
        rest_ok(graph@, final(vertices)@, final(order)@, final(sccs)@),
        sccs_reach(graph@, final(sccs)@),
        seen(final(vertices)@, start as int),
        forall|v: int| 0 <= v < graph@.len() && seen(old(vertices)@, v) ==> seen(#[trigger] final(vertices)@, v),
{
    let ghost n = graph@.len() as int;
    let ghost vs0 = vertices@;
    if vertices[start].encountered_at.0 != usize::MAX {
        return;
    }
    let ghost g = graph@;
    let d: usize = order.len();
    proof {
        assert(d < n) by {
            if d >= n {
                lemma_injective_covers(n, vs0, order@, start as int);
            }
        }
    }
    vertices.set(start, TarjanVertex {
        encountered_at: DfsIndex(d),
        low_link: DfsIndex(d),
        scc: usize::MAX,
        on_stack: true,
    });
    order.push(start);
    let mut stack: Vec<usize> = Vec::new();
    stack.push(start);
    let mut frames: Vec<(usize, usize)> = Vec::new();
    frames.push((start, 0));
    let ghost mut done: Seq<int> = Seq::new(n as nat, |v: int| if seen(vs0, v) { g[v]@.len() as int } else { 0 });
    let ghost mut active: Seq<bool> = Seq::new(n as nat, |v: int| v == start as int);
    proof {
        lemma_start(g, vs0, old(order)@, sccs@, start as int);
        assert(vertices@ == vs0.update(start as int, fresh(d as int)));
        assert(stack@ =~= seq![start]);
        assert(frames@ =~= seq![(start, 0usize)]);
        lemma_reach_start(g, vertices@, stack@, frames@, active, start as int);
    }
    while frames.len() > 0
        invariant
            g == graph@,
            n == g.len(),
            n < usize::MAX,
            dfs_ok(g, vertices@, order@, sccs@, stack@, frames@, done, active, start as int),
            seen(vertices@, start as int),
            forall|v: int| 0 <= v < n && seen(vs0, v) ==> seen(#[trigger] vertices@, v),
            stack_reach(g, vertices@, stack@, frames@, active, -1),
            sccs_reach(g, sccs@),
        decreases n - order@.len(), work(g, frames@),
    {
        let top: usize = frames.len() - 1;
        let (i, c) = frames[top];
        proof {
            assert(frames@.last() == (i, c));
        }
        if c < graph[i].len() {
            let j: usize = graph[i][c];
            proof {
                assert(g[i as int]@[c as int] == j);
            }
            if vertices[j].encountered_at.0 == usize::MAX {
                proof {
                    lemma_visit(g, vertices@, order@, sccs@, stack@, frames@, done, active, start as int, j as int);
                    lemma_reach_visit(g, vertices@, order@, sccs@, stack@, frames@, done, active, start as int, j as int);
                    lemma_work_step(g, frames@);
                }
                let ghost before = vertices@;
                let ghost stack_before = stack@;
                let ghost frames_before = frames@;
                let d: usize = order.len();
                frames.set(top, (i, c + 1));
                vertices.set(j, TarjanVertex {
                    encountered_at: DfsIndex(d),
                    low_link: DfsIndex(d),
                    scc: usize::MAX,
                    on_stack: true,
                });
                order.push(j);
                stack.push(j);
                frames.push((j, 0));
                proof {
                    done = done.update(i as int, c + 1);
                    active = active.update(j as int, true);
                    assert(vertices@ == before.update(j as int, fresh(d as int)));
                    assert(stack@ == stack_before.push(j));
                    assert(frames@ == frames_before.update(frames_before.len() - 1, (frames_before.last().0, (frames_before.last().1 + 1) as usize)).push((j, 0usize)));
                    assert forall|v: int| 0 <= v < n && seen(vs0, v) implies seen(#[trigger] vertices@, v) by {
                        assert(seen(before, v));
                        assert(v != j);
                    }
                }
            } else {
                proof {
                    lemma_follow(g, vertices@, order@, sccs@, stack@, frames@, done, active, start as int, j as int);
                    lemma_reach_follow(g, vertices@, order@, sccs@, stack@, frames@, done, active, start as int, j as int);
                    lemma_work_step(g, frames@);
                }
                let ghost before = vertices@;
                let ghost frames_before = frames@;
                frames.set(top, (i, c + 1));
                proof {
                    assert(frames@ == frames_before.update(frames_before.len() - 1, (frames_before.last().0, (frames_before.last().1 + 1) as usize)));
                }
                if vertices[j].on_stack {
                    let mut t: TarjanVertex = vertices[i];
                    if vertices[j].low_link.0 < t.low_link.0 {
                        t.low_link = vertices[j].low_link;
                    }
                    vertices.set(i, t);
                    proof {
                        assert(vertices@ == before.update(i as int, lowered(before[i as int], before[j as int].low_link)));
                    }
                }
                proof {
                    done = done.update(i as int, c + 1);
                    assert forall|v: int| 0 <= v < n && seen(vs0, v) implies seen(#[trigger] vertices@, v) by {
                        assert(seen(before, v));
                    }
                }
            }
        } else {
            proof {
                lemma_finish(g, vertices@, order@, sccs@, stack@, frames@, done, active, start as int);
                lemma_reach_finish(g, vertices@, order@, sccs@, stack@, frames@, done, active, start as int);
                lemma_work_pop(g, frames@);
            }
            let ghost before = vertices@;
            let ghost frames_before = frames@;
            frames.pop();
            proof {
                active = active.update(i as int, false);
                assert(frames@ == frames_before.drop_last());
            }
            if frames.len() > 0 {
                let p: usize = frames[frames.len() - 1].0;
                let mut t: TarjanVertex = vertices[p];
                if vertices[i].low_link.0 < t.low_link.0 {
                    t.low_link = vertices[i].low_link;
                }
                vertices.set(p, t);
            }
            proof {
                assert(vertices@ == finished_lows(before, frames_before));
            }
            let ghost vs2 = vertices@;
            let ghost active2 = active;
            if vertices[i].low_link.0 == vertices[i].encountered_at.0 {
                let ghost sccs_before = sccs@;
                let ghost stack_before = stack@;
                pop_component(vertices, sccs, &mut stack, i, Ghost(g), Ghost(order@), Ghost(done));
                proof {
                    lemma_after_pop(
                        g,
                        vs2,
                        vertices@,
                        order@,
                        sccs_before,
                        sccs@,
                        stack_before,
                        stack@,
                        frames@,
                        done,
                        active,
                        start as int,
                        i as int,
                    );
                    lemma_reach_pop(
                        g,
                        vs2,
                        vertices@,
                        order@,
                        sccs_before,
                        sccs@,
                        stack_before,
                        stack@,
                        frames@,
                        done,
                        active,
                        start as int,
                        i as int,
                    );
                }
            } else {
                proof {
                    assert(low(vs2, i as int) <= enc(vs2, i as int));
                    assert forall|x: int|
                        0 <= x < stack@.len() && !active[stack@[x] as int] && stack@[x] as int != -1 implies low(
                        vertices@,
                        #[trigger] stack@[x] as int,
                    ) < enc(vertices@, stack@[x] as int) by {
                        if stack@[x] as int != i as int {
                            assert(low(vertices@, stack@[x] as int) < enc(vertices@, stack@[x] as int));
                        }
                    }
                }
            }
            proof {
                assert forall|v: int| 0 <= v < n && seen(vs0, v) implies seen(#[trigger] vertices@, v) by {
                    assert(seen(before, v));
                    assert(vertices@[v].encountered_at == before[v].encountered_at);
                }
            }
        }
        proof {
            assert forall|f: int| 0 <= f < frames@.len() implies (#[trigger] frames@[f]).1 <= g[frames@[f].0 as int]@.len() by {
                assert(frames@[f].1 == done[frames@[f].0 as int]);
            }
            lemma_work_nonneg(g, frames@);
        }
    }
    proof {
        assert forall|v: int| 0 <= v < n implies !(#[trigger] vertices@[v]).on_stack by {
            if vertices@[v].on_stack {
                let x = choose|x: int| 0 <= x < stack@.len() && #[trigger] stack@[x] == v;
            }
        }
    }
}

/// The search's invariant holds once `start` is pushed.
proof fn lemma_start(
    graph: Seq<Vec<usize>>,
    vs: Seq<TarjanVertex>,
    order: Seq<usize>,
    sccs: Seq<Vec<usize>>,
    start: int,
)
    requires
        rest_ok(graph, vs, order, sccs),
        graph.len() < usize::MAX,
        0 <= start < graph.len(),
        !seen(vs, start),
        order.len() < graph.len(),
    ensures
        dfs_ok(
            graph,
            vs.update(start, fresh(order.len() as int)),
            order.push(start as usize),
            sccs,
            seq![start as usize],
            seq![(start as usize, 0usize)],
            Seq::new(graph.len() as nat, |v: int| if seen(vs, v) { graph[v]@.len() as int } else { 0 }),
            Seq::new(graph.len() as nat, |v: int| v == start),
            start,
        ),
{
    let n = graph.len() as int;
    let d = order.len() as int;
    let vs2 = vs.update(start, fresh(d));
    let order2 = order.push(start as usize);
    let stack2 = seq![start as usize];
    let frames2 = seq![(start as usize, 0usize)];
    let done = Seq::new(graph.len() as nat, |v: int| if seen(vs, v) { graph[v]@.len() as int } else { 0 });
    let active = Seq::new(graph.len() as nat, |v: int| v == start);
    assert forall|v: int| 0 <= v < n && v != start implies #[trigger] vs2[v] == vs[v] by {}
    assert forall|v: int| 0 <= v < n && seen(vs, v) implies ((#[trigger] vs2[v]).on_stack <==> vs2[v].scc == usize::MAX) by {
        assert(v != start);
        assert(vs[v].on_stack <==> vs[v].scc == usize::MAX);
    }
    assert(order_ok(n, vs2, order2)) by {
        assert forall|x: int| 0 <= x < order2.len() implies (#[trigger] order2[x]) < n && seen(vs2, order2[x] as int)
            && enc(vs2, order2[x] as int) == x by {
            if x < d {
                assert(order2[x] == order[x]);
                assert(order[x] != start);
            }
        }
        assert forall|v: int| #![trigger enc(vs2, v)] 0 <= v < n && seen(vs2, v) implies enc(vs2, v) < order2.len()
            && order2[enc(vs2, v)] == v by {
            if v != start {
                assert(vs2[v] == vs[v]);
                assert(order[enc(vs, v)] == v);
                assert(order2[enc(vs, v)] == v);
            } else {
                assert(order2[d] == start);
            }
        }
        assert forall|v: int| 0 <= v < n && !seen(vs2, v) implies !vs2[v].on_stack && vs2[v].scc == usize::MAX by {
            assert(v != start);
            assert(vs2[v] == vs[v]);
            assert(!seen(vs, v));
            assert(!vs[v].on_stack && vs[v].scc == usize::MAX);
        }
        assert forall|v: int| 0 <= v < n && seen(vs2, v) implies (vs2[v].on_stack <==> vs2[v].scc == usize::MAX) by {
            if v != start {
                assert(vs2[v] == vs[v]);
                assert(seen(vs, v));
            }
        }
    }
    assert(sccs_ok(n, vs2, sccs)) by {
        assert forall|s: int, k: int| 0 <= s < sccs.len() && 0 <= k < sccs[s]@.len() implies (#[trigger] sccs[s]@[k])
            < n && vs2[sccs[s]@[k] as int].scc == s && seen(vs2, sccs[s]@[k] as int) && !vs2[sccs[s]@[k] as int].on_stack by {
            assert(sccs[s]@[k] != start);
        }
        assert forall|s: int, x: int, y: int| 0 <= s < sccs.len() && 0 <= x < y < sccs[s]@.len() implies enc(
            vs2,
            #[trigger] sccs[s]@[x] as int,
        ) < enc(vs2, #[trigger] sccs[s]@[y] as int) by {
            assert(sccs[s]@[x] != start);
            assert(sccs[s]@[y] != start);
        }
        assert forall|s: int| 0 <= s < sccs.len() implies low(vs2, (#[trigger] sccs[s])@[0] as int) == enc(
            vs2,
            sccs[s]@[0] as int,
        ) by {
            assert(sccs[s]@[0] != start);
        }
        assert forall|v: int| 0 <= v < n && seen(vs2, v) && !vs2[v].on_stack implies vs2[v].scc < sccs.len()
            && exists|k: int| 0 <= k < sccs[vs2[v].scc as int]@.len() && #[trigger] sccs[vs2[v].scc as int]@[k] == v by {
            assert(v != start);
            assert(vs2[v] == vs[v]);
            assert(seen(vs, v) && !vs[v].on_stack);
        }
    }
    assert(topo_ok(graph, vs2, sccs.len() as int)) by {
        assert forall|w: int, k: int|
            0 <= w < n && 0 <= k < graph[w]@.len() && vs2[w].scc < sccs.len() implies vs2[graph[w]@[k] as int].scc
            < sccs.len() && vs2[#[trigger] graph[w]@[k] as int].scc <= vs2[w].scc by {
            assert(w != start);
            if graph[w]@[k] as int == start {
                assert(vs[w].scc < sccs.len());
                assert(vs[start].scc == usize::MAX);
            }
        }
    }
    assert forall|v: int| 0 <= v < n && vs2[v].on_stack implies exists|x: int|
        0 <= x < stack2.len() && #[trigger] stack2[x] == v by {
        if v != start {
            assert(vs2[v] == vs[v]);
        }
        assert(stack2[0] == start);
    }
    assert forall|v: int| 0 <= v < n && active[v] implies exists|f: int|
        0 <= f < frames2.len() && (#[trigger] frames2[f]).0 == v by {
        assert(active[v] == (v == start));
        assert(frames2[0].0 == start);
    }
    assert(sccs.len() + stack2.len() <= order2.len());
    assert forall|w: int, k: int| 0 <= w < n && 0 <= k < done[w] implies seen(vs2, #[trigger] graph[w]@[k] as int)
        && (!vs2[graph[w]@[k] as int].on_stack || low(vs2, w) <= enc(vs2, graph[w]@[k] as int)) by {
        assert(seen(vs, w));
        assert(vs[w].scc < sccs.len());
        let x = graph[w]@[k] as int;
        assert(vs[x].scc < sccs.len());
        assert(x != start);
    }
    assert forall|v: int| 0 <= v < n && (#[trigger] vs2[v]).on_stack implies stack2.len() > 0 && low(vs2, v) <= enc(
        vs2,
        v,
    ) && low(vs2, v) >= enc(vs2, stack2[0] as int) by {
        if v != start {
            assert(vs2[v] == vs[v]);
        }
    }
    assert forall|v: int| 0 <= v < n implies 0 <= #[trigger] done[v] <= graph[v]@.len() by {}
    assert forall|v: int| 0 <= v < n && seen(vs2, v) && !active[v] implies done[v] == graph[v]@.len() by {
        assert(v != start);
    }
}

proof fn lemma_work_step(graph: Seq<Vec<usize>>, frames: Seq<(usize, usize)>)
    requires
        frames.len() > 0,
        frames.last().1 < graph[frames.last().0 as int]@.len(),
    ensures
        work(graph, frames.update(frames.len() - 1, (frames.last().0, (frames.last().1 + 1) as usize))) == work(
            graph,
            frames,
        ) - 1,
{
    let i = frames.last().0 as int;
    assert(graph[i].len() == graph[i]@.len());
    let f2 = frames.update(frames.len() - 1, (frames.last().0, (frames.last().1 + 1) as usize));
    assert(f2.drop_last() =~= frames.drop_last());
    assert(f2.last() == (frames.last().0, (frames.last().1 + 1) as usize));
    assert(work(graph, f2) == work(graph, f2.drop_last()) + (graph[f2.last().0 as int]@.len() - f2.last().1) + 1);
}

proof fn lemma_work_nonneg(graph: Seq<Vec<usize>>, frames: Seq<(usize, usize)>)
    requires
        forall|f: int| 0 <= f < frames.len() ==> (#[trigger] frames[f]).1 <= graph[frames[f].0 as int]@.len(),
    ensures
        work(graph, frames) >= 0,
    decreases frames.len(),
{
    if frames.len() > 0 {
        assert forall|f: int| 0 <= f < frames.drop_last().len() implies (#[trigger] frames.drop_last()[f]).1
            <= graph[frames.drop_last()[f].0 as int]@.len() by {
            assert(frames.drop_last()[f] == frames[f]);
        }
        lemma_work_nonneg(graph, frames.drop_last());
        assert(frames.last() == frames[frames.len() - 1]);
    }
}

proof fn lemma_work_pop(graph: Seq<Vec<usize>>, frames: Seq<(usize, usize)>)
    requires
        frames.len() > 0,
        frames.last().1 == graph[frames.last().0 as int]@.len(),
    ensures
        work(graph, frames.drop_last()) == work(graph, frames) - 1,
{
}

/// The components partition the vertices: each is nonempty, lists its
/// vertices by visit order starting with its root (whose low link is its
/// own visit order), and each vertex names the component listing it.
pub open spec fn components_ok(n: int, sccs: Seq<Vec<usize>>, vertices: Seq<TarjanVertex>) -> bool {
    &&& vertices.len() == n
    &&& forall|v: int|
        0 <= v < n ==> (#[trigger] vertices[v]).scc < sccs.len() && exists|k: int|
            0 <= k < sccs[vertices[v].scc as int]@.len() && #[trigger] sccs[vertices[v].scc as int]@[k] == v
    &&& forall|s: int, k: int|
        0 <= s < sccs.len() && 0 <= k < sccs[s]@.len() ==> (#[trigger] sccs[s]@[k]) < n && vertices[sccs[s]@[k] as int].scc
            == s
    &&& forall|s: int| 0 <= s < sccs.len() ==> (#[trigger] sccs[s])@.len() > 0
    &&& forall|s: int, i: int, j: int|
        0 <= s < sccs.len() && 0 <= i < j < sccs[s]@.len() ==> vertices[(#[trigger] sccs[s]@[i]) as int].encountered_at.0
            < vertices[(#[trigger] sccs[s]@[j]) as int].encountered_at.0
    &&& forall|s: int|
        0 <= s < sccs.len() ==> vertices[(#[trigger] sccs[s])@[0] as int].low_link == vertices[sccs[s]@[0] as int].encountered_at
}

/// No edge leads to an earlier component.
pub open spec fn topologically_ordered(graph: Seq<Vec<usize>>, vertices: Seq<TarjanVertex>) -> bool {
    forall|w: int, k: int|
        0 <= w < graph.len() && 0 <= k < graph[w]@.len() ==> vertices[w].scc <= vertices[(#[trigger] graph[w]@[k]) as int].scc
}

/// An edge leads from `u` to `v`.
pub open spec fn graph_edge(graph: Seq<Vec<usize>>, u: int, v: int) -> bool {
    0 <= u < graph.len() && exists|k: int| 0 <= k < graph[u]@.len() && (#[trigger] graph[u]@[k]) as int == v
}

/// Some walk along edges leads from `u` to `v`.
pub open spec fn graph_reaches(graph: Seq<Vec<usize>>, u: int, v: int) -> bool {
    exists|p: Seq<int>|
        #![trigger p.len(), p[0]]
        p.len() >= 1 && p[0] == u && p[p.len() - 1] == v && forall|i: int|
            0 <= i < p.len() - 1 ==> #[trigger] graph_edge(graph, p[i], p[i + 1])
}

proof fn lemma_walk_ordered(graph: Seq<Vec<usize>>, vertices: Seq<TarjanVertex>, p: Seq<int>, i: int)
    requires
        topologically_ordered(graph, vertices),
        p.len() >= 1,
        forall|j: int| 0 <= j < p.len() - 1 ==> #[trigger] graph_edge(graph, p[j], p[j + 1]),
        0 <= i < p.len(),
    ensures
        vertices[p[0]].scc <= vertices[p[i]].scc,
    decreases i,
{
    if i > 0 {
        lemma_walk_ordered(graph, vertices, p, i - 1);
        let j = i - 1;
        assert(graph_edge(graph, p[j], p[j + 1]));
        assert(j + 1 == i);
        let k = choose|k: int| 0 <= k < graph[p[j]]@.len() && (#[trigger] graph[p[j]]@[k]) as int == p[j + 1];
        assert(vertices[p[j]].scc <= vertices[graph[p[j]]@[k] as int].scc);
    }
}

/// Vertices that reach each other lie in the same component.
pub proof fn lemma_mutually_reachable_same_component(graph: Seq<Vec<usize>>, r: TarjanSccs, u: int, v: int)
    requires
        topologically_ordered(graph, r.vertices@),
        graph_reaches(graph, u, v),
        graph_reaches(graph, v, u),
    ensures
        r.vertices@[u].scc == r.vertices@[v].scc,
{
    let p = choose|p: Seq<int>|
        #![trigger p.len(), p[0]]
        p.len() >= 1 && p[0] == u && p[p.len() - 1] == v && forall|i: int|
            0 <= i < p.len() - 1 ==> #[trigger] graph_edge(graph, p[i], p[i + 1]);
    let q = choose|q: Seq<int>|
        #![trigger q.len(), q[0]]
        q.len() >= 1 && q[0] == v && q[q.len() - 1] == u && forall|i: int|
            0 <= i < q.len() - 1 ==> #[trigger] graph_edge(graph, q[i], q[i + 1]);
    lemma_walk_ordered(graph, r.vertices@, p, p.len() - 1);
    lemma_walk_ordered(graph, r.vertices@, q, q.len() - 1);
}

impl TarjanSccs {
    /// The vertex visited `d`-th.
    pub fn original_index(&self, d: DfsIndex) -> (r: usize)
        requires
            d.0 < self.original_indices@.len(),
        ensures
            r == self.original_indices@[d.0 as int],
    {
        self.original_indices[d.0]
    }

    /// The strongly connected components of the graph whose vertex `v` has
    /// the successors `graph[v]`, searching from each of `entries` in turn.
    ///
    /// Every vertex must be reachable from the entries.
    pub fn tarjan_scc(graph: &Vec<Vec<usize>>, entries: &Vec<usize>) -> (r: TarjanSccs)
        requires
            graph_wf(graph@),
            graph@.len() < usize::MAX,
            forall|e: int| 0 <= e < entries@.len() ==> (#[trigger] entries@[e]) < graph@.len(),
            spans(graph@, entries@),
        ensures
            components_ok(graph@.len() as int, r.sccs@, r.vertices@),
            topologically_ordered(graph@, r.vertices@),
            r.original_indices@.len() == graph@.len(),
            forall|d: int|
                0 <= d < graph@.len() ==> (#[trigger] r.original_indices@[d]) < graph@.len() && r.vertices@[r.original_indices@[d] as int].encountered_at.0
                    == d,
            forall|v: int| 0 <= v < graph@.len() ==> (#[trigger] r.vertices@[v]).encountered_at.0 < graph@.len(),
            forall|u: int, v: int|
                0 <= u < graph@.len() && 0 <= v < graph@.len() && (#[trigger] r.vertices@[u]).scc == (
                #[trigger] r.vertices@[v]).scc ==> graph_reaches(graph@, u, v),
    {
        let n: usize = graph.len();
        let ghost g = graph@;
        let mut vertices: Vec<TarjanVertex> = Vec::new();
        let mut k: usize = 0;
        while k < n
            invariant
                0 <= k <= n,
                n == g.len(),
                vertices@.len() == k,
                forall|v: int|
                    0 <= v < k ==> (#[trigger] vertices@[v]).encountered_at.0 == usize::MAX && !vertices@[v].on_stack
                        && vertices@[v].scc == usize::MAX,
            decreases n - k,
        {
            vertices.push(TarjanVertex {
                encountered_at: DfsIndex(usize::MAX),
                low_link: DfsIndex(usize::MAX),
                scc: usize::MAX,
                on_stack: false,
            });
            k = k + 1;
        }
        let mut order: Vec<usize> = Vec::new();
        let mut sccs: Vec<Vec<usize>> = Vec::new();
        proof {
            assert(rest_ok(g, vertices@, order@, sccs@));
        }
        let mut e: usize = 0;
        while e < entries.len()
            invariant
                0 <= e <= entries@.len(),
                g == graph@,
                n == g.len(),
                n < usize::MAX,
                forall|x: int| 0 <= x < entries@.len() ==> (#[trigger] entries@[x]) < n,
                rest_ok(g, vertices@, order@, sccs@),
                sccs_reach(g, sccs@),
                forall|x: int| 0 <= x < e ==> seen(vertices@, (#[trigger] entries@[x]) as int),
            decreases entries.len() - e,
        {
            let ghost before = vertices@;
            strong_connect(&mut vertices, &mut order, &mut sccs, graph, entries[e]);
            proof {
                assert forall|x: int| 0 <= x < e + 1 implies seen(vertices@, (#[trigger] entries@[x]) as int) by {
                    if x < e {
                        assert(seen(before, entries@[x] as int));
                    }
                }
            }
            e = e + 1;
        }
        proof {
            let reached = Set::new(|v: int| 0 <= v < n && seen(vertices@, v));
            assert(closed_under(g, entries@, reached)) by {
                assert forall|v: int, k: int|
                    0 <= v < g.len() && 0 <= k < g[v]@.len() && reached.contains(v) implies reached.contains(
                    #[trigger] g[v]@[k] as int,
                ) by {
                    assert(!vertices@[v].on_stack);
                    assert(vertices@[v].scc < sccs@.len());
                    assert(vertices@[g[v]@[k] as int].scc < sccs@.len());
                    assert(g[v]@[k] < n);
                }
            }
            assert forall|v: int| 0 <= v < n implies seen(vertices@, v) by {
                assert(reached.contains(v));
            }
        }
        let ghost before_rev = sccs@;
        let ghost vs_before = vertices@;
        let total: usize = sccs.len();
        let mut reversed: Vec<Vec<usize>> = Vec::new();
        while sccs.len() > 0
            invariant
                sccs@.len() + reversed@.len() == total,
                total == before_rev.len(),
                sccs@ == before_rev.subrange(0, sccs@.len() as int),
                forall|x: int| 0 <= x < reversed@.len() ==> #[trigger] reversed@[x] == before_rev[total - 1 - x],
            decreases sccs.len(),
        {
            let ghost len = sccs@.len();
            let last: Vec<usize> = sccs.pop().unwrap();
            proof {
                assert(last == before_rev[len - 1]);
                assert(sccs@ =~= before_rev.subrange(0, len - 1));
            }
            reversed.push(last);
        }
        proof {
            assert forall|x: int| 0 <= x < n implies (#[trigger] vs_before[x]).scc < total by {
                assert(seen(vs_before, x));
                assert(!vs_before[x].on_stack);
                assert(vs_before[x].on_stack <==> vs_before[x].scc == usize::MAX);
            }
        }
        let mut v: usize = 0;
        while v < n
            invariant
                0 <= v <= n,
                n == g.len(),
                vertices@.len() == n,
                total == before_rev.len(),
                forall|x: int| 0 <= x < n ==> (#[trigger] vs_before[x]).scc < total,
                forall|x: int|
                    0 <= x < v ==> (#[trigger] vertices@[x]).scc == total - 1 - vs_before[x].scc
                        && vertices@[x].encountered_at == vs_before[x].encountered_at && vertices@[x].low_link
                        == vs_before[x].low_link,
                forall|x: int| v <= x < n ==> #[trigger] vertices@[x] == vs_before[x],
            decreases n - v,
        {
            let mut t: TarjanVertex = vertices[v];
            t.scc = total - t.scc - 1;
            vertices.set(v, t);
            v = v + 1;
        }
        proof {
            let vs = vertices@;
            let sc = reversed@;
            assert(sccs_reach(g, sc)) by {
                assert forall|s: int, a: int, b: int|
                    0 <= s < sc.len() && 0 <= a < sc[s]@.len() && 0 <= b < sc[s]@.len() implies graph_reaches(
                    g,
                    #[trigger] sc[s]@[a] as int,
                    #[trigger] sc[s]@[b] as int,
                ) by {
                    assert(sc[s] == before_rev[total - 1 - s]);
                    assert(graph_reaches(g, before_rev[total - 1 - s]@[a] as int, before_rev[total - 1 - s]@[b] as int));
                }
            }
            assert forall|x: int| 0 <= x < n implies (#[trigger] vs[x]).scc < sc.len() && exists|k: int|
                0 <= k < sc[vs[x].scc as int]@.len() && #[trigger] sc[vs[x].scc as int]@[k] == x by {
                let s0 = vs_before[x].scc as int;
                assert(sc[total - 1 - s0] == before_rev[s0]);
                assert(seen(vs_before, x) && !vs_before[x].on_stack);
                assert(exists|k: int| 0 <= k < before_rev[s0]@.len() && #[trigger] before_rev[s0]@[k] == x);
                let k = choose|k: int| 0 <= k < before_rev[s0]@.len() && #[trigger] before_rev[s0]@[k] == x;
                assert(sc[vs[x].scc as int]@[k] == x);
            }
            assert forall|s: int, k: int| 0 <= s < sc.len() && 0 <= k < sc[s]@.len() implies (#[trigger] sc[s]@[k]) < n
                && vs[sc[s]@[k] as int].scc == s by {
                assert(sc[s] == before_rev[total - 1 - s]);
                assert(vs_before[before_rev[total - 1 - s]@[k] as int].scc == total - 1 - s);
            }
            assert forall|s: int| 0 <= s < sc.len() implies (#[trigger] sc[s])@.len() > 0 by {
                assert(sc[s] == before_rev[total - 1 - s]);
            }
            assert forall|s: int, i: int, j: int| 0 <= s < sc.len() && 0 <= i < j < sc[s]@.len() implies vs[(
            #[trigger] sc[s]@[i]) as int].encountered_at.0 < vs[(#[trigger] sc[s]@[j]) as int].encountered_at.0 by {
                assert(sc[s] == before_rev[total - 1 - s]);
                assert(enc(vs_before, before_rev[total - 1 - s]@[i] as int) < enc(
                    vs_before,
                    before_rev[total - 1 - s]@[j] as int,
                ));
            }
            assert forall|s: int| 0 <= s < sc.len() implies vs[(#[trigger] sc[s])@[0] as int].low_link
                == vs[sc[s]@[0] as int].encountered_at by {
                assert(sc[s] == before_rev[total - 1 - s]);
                assert(low(vs_before, before_rev[total - 1 - s]@[0] as int) == enc(
                    vs_before,
                    before_rev[total - 1 - s]@[0] as int,
                ));
            }
            assert forall|w: int, k: int| 0 <= w < g.len() && 0 <= k < g[w]@.len() implies vs[w].scc <= vs[(
            #[trigger] g[w]@[k]) as int].scc by {
                assert(vs_before[g[w]@[k] as int].scc <= vs_before[w].scc);
            }
            lemma_order_full(n as int, vs_before, order@);
            assert forall|d: int| 0 <= d < n implies (#[trigger] order@[d]) < n && vs[order@[d] as int].encountered_at.0
                == d by {
            }
            assert forall|x: int| 0 <= x < n implies (#[trigger] vs[x]).encountered_at.0 < n by {
                assert(order@[enc(vs_before, x)] == x);
            }
            assert forall|u: int, v: int|
                0 <= u < n && 0 <= v < n && (#[trigger] vs[u]).scc == (#[trigger] vs[v]).scc implies graph_reaches(
                g,
                u,
                v,
            ) by {
                let s = vs[u].scc as int;
                let ku = choose|k: int| 0 <= k < sc[s]@.len() && #[trigger] sc[s]@[k] == u;
                let kv = choose|k: int| 0 <= k < sc[vs[v].scc as int]@.len() && #[trigger] sc[vs[v].scc as int]@[k] == v;
                assert(graph_reaches(g, sc[s]@[ku] as int, sc[s]@[kv] as int));
            }
        }
        TarjanSccs { sccs: reversed, vertices, original_indices: order }
    }
}

/// When every vertex is visited, every visit order below `n` is used.
proof fn lemma_order_full(n: int, vs: Seq<TarjanVertex>, order: Seq<usize>)
    requires
        order_ok(n, vs, order),
        forall|v: int| 0 <= v < n ==> seen(vs, v),
    ensures
        order.len() == n,
{
    // Map each vertex to its visit order: `n` distinct values below `order.len()`.
    let all = Set::new(|x: int| 0 <= x < n);
    let ds = Set::new(|d: int| 0 <= d < order.len());
    vstd::set_lib::lemma_int_range(0, n);
    vstd::set_lib::lemma_int_range(0, order.len() as int);
    assert(all =~= vstd::set_lib::set_int_range(0, n));
    assert(ds =~= vstd::set_lib::set_int_range(0, order.len() as int));
    let to_order = |v: int| enc(vs, v);
    assert(vstd::relations::injective_on(to_order, all)) by {
        assert forall|a: int, b: int| all.contains(a) && all.contains(b) && #[trigger] to_order(a) == #[trigger] to_order(
            b,
        ) implies a == b by {
            assert(order[enc(vs, a)] == a);
            assert(order[enc(vs, b)] == b);
        }
    }
    assert(all.map(to_order).subset_of(ds)) by {
        assert forall|x: int| all.map(to_order).contains(x) implies ds.contains(x) by {
            let v = choose|v: int| all.contains(v) && to_order(v) == x;
            assert(seen(vs, v));
        }
    }
    vstd::set_lib::lemma_map_size(all, all.map(to_order), to_order);
    vstd::set_lib::lemma_len_subset(all.map(to_order), ds);
}

} // verus!
