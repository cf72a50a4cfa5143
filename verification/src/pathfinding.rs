use crate::graph::{edges_ok, find_to, lemma_find_to, Graph, Vertex};
use std::collections::VecDeque;
use vstd::prelude::*;
use vstd::set_lib::lemma_int_range;

verus! {

/// The closed set of search strategies the solver dispatches over.
#[derive(Debug)]
pub enum PathfindingAlgorithm {
    DepthFirst,
    BreadthFirst,
    Dijkstra,
}

/// Vertex `a` stores an edge aiming at `b`.
pub open spec fn has_edge<T>(vs: Seq<Vertex<T>>, a: int, b: int) -> bool {
    0 <= a < vs.len() && exists|k: int|
        0 <= k < vs[a].neighbors@.len() && (#[trigger] vs[a].neighbors@[k]).0 == b
}

/// `p` is a walk through stored edges from `start` to `end`, inclusive.
pub open spec fn is_path<T>(vs: Seq<Vertex<T>>, p: Seq<usize>, start: usize, end: usize) -> bool {
    p.len() >= 1 && p[0] == start && p[p.len() - 1] == end && (forall|i: int|
        0 <= i < p.len() ==> (#[trigger] p[i] as int) < vs.len()) && (forall|i: int|
        0 <= i < p.len() - 1 ==> has_edge(vs, #[trigger] p[i] as int, p[i + 1] as int))
}

/// Some walk through stored edges leads from `start` to `end`.
pub open spec fn reachable<T>(vs: Seq<Vertex<T>>, start: usize, end: usize) -> bool {
    exists|p: Seq<usize>| is_path(vs, p, start, end)
}

/// Every edge out of a marked vertex leads to a marked vertex.
pub open spec fn closed_under_edges<T>(vs: Seq<Vertex<T>>, marked: Seq<bool>) -> bool {
    forall|a: int, k: int|
        0 <= a < vs.len() && marked[a] && 0 <= k < vs[a].neighbors@.len() ==> marked[(
        #[trigger] vs[a].neighbors@[k]).0 as int]
}

/// A set of marked vertices that contains `start` and is closed under edges
/// contains every vertex of every path out of `start`.
proof fn lemma_closed_set_blocks<T>(
    vs: Seq<Vertex<T>>,
    marked: Seq<bool>,
    p: Seq<usize>,
    start: usize,
    end: usize,
    i: int,
)
    requires
        marked.len() == vs.len(),
        closed_under_edges(vs, marked),
        is_path(vs, p, start, end),
        marked[start as int],
        0 <= i < p.len(),
    ensures
        marked[p[i] as int],
    decreases i,
{
    if i > 0 {
        lemma_closed_set_blocks(vs, marked, p, start, end, i - 1);
        assert(has_edge(vs, p[i - 1] as int, p[i] as int));
        let k = choose|k: int|
            0 <= k < vs[p[i - 1] as int].neighbors@.len() && (#[trigger] vs[p[
                i - 1
            ] as int].neighbors@[k]).0 == p[i] as int;
        assert(marked[(vs[p[i - 1] as int].neighbors@[k]).0 as int]);
    }
}

/// A parent map is ranked when every parent stands strictly below its child,
/// which rules out cycles.
pub open spec fn parent_ranked(pm: Seq<Option<usize>>, rank: Map<int, int>) -> bool {
    forall|v: int|
        0 <= v < pm.len() ==> ((#[trigger] pm[v]) matches Some(u) ==> (u as int) < pm.len() && 0
            <= rank[u as int] && rank[u as int] < rank[v])
}

/// A row of `n` `false` marks.
fn vec_false(n: usize) -> (r: Vec<bool>)
    ensures
        r@.len() == n,
        forall|i: int| 0 <= i < n ==> !r@[i],
{
    let mut r: Vec<bool> = Vec::new();
    let mut t: usize = 0;
    while t < n
        invariant
            t <= n,
            r@.len() == t,
            forall|i: int| 0 <= i < t ==> !r@[i],
        decreases n - t,
    {
        r.push(false);
        t += 1;
    }
    r
}

/// A row of `n` empty parent slots.
fn vec_none(n: usize) -> (r: Vec<Option<usize>>)
    ensures
        r@.len() == n,
        forall|i: int| 0 <= i < n ==> r@[i] is None,
{
    let mut r: Vec<Option<usize>> = Vec::new();
    let mut t: usize = 0;
    while t < n
        invariant
            t <= n,
            r@.len() == t,
            forall|i: int| 0 <= i < t ==> r@[i] is None,
        decreases n - t,
    {
        r.push(None);
        t += 1;
    }
    r
}

/// Shared path reconstruction: walks parent pointers back from `target`,
/// then reverses, so the result runs root-first and ends at `target`.
/// The parent map must be acyclic, witnessed by some rank.
pub fn reconstruct_path(parent_map: &Vec<Option<usize>>, target: usize) -> (r: Vec<usize>)
    requires
        (target as int) < parent_map@.len(),
        exists|rank: Map<int, int>| parent_ranked(parent_map@, rank),
    ensures
        r@.len() >= 1,
        r@[r@.len() - 1] == target,
        parent_map@[r@[0] as int] is None,
        forall|i: int| 0 <= i < r@.len() ==> (#[trigger] r@[i] as int) < parent_map@.len(),
        forall|i: int|
            0 <= i < r@.len() - 1 ==> parent_map@[#[trigger] r@[i + 1] as int] == Some(r@[i]),
        forall|i: int, j: int| 0 <= i < j < r@.len() ==> r@[i] != r@[j],
{
    let ghost rank = choose|rank: Map<int, int>| parent_ranked(parent_map@, rank);
    let mut rev: Vec<usize> = Vec::new();
    rev.push(target);
    let mut current = target;
    while parent_map[current].is_some()
        invariant
            (current as int) < parent_map@.len(),
            parent_ranked(parent_map@, rank),
            rev@.len() >= 1,
            rev@[0] == target,
            rev@[rev@.len() - 1] == current,
            forall|i: int| 0 <= i < rev@.len() ==> (#[trigger] rev@[i] as int) < parent_map@.len(),
            forall|i: int|
                0 <= i < rev@.len() - 1 ==> parent_map@[#[trigger] rev@[i] as int] == Some(
                    rev@[i + 1],
                ),
            forall|i: int, j: int|
                #![trigger rev@[i], rev@[j]]
                0 <= i < j < rev@.len() ==> rank[rev@[j] as int] < rank[rev@[i] as int],
        decreases (if parent_map@[current as int] is Some {
            rank[current as int]
        } else {
            0
        }),
    {
        let p = match parent_map[current] {
            Some(p) => p,
            None => 0,
        };
        rev.push(p);
        current = p;
    }
    let n = rev.len();
    let mut r: Vec<usize> = Vec::new();
    let mut i: usize = n;
    while i > 0
        invariant
            i <= n,
            n == rev@.len(),
            r@.len() == n - i,
            forall|k: int| 0 <= k < r@.len() ==> #[trigger] r@[k] == rev@[n - 1 - k],
        decreases i,
    {
        i -= 1;
        r.push(*rev.get(i).unwrap());
    }
    proof {
        assert(r@[0] == rev@[n - 1]);
        assert(r@[r@.len() - 1] == rev@[0]);
        assert forall|i2: int|
            0 <= i2 < r@.len() - 1 implies parent_map@[#[trigger] r@[i2 + 1] as int] == Some(
            r@[i2],
        ) by {
            assert(r@[i2 + 1] == rev@[n - 2 - i2]);
            assert(r@[i2] == rev@[n - 1 - i2]);
            assert(parent_map@[rev@[n - 2 - i2] as int] == Some(rev@[n - 1 - i2]));
        }
        assert forall|i2: int, j2: int| 0 <= i2 < j2 < r@.len() implies r@[i2] != r@[j2] by {
            assert(r@[i2] == rev@[n - 1 - i2]);
            assert(r@[j2] == rev@[n - 1 - j2]);
            assert(rank[rev@[n - 1 - i2] as int] < rank[rev@[n - 1 - j2] as int]);
        }
    }
    r
}


/// Along a parent chain whose links each add one level, starting from level
/// zero, the vertex at chain index `i` sits at level `i`.
proof fn lemma_chain_level(pm: Seq<Option<usize>>, level: Map<int, int>, p: Seq<usize>, i: int)
    requires
        forall|v: int|
            0 <= v < pm.len() ==> ((#[trigger] pm[v]) matches Some(u) ==> level[v] == level[
                u as int
            ] + 1),
        p.len() >= 1,
        forall|ii: int| 0 <= ii < p.len() ==> (#[trigger] p[ii] as int) < pm.len(),
        forall|ii: int| 0 <= ii < p.len() - 1 ==> pm[#[trigger] p[ii + 1] as int] == Some(p[ii]),
        level[p[0] as int] == 0,
        0 <= i < p.len(),
    ensures
        level[p[i] as int] == i,
    decreases i,
{
    if i > 0 {
        lemma_chain_level(pm, level, p, i - 1);
        let i0: int = i - 1;
        assert(pm[p[i0 + 1] as int] == Some(p[i0]));
    }
}

/// Walking any path out of `start` while every settled vertex's neighbors
/// sit at most one level higher: each path vertex either carries a level no
/// larger than its path index, or the path has already spent `big_l` edges.
proof fn lemma_bfs_bound<T>(
    vs: Seq<Vertex<T>>,
    visited: Seq<bool>,
    q0: Seq<usize>,
    level: Map<int, int>,
    big_l: int,
    qq: Seq<usize>,
    start: usize,
    end: usize,
    i: int,
)
    requires
        visited.len() == vs.len(),
        is_path(vs, qq, start, end),
        visited[start as int],
        level[start as int] == 0,
        forall|v: int, k: int|
            0 <= v < vs.len() && visited[v] && !q0.contains(v as usize) && 0 <= k
                < vs[v].neighbors@.len() ==> visited[(#[trigger] vs[v].neighbors@[k]).0 as int]
                && level[(vs[v].neighbors@[k]).0 as int] <= level[v] + 1,
        forall|qi: int| 0 <= qi < q0.len() ==> big_l <= level[#[trigger] q0[qi] as int],
        0 <= i < qq.len(),
    ensures
        (visited[qq[i] as int] && level[qq[i] as int] <= i) || big_l <= i,
    decreases i,
{
    if i == 0 {
    } else {
        lemma_bfs_bound(vs, visited, q0, level, big_l, qq, start, end, i - 1);
        if big_l <= i - 1 {
        } else if visited[qq[i - 1] as int] && level[qq[i - 1] as int] <= i - 1 {
            if q0.contains(qq[i - 1]) {
                let qi = choose|qi: int| 0 <= qi < q0.len() && q0[qi] == qq[i - 1];
                assert(big_l <= level[q0[qi] as int]);
            } else {
                assert(has_edge(vs, qq[i - 1] as int, qq[i] as int));
                let k = choose|k: int|
                    0 <= k < vs[qq[i - 1] as int].neighbors@.len() && (#[trigger] vs[qq[
                        i - 1
                    ] as int].neighbors@[k]).0 == qq[i];
                assert(visited[(vs[qq[i - 1] as int].neighbors@[k]).0 as int] && level[(vs[qq[
                    i - 1
                ] as int].neighbors@[k]).0 as int] <= level[qq[i - 1] as int] + 1);
            }
        }
    }
}

/// Breadth-first search: explores level by level, marking a vertex when it
/// is first enqueued. Returns a stored-edge path from `start` to `end`
/// exactly when one exists, and the returned path has no more edges than
/// any other such path.
pub fn bfs<T>(graph: &Graph<T>) -> (r: Option<Vec<usize>>)
    requires
        graph.wf(),
    ensures
        match r {
            Some(p) => is_path(graph.vertices@, p@, graph.start, graph.end) && (forall|
                i: int,
                j: int,
            |
                0 <= i < j < p@.len() ==> p@[i] != p@[j]),
            None => !reachable(graph.vertices@, graph.start, graph.end),
        },
        r matches Some(p) ==> (forall|q: Seq<usize>|
            is_path(graph.vertices@, q, graph.start, graph.end) ==> p@.len() <= q.len()),
{
    let ghost vs = graph.vertices@;
    let n = graph.vertices.len();
    let start = graph.start;
    let end = graph.end;
    if start >= n || end >= n {
        proof {
            if reachable(vs, start, end) {
                let p = choose|p: Seq<usize>| is_path(vs, p, start, end);
                assert((p[0] as int) < vs.len());
                assert((p[p.len() - 1] as int) < vs.len());
            }
        }
        return None;
    }
    let mut visited = vec_false(n);
    let mut parent = vec_none(n);
    let mut queue: VecDeque<usize> = VecDeque::new();
    queue.push_back(start);
    visited.set(start, true);
    proof {
        assert(queue@[0] == start);
        assert(queue@.contains(start));
    }
    let ghost mut rank = Map::<int, int>::empty().insert(start as int, 0);
    let ghost mut unvis = vstd::set_lib::set_int_range(0, n as int).remove(start as int);
    proof {
        lemma_int_range(0, n as int);
    }
    while queue.len() != 0
        invariant
            n == vs.len(),
            vs == graph.vertices@,
            start == graph.start,
            end == graph.end,
            edges_ok(vs),
            (start as int) < n,
            (end as int) < n,
            visited@.len() == n,
            parent@.len() == n,
            visited@[start as int],
            parent@[start as int] is None,
            unvis.finite(),
            forall|v: int| 0 <= v < n ==> (visited@[v] <==> !unvis.contains(v)),
            forall|v: int| #[trigger] unvis.contains(v) ==> 0 <= v < n,
            forall|qi: int|
                0 <= qi < queue@.len() ==> (#[trigger] queue@[qi] as int) < n
                    && visited@[queue@[qi] as int],
            rank[start as int] == 0,
            forall|v: int|
                0 <= v < n && visited@[v] ==> rank.contains_key(v) && 0 <= rank[v],
            forall|v: int|
                0 <= v < n ==> ((#[trigger] parent@[v]) matches Some(u) ==> (u as int) < n
                    && visited@[u as int] && visited@[v] && v != start && has_edge(vs, u as int, v)
                    && rank[v] == rank[u as int] + 1),
            forall|v: int| 0 <= v < n && visited@[v] && parent@[v] is None ==> v == start,
            forall|qi: int, qj: int|
                0 <= qi <= qj < queue@.len() ==> rank[#[trigger] queue@[qi] as int] <= rank[
                    #[trigger] queue@[qj] as int
                ],
            queue@.len() > 0 ==> rank[queue@[queue@.len() - 1] as int] <= rank[queue@[0] as int]
                + 1,
            forall|v: int|
                0 <= v < n && visited@[v] && !queue@.contains(v as usize) ==> (forall|k: int|
                    0 <= k < vs[v].neighbors@.len() ==> visited@[(
                    #[trigger] vs[v].neighbors@[k]).0 as int] && rank[(
                    vs[v].neighbors@[k]).0 as int] <= rank[v] + 1),
            forall|v: int|
                0 <= v < n && visited@[v] && !queue@.contains(v as usize) ==> (forall|qi: int|
                    0 <= qi < queue@.len() ==> rank[v] <= rank[#[trigger] queue@[qi] as int]),
            visited@[end as int] ==> queue@.contains(end),
        decreases unvis.len(), queue@.len(),
    {
        let ghost q0 = queue@;
        let current = queue.pop_front().unwrap();
        proof {
            assert forall|u: usize| #[trigger] q0.contains(u) && u != current implies
                queue@.contains(u) by {
                let qi = choose|qi: int| 0 <= qi < q0.len() && q0[qi] == u;
                assert(qi != 0);
                assert(queue@[qi - 1] == u);
            }
        }
        if current == end {
            proof {
                assert(parent_ranked(parent@, rank));
                assert(visited@[end as int]);
            }
            let p = reconstruct_path(&parent, end);
            proof {
                if p@.len() >= 2 {
                    let i0: int = 0;
                    assert(parent@[p@[i0 + 1] as int] == Some(p@[i0]));
                    assert(visited@[p@[i0] as int]);
                } else {
                    assert(p@[0] == end);
                    assert(visited@[end as int]);
                }
                assert(p@[0] == start);
                assert forall|i: int|
                    0 <= i < p@.len() - 1 implies has_edge(vs, #[trigger] p@[i] as int, p@[
                    i + 1
                ] as int) by {
                    assert(parent@[p@[i + 1] as int] == Some(p@[i]));
                }
                assert(p@.len() >= 1);
                assert(p@[p@.len() - 1] == end);
                assert(forall|i: int| 0 <= i < p@.len() ==> (#[trigger] p@[i] as int) < vs.len());
                assert(is_path(vs, p@, start, end));
                let big_l = rank[end as int];
                assert forall|v: int|
                    0 <= v < parent@.len() implies ((#[trigger] parent@[v]) matches Some(u)
                    ==> rank[v] == rank[u as int] + 1) by {}
                lemma_chain_level(parent@, rank, p@, p@.len() - 1);
                assert(big_l == p@.len() - 1);
                assert forall|q: Seq<usize>| is_path(vs, q, start, end) implies p@.len()
                    <= q.len() by {
                    assert forall|v: int, k: int|
                        0 <= v < vs.len() && visited@[v] && !q0.contains(v as usize) && 0 <= k
                            < vs[v].neighbors@.len() implies visited@[(
                    #[trigger] vs[v].neighbors@[k]).0 as int] && rank[(
                        vs[v].neighbors@[k]).0 as int] <= rank[v] + 1 by {}
                    assert forall|qi: int| 0 <= qi < q0.len() implies big_l <= rank[
                        #[trigger] q0[qi] as int
                    ] by {
                        assert(rank[q0[0] as int] <= rank[q0[qi] as int]);
                    }
                    lemma_bfs_bound(vs, visited@, q0, rank, big_l, q, start, end, q.len() - 1);
                    assert(q[q.len() - 1] == end);
                }
            }
            return Some(p);
        }
        let ghost big_l = rank[current as int];
        proof {
            assert forall|qi: int|
                0 <= qi < queue@.len() implies big_l <= rank[#[trigger] queue@[qi] as int]
                && rank[queue@[qi] as int] <= big_l + 1 by {
                assert(queue@[qi] == q0[qi + 1]);
                assert(rank[q0[0] as int] <= rank[q0[qi + 1] as int]);
                assert(rank[q0[qi + 1] as int] <= rank[q0[q0.len() - 1] as int]);
                assert(rank[q0[q0.len() - 1] as int] <= rank[q0[0] as int] + 1);
            }
            assert forall|qi: int, qj: int|
                0 <= qi <= qj < queue@.len() implies rank[#[trigger] queue@[qi] as int] <= rank[
                #[trigger] queue@[qj] as int
            ] by {
                assert(queue@[qi] == q0[qi + 1] && queue@[qj] == q0[qj + 1]);
            }
            assert forall|v: int|
                0 <= v < n && visited@[v] && !queue@.contains(v as usize) implies rank[v]
                <= big_l by {
                if v != current as int {
                    assert(q0.contains(current));
                    if q0.contains(v as usize) {
                        let qi = choose|qi: int| 0 <= qi < q0.len() && q0[qi] == v as usize;
                        assert(qi != 0);
                        assert(queue@[qi - 1] == v as usize);
                    } else {
                        assert(rank[v] <= rank[q0[0] as int]);
                    }
                }
            }
        }
        let ghost unvis_in = unvis;
        let ghost qlen_in = queue@.len();
        let mut k: usize = 0;
        let deg = graph.vertices[current].neighbors.len();
        proof {
            assert(visited@[current as int]);
        }
        while k < deg
            invariant
                n == vs.len(),
                vs == graph.vertices@,
                edges_ok(vs),
                (start as int) < n,
                (end as int) < n,
                (current as int) < n,
                current != end,
                visited@[current as int],
                deg == vs[current as int].neighbors@.len(),
                k <= deg,
                visited@.len() == n,
                parent@.len() == n,
                visited@[start as int],
                parent@[start as int] is None,
                unvis.finite(),
                forall|v: int| 0 <= v < n ==> (visited@[v] <==> !unvis.contains(v)),
                forall|v: int| #[trigger] unvis.contains(v) ==> 0 <= v < n,
                forall|qi: int|
                    0 <= qi < queue@.len() ==> (#[trigger] queue@[qi] as int) < n
                        && visited@[queue@[qi] as int],
                rank[start as int] == 0,
                big_l == rank[current as int],
                0 <= big_l,
                forall|v: int|
                    0 <= v < n && visited@[v] ==> rank.contains_key(v) && 0 <= rank[v],
                forall|v: int|
                    0 <= v < n ==> ((#[trigger] parent@[v]) matches Some(u) ==> (u as int) < n
                        && visited@[u as int] && visited@[v] && v != start && has_edge(
                        vs,
                        u as int,
                        v,
                    ) && rank[v] == rank[u as int] + 1),
                forall|v: int| 0 <= v < n && visited@[v] && parent@[v] is None ==> v == start,
                forall|qi: int|
                    0 <= qi < queue@.len() ==> big_l <= rank[#[trigger] queue@[qi] as int]
                        && rank[queue@[qi] as int] <= big_l + 1,
                forall|qi: int, qj: int|
                    0 <= qi <= qj < queue@.len() ==> rank[#[trigger] queue@[qi] as int] <= rank[
                        #[trigger] queue@[qj] as int
                    ],
                forall|v: int|
                    0 <= v < n && visited@[v] && !queue@.contains(v as usize) ==> rank[v] <= big_l,
                forall|v: int|
                    0 <= v < n && v != current && visited@[v] && !queue@.contains(v as usize) ==> (
                    forall|k2: int|
                        0 <= k2 < vs[v].neighbors@.len() ==> visited@[(
                        #[trigger] vs[v].neighbors@[k2]).0 as int] && rank[(
                        vs[v].neighbors@[k2]).0 as int] <= rank[v] + 1),
                forall|k2: int|
                    0 <= k2 < k ==> visited@[(#[trigger] vs[current as int].neighbors@[k2]).0 as int]
                        && rank[(vs[current as int].neighbors@[k2]).0 as int] <= big_l + 1,
                visited@[end as int] ==> queue@.contains(end),
                unvis.len() <= unvis_in.len(),
                unvis.len() == unvis_in.len() ==> queue@.len() == qlen_in,
            decreases deg - k,
        {
            let e = graph.vertices[current].neighbors[k];
            let nb = e.0;
            proof {
                assert(vs[current as int].neighbors@[k as int].0 < n);
            }
            if !visited[nb] {
                let ghost qprev = queue@;
                visited.set(nb, true);
                parent.set(nb, Some(current));
                queue.push_back(nb);
                proof {
                    rank = rank.insert(nb as int, big_l + 1);
                    unvis = unvis.remove(nb as int);
                    assert forall|u: usize| #[trigger] qprev.contains(u) implies queue@.contains(
                        u,
                    ) by {
                        let qi = choose|qi: int| 0 <= qi < qprev.len() && qprev[qi] == u;
                        assert(queue@[qi] == u);
                    }
                    assert(queue@[queue@.len() - 1] == nb);
                    assert(queue@.contains(nb));
                    assert forall|qi: int, qj: int|
                        0 <= qi <= qj < queue@.len() implies rank[#[trigger] queue@[qi] as int]
                        <= rank[#[trigger] queue@[qj] as int] by {
                        if qj < queue@.len() - 1 {
                            assert(queue@[qi] == qprev[qi] && queue@[qj] == qprev[qj]);
                        } else if qi < queue@.len() - 1 {
                            assert(queue@[qi] == qprev[qi]);
                        }
                    }
                }
            }
            k += 1;
        }
        proof {
            assert forall|v: int|
                0 <= v < n && visited@[v] && !queue@.contains(v as usize) implies (forall|k2: int|
                0 <= k2 < vs[v].neighbors@.len() ==> visited@[(
                #[trigger] vs[v].neighbors@[k2]).0 as int] && rank[(
                vs[v].neighbors@[k2]).0 as int] <= rank[v] + 1) by {
                if v != current as int {
                }
            }
            assert forall|v: int|
                0 <= v < n && visited@[v] && !queue@.contains(v as usize) implies (forall|qi: int|
                0 <= qi < queue@.len() ==> rank[v] <= rank[#[trigger] queue@[qi] as int]) by {}
        }
    }
    proof {
        assert(!visited@[end as int]);
        if reachable(vs, start, end) {
            let p = choose|p: Seq<usize>| is_path(vs, p, start, end);
            lemma_closed_set_blocks(vs, visited@, p, start, end, p.len() - 1);
        }
    }
    None
}

/// Depth-first search with an explicit stack: a vertex is marked when it is
/// popped, not when pushed, so a vertex may sit on the stack several times.
/// Finds some stored-edge path from `start` to `end` exactly when one exists;
/// the path is not guaranteed shortest.
#[verifier::rlimit(100)]
pub fn dfs_iterative<T>(graph: &Graph<T>) -> (r: Option<Vec<usize>>)
    requires
        graph.wf(),
    ensures
        match r {
            Some(p) => is_path(graph.vertices@, p@, graph.start, graph.end) && (forall|
                i: int,
                j: int,
            |
                0 <= i < j < p@.len() ==> p@[i] != p@[j]),
            None => !reachable(graph.vertices@, graph.start, graph.end),
        },
{
    let ghost vs = graph.vertices@;
    let n = graph.vertices.len();
    let start = graph.start;
    let end = graph.end;
    if start >= n || end >= n {
        proof {
            if reachable(vs, start, end) {
                let p = choose|p: Seq<usize>| is_path(vs, p, start, end);
                assert((p[0] as int) < vs.len());
                assert((p[p.len() - 1] as int) < vs.len());
            }
        }
        return None;
    }
    let mut visited = vec_false(n);
    let mut parent = vec_none(n);
    let mut stack: Vec<usize> = Vec::new();
    stack.push(start);
    proof {
        assert(stack@[0] == start);
        assert(stack@.contains(start));
    }
    let ghost mut rank = Map::<int, int>::empty();
    let ghost mut counter: int = 0;
    let ghost mut unvis = vstd::set_lib::set_int_range(0, n as int);
    proof {
        lemma_int_range(0, n as int);
    }
    while stack.len() != 0
        invariant
            n == vs.len(),
            vs == graph.vertices@,
            start == graph.start,
            end == graph.end,
            edges_ok(vs),
            (start as int) < n,
            (end as int) < n,
            visited@.len() == n,
            parent@.len() == n,
            parent@[start as int] is None,
            !visited@[end as int],
            visited@[start as int] || stack@.contains(start),
            !visited@[start as int] ==> stack@ == seq![start],
            counter > 0 ==> visited@[start as int],
            0 <= counter,
            unvis.finite(),
            forall|v: int| 0 <= v < n ==> (visited@[v] <==> !unvis.contains(v)),
            forall|v: int| #[trigger] unvis.contains(v) ==> 0 <= v < n,
            forall|si: int| 0 <= si < stack@.len() ==> (#[trigger] stack@[si] as int) < n,
            forall|si: int|
                0 <= si < stack@.len() ==> (#[trigger] stack@[si]) == start || parent@[stack@[si] as int] is Some,
            forall|v: int|
                0 <= v < n && visited@[v] ==> rank.contains_key(v) && 0 <= rank[v] < counter,
            forall|v: int| #[trigger] rank.contains_key(v) ==> 0 <= v < n && visited@[v],
            forall|v: int|
                0 <= v < n ==> ((#[trigger] parent@[v]) matches Some(u) ==> (u as int) < n
                    && visited@[u as int] && v != start && has_edge(vs, u as int, v) && rank[u as int]
                    < counter && (visited@[v] ==> rank[u as int] < rank[v])),
            forall|v: int| 0 <= v < n && visited@[v] && parent@[v] is None ==> v == start,
            forall|v: int, k: int|
                0 <= v < n && visited@[v] && 0 <= k < vs[v].neighbors@.len() ==> visited@[(
                #[trigger] vs[v].neighbors@[k]).0 as int] || stack@.contains(
                    vs[v].neighbors@[k].0,
                ),
        decreases unvis.len(), stack@.len(),
    {
        let ghost st0 = stack@;
        let current = stack.pop().unwrap();
        proof {
            assert(st0[st0.len() - 1] == current);
            assert forall|u: usize| #[trigger] st0.contains(u) implies stack@.contains(u) || u
                == current by {
                let si = choose|si: int| 0 <= si < st0.len() && st0[si] == u;
                if si < st0.len() - 1 {
                    assert(stack@[si] == u);
                }
            }
        }
        if current == end {
            proof {
                let rank2 = Map::<int, int>::new(
                    |v: int| true,
                    |v: int|
                        if rank.contains_key(v) {
                            rank[v]
                        } else {
                            counter + 1 + (if v >= 0 {
                                v
                            } else {
                                0
                            })
                        },
                );
                assert forall|v: int|
                    0 <= v < parent@.len() implies ((#[trigger] parent@[v]) matches Some(u) ==> (
                u as int) < parent@.len() && 0 <= rank2[u as int] && rank2[u as int] < rank2[v]) by {
                    if parent@[v] is Some {
                        let u = parent@[v]->Some_0;
                        assert(visited@[u as int]);
                        assert(rank.contains_key(u as int));
                        if visited@[v] {
                            assert(rank.contains_key(v));
                        } else {
                            assert(!rank.contains_key(v));
                            assert(rank2[v] == counter + 1 + v);
                        }
                    }
                }
                assert(parent_ranked(parent@, rank2));
            }
            let p = reconstruct_path(&parent, end);
            proof {
                if p@.len() >= 2 {
                    let i0: int = 0;
                    assert(parent@[p@[i0 + 1] as int] == Some(p@[i0]));
                    assert(visited@[p@[i0] as int]);
                    assert(p@[i0] == start);
                } else {
                    assert(p@[0] == end);
                    assert(end == start || parent@[end as int] is Some);
                    assert(p@[0] == start);
                }
                assert forall|i: int|
                    0 <= i < p@.len() - 1 implies has_edge(vs, #[trigger] p@[i] as int, p@[
                    i + 1
                ] as int) by {
                    assert(parent@[p@[i + 1] as int] == Some(p@[i]));
                }
                assert(is_path(vs, p@, start, end));
            }
            return Some(p);
        }
        if !visited[current] {
            visited.set(current, true);
            proof {
                rank = rank.insert(current as int, counter);
                counter = counter + 1;
                unvis = unvis.remove(current as int);
                if current != start {
                    assert(st0 == seq![start] ==> current == start);
                    assert(visited@[start as int]);
                }
            }
            proof {
                assert(stack@ == st0.subrange(0, st0.len() - 1));
            }
            let ghost unvis_in = unvis;
            let mut k: usize = 0;
            let deg = graph.vertices[current].neighbors.len();
            while k < deg
                invariant
                    n == vs.len(),
                    vs == graph.vertices@,
                    start == graph.start,
                    end == graph.end,
                    edges_ok(vs),
                    (start as int) < n,
                    (end as int) < n,
                    (current as int) < n,
                    current != end,
                    visited@[current as int],
                    deg == vs[current as int].neighbors@.len(),
                    k <= deg,
                    visited@.len() == n,
                    parent@.len() == n,
                    parent@[start as int] is None,
                    !visited@[end as int],
                    visited@[start as int],
                    counter > 0,
                    unvis.finite(),
                    unvis == unvis_in,
                    forall|v: int| 0 <= v < n ==> (visited@[v] <==> !unvis.contains(v)),
                    forall|v: int| #[trigger] unvis.contains(v) ==> 0 <= v < n,
                    forall|si: int| 0 <= si < stack@.len() ==> (#[trigger] stack@[si] as int) < n,
                    forall|si: int|
                        0 <= si < stack@.len() ==> (#[trigger] stack@[si]) == start
                            || parent@[stack@[si] as int] is Some,
                    forall|v: int|
                        0 <= v < n && visited@[v] ==> rank.contains_key(v) && 0 <= rank[v]
                            < counter,
                    forall|v: int| #[trigger] rank.contains_key(v) ==> 0 <= v < n && visited@[v],
                    forall|v: int|
                        0 <= v < n ==> ((#[trigger] parent@[v]) matches Some(u) ==> (u as int) < n
                            && visited@[u as int] && v != start && has_edge(vs, u as int, v)
                            && rank[u as int] < counter && (visited@[v] ==> rank[u as int]
                            < rank[v])),
                    forall|v: int| 0 <= v < n && visited@[v] && parent@[v] is None ==> v == start,
                    forall|v: int, k2: int|
                        0 <= v < n && visited@[v] && v != current && 0 <= k2 < vs[v].neighbors@.len()
                            ==> visited@[(#[trigger] vs[v].neighbors@[k2]).0 as int]
                            || stack@.contains(vs[v].neighbors@[k2].0),
                    forall|k2: int|
                        0 <= k2 < k ==> visited@[(#[trigger] vs[current as int].neighbors@[k2]).0 as int]
                            || stack@.contains(vs[current as int].neighbors@[k2].0),
                decreases deg - k,
            {
                let e = graph.vertices[current].neighbors[k];
                let nb = e.0;
                proof {
                    assert(vs[current as int].neighbors@[k as int].0 < n);
                }
                if !visited[nb] {
                    let ghost sprev = stack@;
                    parent.set(nb, Some(current));
                    stack.push(nb);
                    proof {
                        assert forall|u: usize| #[trigger] sprev.contains(u) implies
                            stack@.contains(u) by {
                            let si = choose|si: int| 0 <= si < sprev.len() && sprev[si] == u;
                            assert(stack@[si] == u);
                        }
                        assert(stack@[stack@.len() - 1] == nb);
                        assert(stack@.contains(nb));
                    }
                }
                k += 1;
            }
        }
    }
    proof {
        assert(visited@[start as int]);
        if reachable(vs, start, end) {
            let p = choose|p: Seq<usize>| is_path(vs, p, start, end);
            lemma_closed_set_blocks(vs, visited@, p, start, end, p.len() - 1);
        }
    }
    None
}

/// A frontier entry of the weighted search: a tentative cost and the vertex
/// it belongs to.
#[derive(Clone, Copy)]
struct State {
    cost: u64,
    position: usize,
}

/// The sum of a row of weights.
spec fn sum_seq(s: Seq<u64>) -> int
    decreases s.len(),
{
    if s.len() == 0 {
        0
    } else {
        sum_seq(s.drop_last()) + s[s.len() - 1]
    }
}

proof fn lemma_sum_nonneg(s: Seq<u64>)
    ensures
        sum_seq(s) >= 0,
    decreases s.len(),
{
    if s.len() > 0 {
        lemma_sum_nonneg(s.drop_last());
    }
}

proof fn lemma_sum_update(s: Seq<u64>, i: int, v: u64)
    requires
        0 <= i < s.len(),
    ensures
        sum_seq(s.update(i, v)) == sum_seq(s) - s[i] + v,
    decreases s.len(),
{
    if s.len() > 0 {
        if i == s.len() - 1 {
            assert(s.update(i, v).drop_last() =~= s.drop_last());
        } else {
            lemma_sum_update(s.drop_last(), i, v);
            assert(s.update(i, v).drop_last() =~= s.drop_last().update(i, v));
            assert(s.update(i, v)[s.len() - 1] == s[s.len() - 1]);
        }
    }
}

/// Removes and returns an entry with the least cost; None when empty.
fn pop_min(heap: &mut Vec<State>) -> (s: Option<State>)
    ensures
        match s {
            Some(st) => old(heap)@.len() > 0 && old(heap)@.contains(st) && final(heap)@.len()
                == old(heap)@.len() - 1 && (forall|u: State|
                old(heap)@.contains(u) && u != st ==> final(heap)@.contains(u)) && (forall|
                idx: int,
            |
                0 <= idx < final(heap)@.len() ==> old(heap)@.contains(
                    #[trigger] final(heap)@[idx],
                )) && (forall|idx: int|
                0 <= idx < old(heap)@.len() ==> st.cost <= (#[trigger] old(heap)@[idx]).cost),
            None => old(heap)@.len() == 0 && final(heap)@ == old(heap)@,
        },
{
    let ghost h0 = heap@;
    if heap.len() == 0 {
        return None;
    }
    let mut m: usize = 0;
    let mut idx: usize = 1;
    while idx < heap.len()
        invariant
            heap@ == h0,
            (m as int) < h0.len(),
            idx <= h0.len(),
            forall|j: int| 0 <= j < idx ==> h0[m as int].cost <= (#[trigger] h0[j]).cost,
        decreases h0.len() - idx,
    {
        if heap[idx].cost < heap[m].cost {
            m = idx;
        }
        idx += 1;
    }
    let st = heap[m];
    let last = heap.pop().unwrap();
    if m < heap.len() {
        heap.set(m, last);
    }
    proof {
        assert(h0.contains(st)) by {
            assert(h0[m as int] == st);
        }
        assert forall|u: State| h0.contains(u) && u != st implies heap@.contains(u) by {
            let j = choose|j: int| 0 <= j < h0.len() && h0[j] == u;
            if j < h0.len() - 1 {
                if j == m {
                    assert(h0[j] == st);
                } else {
                    assert(heap@[j] == u);
                }
            } else {
                if m < h0.len() - 1 {
                    assert(heap@[m as int] == u);
                } else {
                    assert(h0[m as int] == st);
                }
            }
        }
        assert forall|idx2: int| 0 <= idx2 < heap@.len() implies h0.contains(
            #[trigger] heap@[idx2],
        ) by {
            if idx2 == m && m < h0.len() - 1 {
                assert(heap@[idx2] == h0[h0.len() - 1]);
            } else {
                assert(heap@[idx2] == h0[idx2]);
            }
        }
    }
    Some(st)
}


/// A prefix of a walk costs no more than the whole walk.
proof fn lemma_path_cost_prefix_le<T>(vs: Seq<Vertex<T>>, p: Seq<usize>, i: int)
    requires
        0 <= i < p.len(),
    ensures
        path_cost(vs, p.take(i + 1)) <= path_cost(vs, p),
    decreases p.len() - i,
{
    if i + 1 == p.len() {
        assert(p.take(i + 1) =~= p);
    } else {
        lemma_path_cost_prefix_le(vs, p.drop_last(), i);
        assert(p.drop_last().take(i + 1) =~= p.take(i + 1));
    }
}

/// Along any walk out of `start`, a distance row that is zero at `start`
/// and relaxed over every edge of every finite vertex bounds each vertex's
/// distance by the walk's prefix cost.
proof fn lemma_relaxed_dists_bound_path<T>(
    vs: Seq<Vertex<T>>,
    dists: Seq<u64>,
    processed: Set<int>,
    p: Seq<usize>,
    start: usize,
    end: usize,
    i: int,
)
    requires
        dists.len() == vs.len(),
        is_path(vs, p, start, end),
        dists[start as int] == 0,
        path_cost(vs, p) < u64::MAX,
        forall|v: int, k: int|
            #[trigger] processed.contains(v) && 0 <= v < vs.len() && 0 <= k
                < vs[v].neighbors@.len() ==> dists[(#[trigger] vs[v].neighbors@[k]).0 as int] as int
                <= dists[v] + vs[v].neighbors@[k].1,
        forall|v: int| 0 <= v < vs.len() && dists[v] < u64::MAX ==> processed.contains(v),
        0 <= i < p.len(),
    ensures
        dists[p[i] as int] as int <= path_cost(vs, p.take(i + 1)),
    decreases i,
{
    if i == 0 {
    } else {
        lemma_relaxed_dists_bound_path(vs, dists, processed, p, start, end, i - 1);
        let a = p[i - 1] as int;
        lemma_path_cost_prefix_le(vs, p, i - 1);
        assert(dists[a] < u64::MAX);
        assert(processed.contains(a));
        assert(has_edge(vs, a, p[i] as int));
        let nb0 = vs[a].neighbors@;
        lemma_find_to(nb0, p[i]);
        let f = find_to(nb0, p[i]);
        assert(f >= 0) by {
            if f < 0 {
                let k = choose|k: int| 0 <= k < nb0.len() && (#[trigger] nb0[k]).0 == p[i];
                assert(nb0[k].0 != p[i]);
            }
        }
        assert(dists[p[i] as int] as int <= dists[a] + nb0[f].1);
        assert(nb0[f].1 == edge_weight(nb0, p[i]));
        let pre = p.take(i);
        let pre2 = p.take(i + 1);
        assert(pre2.drop_last() =~= pre);
        assert(pre2[pre2.len() - 2] == p[i - 1]);
        assert(pre2[pre2.len() - 1] == p[i]);
        assert(path_cost(vs, pre2) == path_cost(vs, pre) + edge_weight(nb0, p[i]) as int);
    }
}


/// No vertex lists two stored edges aiming at the same target.
pub open spec fn no_dup_targets<T>(vs: Seq<Vertex<T>>) -> bool {
    forall|i: int, k1: int, k2: int|
        0 <= i < vs.len() && 0 <= k1 < k2 < vs[i].neighbors@.len() ==> (
        #[trigger] vs[i].neighbors@[k1]).0 != (#[trigger] vs[i].neighbors@[k2]).0
}

/// In a list with pairwise-distinct targets, a matching slot is the first
/// match, so its weight is the list's stored weight for that target.
proof fn lemma_unique_target_weight(nbrs: Seq<(usize, u64)>, k: int, to: usize)
    requires
        forall|k1: int, k2: int|
            0 <= k1 < k2 < nbrs.len() ==> (#[trigger] nbrs[k1]).0 != (#[trigger] nbrs[k2]).0,
        0 <= k < nbrs.len(),
        nbrs[k].0 == to,
    ensures
        find_to(nbrs, to) == k,
        edge_weight(nbrs, to) == nbrs[k].1,
{
    lemma_find_to(nbrs, to);
    let f = find_to(nbrs, to);
    if f < 0 {
        assert(nbrs[k].0 != to);
    } else {
        if f < k {
            assert(nbrs[f].0 != nbrs[k].0);
        } else if k < f {
            assert(nbrs[k].0 != to);
        }
    }
}

/// Walking a parent chain whose every link loses at least the stored edge
/// weight, the chain's cost never exceeds the last vertex's distance.
proof fn lemma_parent_chain_cost<T>(
    vs: Seq<Vertex<T>>,
    dists: Seq<u64>,
    pm: Seq<Option<usize>>,
    p: Seq<usize>,
    i: int,
)
    requires
        pm.len() == vs.len(),
        dists.len() == vs.len(),
        forall|v: int|
            0 <= v < pm.len() ==> ((#[trigger] pm[v]) matches Some(u) ==> (u as int) < pm.len()
                && dists[v] as int >= dists[u as int] as int + edge_weight(
                vs[u as int].neighbors@,
                v as usize,
            ) as int),
        p.len() >= 1,
        forall|ii: int| 0 <= ii < p.len() ==> (#[trigger] p[ii] as int) < pm.len(),
        forall|ii: int| 0 <= ii < p.len() - 1 ==> pm[#[trigger] p[ii + 1] as int] == Some(p[ii]),
        dists[p[0] as int] == 0,
        0 <= i < p.len(),
    ensures
        path_cost(vs, p.take(i + 1)) <= dists[p[i] as int],
    decreases i,
{
    if i == 0 {
    } else {
        lemma_parent_chain_cost(vs, dists, pm, p, i - 1);
        let i0: int = i - 1;
        assert(pm[p[i0 + 1] as int] == Some(p[i0]));
        let pre = p.take(i);
        let pre2 = p.take(i + 1);
        assert(pre2.drop_last() =~= pre);
        assert(pre2[pre2.len() - 2] == p[i - 1]);
        assert(pre2[pre2.len() - 1] == p[i]);
        assert(path_cost(vs, pre2) == path_cost(vs, pre) + edge_weight(
            vs[p[i - 1] as int].neighbors@,
            p[i],
        ) as int);
    }
}

/// Along any walk whose prefix is fully relaxed, each distance is bounded
/// by the walk's prefix cost.
proof fn lemma_dists_bound_prefix<T>(
    vs: Seq<Vertex<T>>,
    dists: Seq<u64>,
    processed: Set<int>,
    q: Seq<usize>,
    start: usize,
    end: usize,
    i: int,
)
    requires
        dists.len() == vs.len(),
        is_path(vs, q, start, end),
        dists[start as int] == 0,
        forall|v: int, k: int|
            #[trigger] processed.contains(v) && 0 <= v < vs.len() && 0 <= k
                < vs[v].neighbors@.len() ==> dists[(#[trigger] vs[v].neighbors@[k]).0 as int] as int
                <= dists[v] + vs[v].neighbors@[k].1,
        forall|ii: int| 0 <= ii < i ==> processed.contains(#[trigger] q[ii] as int),
        0 <= i < q.len(),
    ensures
        dists[q[i] as int] as int <= path_cost(vs, q.take(i + 1)),
    decreases i,
{
    if i == 0 {
    } else {
        lemma_dists_bound_prefix(vs, dists, processed, q, start, end, i - 1);
        let a = q[i - 1] as int;
        assert(processed.contains(a));
        assert(has_edge(vs, a, q[i] as int));
        let nb0 = vs[a].neighbors@;
        lemma_find_to(nb0, q[i]);
        let f = find_to(nb0, q[i]);
        assert(f >= 0) by {
            if f < 0 {
                let k = choose|k: int| 0 <= k < nb0.len() && (#[trigger] nb0[k]).0 == q[i];
                assert(nb0[k].0 != q[i]);
            }
        }
        assert(dists[q[i] as int] as int <= dists[a] + nb0[f].1);
        assert(nb0[f].1 == edge_weight(nb0, q[i]));
        let pre = q.take(i);
        let pre2 = q.take(i + 1);
        assert(pre2.drop_last() =~= pre);
        assert(pre2[pre2.len() - 2] == q[i - 1]);
        assert(pre2[pre2.len() - 1] == q[i]);
        assert(path_cost(vs, pre2) == path_cost(vs, pre) + edge_weight(nb0, q[i]) as int);
    }
}

/// A walk with an unmarked vertex has a first unmarked vertex.
proof fn lemma_first_unprocessed(processed: Set<int>, q: Seq<usize>, i: int)
    requires
        0 <= i < q.len(),
        !processed.contains(q[i] as int),
    ensures
        exists|j: int|
            0 <= j <= i && !processed.contains(#[trigger] q[j] as int) && (forall|j2: int|
                0 <= j2 < j ==> processed.contains(#[trigger] q[j2] as int)),
    decreases i,
{
    if forall|j2: int| 0 <= j2 < i ==> processed.contains(#[trigger] q[j2] as int) {
        assert(0 <= i <= i && !processed.contains(q[i] as int) && (forall|j2: int|
            0 <= j2 < i ==> processed.contains(#[trigger] q[j2] as int)));
    } else {
        let j2 = choose|j2: int| 0 <= j2 < i && !processed.contains(#[trigger] q[j2] as int);
        lemma_first_unprocessed(processed, q, j2);
        let j = choose|j: int|
            0 <= j <= j2 && !processed.contains(#[trigger] q[j] as int) && (forall|j3: int|
                0 <= j3 < j ==> processed.contains(#[trigger] q[j3] as int));
        assert(0 <= j <= i && !processed.contains(q[j] as int));
    }
}

/// Weighted shortest-path search, label-setting with a min-priority frontier
/// and lazy deletion of stale entries. Requires the graph's positive edge
/// weights; any returned path is a stored-edge path from `start` to `end`,
/// a search whose start equals its (in-range) end always succeeds, and on a
/// graph that stores at most one edge per target the returned path's cost is
/// minimal among all start-to-end paths.
#[verifier::rlimit(100)]
pub fn dijkstra<T>(graph: &Graph<T>) -> (r: Option<Vec<usize>>)
    requires
        graph.wf(),
    ensures
        match r {
            Some(p) => is_path(graph.vertices@, p@, graph.start, graph.end) && (forall|
                i: int,
                j: int,
            |
                0 <= i < j < p@.len() ==> p@[i] != p@[j]),
            None => forall|p: Seq<usize>|
                is_path(graph.vertices@, p, graph.start, graph.end) ==> path_cost(
                    graph.vertices@,
                    p,
                ) >= u64::MAX,
        },
        (graph.start as int) < graph.vertices@.len() && graph.start == graph.end ==> r is Some,
        no_dup_targets(graph.vertices@) ==> (r matches Some(p) ==> (forall|q: Seq<usize>|
            is_path(graph.vertices@, q, graph.start, graph.end) ==> path_cost(
                graph.vertices@,
                p@,
            ) <= path_cost(graph.vertices@, q))),
{
    let ghost vs = graph.vertices@;
    let n = graph.vertices.len();
    let start = graph.start;
    let end = graph.end;
    if start >= n || end >= n {
        proof {
            assert forall|p: Seq<usize>| is_path(vs, p, start, end) implies path_cost(vs, p)
                >= u64::MAX by {
                assert((p[0] as int) < vs.len());
                assert((p[p.len() - 1] as int) < vs.len());
            }
        }
        return None;
    }
    let mut dists: Vec<u64> = Vec::new();
    let mut t: usize = 0;
    while t < n
        invariant
            t <= n,
            dists@.len() == t,
            forall|i: int| 0 <= i < t ==> dists@[i] == u64::MAX,
        decreases n - t,
    {
        dists.push(u64::MAX);
        t += 1;
    }
    let mut parent = vec_none(n);
    let mut heap: Vec<State> = Vec::new();
    dists.set(start, 0);
    heap.push(State { cost: 0, position: start });
    let ghost end_entry = State { cost: 0, position: start };
    let ghost mut processed = Set::<int>::empty();
    proof {
        assert(heap@[0] == State { cost: 0, position: start });
        assert(heap@.contains(State { cost: 0, position: start }));
        lemma_sum_nonneg(dists@);
    }
    while heap.len() != 0
        invariant
            n == vs.len(),
            vs == graph.vertices@,
            start == graph.start,
            end == graph.end,
            edges_ok(vs),
            (start as int) < n,
            (end as int) < n,
            dists@.len() == n,
            parent@.len() == n,
            dists@[start as int] == 0,
            parent@[start as int] is None,
            forall|hi: int|
                0 <= hi < heap@.len() ==> ((#[trigger] heap@[hi]).position as int) < n
                    && heap@[hi].cost >= dists@[heap@[hi].position as int] && heap@[hi].cost
                    < u64::MAX,
            forall|v: int|
                0 <= v < n ==> ((#[trigger] parent@[v]) matches Some(u) ==> (u as int) < n
                    && v != start && has_edge(vs, u as int, v) && dists@[u as int] < dists@[v]),
            forall|v: int|
                0 <= v < n && v != start && parent@[v] is None ==> dists@[v] == u64::MAX,
            start == end ==> heap@.contains(end_entry) && end_entry.position == end,
            sum_seq(dists@) >= 0,
            forall|v: int|
                #[trigger] processed.contains(v) ==> 0 <= v < n && v != end as int && dists@[v]
                    < u64::MAX,
            forall|v: int, k: int|
                #[trigger] processed.contains(v) && 0 <= v < vs.len() && 0 <= k
                    < vs[v].neighbors@.len() ==> dists@[(#[trigger] vs[v].neighbors@[k]).0 as int] as int
                    <= dists@[v] + vs[v].neighbors@[k].1,
            forall|v: int|
                0 <= v < n && dists@[v] < u64::MAX ==> processed.contains(v) || heap@.contains(
                    State { cost: dists@[v], position: v as usize },
                ),
            forall|v: int, hi: int|
                #[trigger] processed.contains(v) && 0 <= hi < heap@.len() ==> dists@[v] <= (
                #[trigger] heap@[hi]).cost,
            no_dup_targets(vs) ==> (forall|v: int|
                0 <= v < n ==> ((#[trigger] parent@[v]) matches Some(u) ==> dists@[v] as int
                    >= dists@[u as int] as int + edge_weight(
                    vs[u as int].neighbors@,
                    v as usize,
                ) as int)),
        decreases sum_seq(dists@), heap@.len(),
    {
        let ghost h0 = heap@;
        let ghost sum0 = sum_seq(dists@);
        let st = pop_min(&mut heap).unwrap();
        let cost = st.cost;
        let position = st.position;
        if position == end {
            proof {
                let rank2 = Map::<int, int>::new(
                    |v: int| true,
                    |v: int|
                        if 0 <= v < n {
                            dists@[v] as int
                        } else {
                            0
                        },
                );
                assert(parent_ranked(parent@, rank2));
            }
            let p = reconstruct_path(&parent, end);
            proof {
                if p@.len() >= 2 {
                    let i0: int = 0;
                    assert(parent@[p@[i0 + 1] as int] == Some(p@[i0]));
                    assert(dists@[p@[i0] as int] < dists@[p@[i0 + 1] as int]);
                    assert(p@[i0] == start);
                } else {
                    assert(p@[0] == end);
                    assert(dists@[end as int] <= cost < u64::MAX);
                    assert(p@[0] == start);
                }
                assert forall|i: int|
                    0 <= i < p@.len() - 1 implies has_edge(vs, #[trigger] p@[i] as int, p@[
                    i + 1
                ] as int) by {
                    assert(parent@[p@[i + 1] as int] == Some(p@[i]));
                }
                assert(is_path(vs, p@, start, end));
                if no_dup_targets(vs) {
                    lemma_parent_chain_cost(vs, dists@, parent@, p@, p@.len() - 1);
                    assert(p@.take(p@.len() as int) =~= p@);
                    assert(path_cost(vs, p@) <= dists@[end as int]);
                    let oi = choose|oi: int| 0 <= oi < h0.len() && h0[oi] == st;
                    assert(st.cost >= dists@[h0[oi].position as int]);
                    assert(st.cost >= dists@[end as int] && st.cost < u64::MAX);
                    assert forall|q: Seq<usize>| is_path(vs, q, start, end) implies path_cost(
                        vs,
                        p@,
                    ) <= path_cost(vs, q) by {
                        assert(!processed.contains(q[q.len() - 1] as int));
                        lemma_first_unprocessed(processed, q, q.len() - 1);
                        let j = choose|j: int|
                            0 <= j <= q.len() - 1 && !processed.contains(
                                #[trigger] q[j] as int,
                            ) && (forall|j2: int|
                                0 <= j2 < j ==> processed.contains(#[trigger] q[j2] as int));
                        lemma_dists_bound_prefix(vs, dists@, processed, q, start, end, j);
                        lemma_path_cost_prefix_le(vs, q, j);
                        if dists@[q[j] as int] < u64::MAX {
                            let w = State { cost: dists@[q[j] as int], position: q[j] };
                            assert(h0.contains(w));
                            let wi = choose|wi: int| 0 <= wi < h0.len() && h0[wi] == w;
                            assert(st.cost <= h0[wi].cost);
                        }
                    }
                }
            }
            return Some(p);
        }
        proof {
            if start == end {
                assert(h0.contains(end_entry));
                assert(end_entry != st);
                assert(heap@.contains(end_entry));
            }
            lemma_sum_nonneg(dists@);
            assert(h0.contains(st));
            assert forall|v: int, hi: int|
                #[trigger] processed.contains(v) && 0 <= hi < heap@.len() implies dists@[v] <= (
            #[trigger] heap@[hi]).cost by {
                assert(h0.contains(heap@[hi]));
                let oi = choose|oi: int| 0 <= oi < h0.len() && h0[oi] == heap@[hi];
                assert(dists@[v] <= h0[oi].cost);
            }
        }
        if cost > dists[position] {
            proof {
                assert forall|v: int|
                    0 <= v < n && dists@[v] < u64::MAX && !processed.contains(v) implies
                    heap@.contains(State { cost: dists@[v], position: v as usize }) by {
                    let w = State { cost: dists@[v], position: v as usize };
                    assert(w != st);
                    assert(h0.contains(w));
                }
            }
            continue ;
        }
        proof {
            assert(cost == dists@[position as int]);
            assert forall|v: int| #[trigger] processed.contains(v) implies dists@[v] <= cost by {
                let oi = choose|oi: int| 0 <= oi < h0.len() && h0[oi] == st;
                assert(dists@[v] <= h0[oi].cost);
            }
            assert forall|hi: int|
                0 <= hi < heap@.len() implies (#[trigger] heap@[hi]).cost >= cost by {
                assert(h0.contains(heap@[hi]));
                let oi = choose|oi: int| 0 <= oi < h0.len() && h0[oi] == heap@[hi];
                assert(st.cost <= h0[oi].cost);
            }
            assert forall|v: int|
                0 <= v < n && dists@[v] < u64::MAX && v != position as int && !processed.contains(
                    v,
                ) implies heap@.contains(State { cost: dists@[v], position: v as usize }) by {
                let w = State { cost: dists@[v], position: v as usize };
                assert(w != st);
                assert(h0.contains(w));
            }
        }
        let ghost hlen_in = heap@.len();
        let ghost sum_in = sum_seq(dists@);
        let mut k: usize = 0;
        let deg = graph.vertices[position].neighbors.len();
        while k < deg
            invariant
                n == vs.len(),
                vs == graph.vertices@,
                start == graph.start,
                end == graph.end,
                edges_ok(vs),
                (start as int) < n,
                (end as int) < n,
                (position as int) < n,
                position != end,
                deg == vs[position as int].neighbors@.len(),
                k <= deg,
                dists@.len() == n,
                parent@.len() == n,
                dists@[start as int] == 0,
                parent@[start as int] is None,
                cost == dists@[position as int],
                forall|hi: int|
                    0 <= hi < heap@.len() ==> ((#[trigger] heap@[hi]).position as int) < n
                        && heap@[hi].cost >= dists@[heap@[hi].position as int] && heap@[hi].cost
                        < u64::MAX,
                forall|v: int|
                    0 <= v < n ==> ((#[trigger] parent@[v]) matches Some(u) ==> (u as int) < n
                        && v != start && has_edge(vs, u as int, v) && dists@[u as int]
                        < dists@[v]),
                forall|v: int|
                    0 <= v < n && v != start && parent@[v] is None ==> dists@[v] == u64::MAX,
                start == end ==> heap@.contains(end_entry) && end_entry.position == end,
                sum_seq(dists@) >= 0,
                sum_seq(dists@) <= sum_in,
                sum_seq(dists@) == sum_in ==> heap@.len() == hlen_in,
                cost < u64::MAX,
                forall|hi: int| 0 <= hi < heap@.len() ==> (#[trigger] heap@[hi]).cost >= cost,
                forall|v: int|
                    #[trigger] processed.contains(v) ==> 0 <= v < n && v != end as int && dists@[v]
                        < u64::MAX && dists@[v] <= cost,
                forall|v: int, k2: int|
                    #[trigger] processed.contains(v) && 0 <= v < vs.len() && 0 <= k2
                        < vs[v].neighbors@.len() ==> dists@[(
                    #[trigger] vs[v].neighbors@[k2]).0 as int] as int <= dists@[v]
                        + vs[v].neighbors@[k2].1,
                forall|v: int|
                    0 <= v < n && dists@[v] < u64::MAX && v != position as int ==>
                        processed.contains(v) || heap@.contains(
                        State { cost: dists@[v], position: v as usize },
                    ),
                forall|k2: int|
                    0 <= k2 < k ==> dists@[(
                    #[trigger] vs[position as int].neighbors@[k2]).0 as int] as int <= cost
                        + vs[position as int].neighbors@[k2].1,
                no_dup_targets(vs) ==> (forall|v: int|
                    0 <= v < n ==> ((#[trigger] parent@[v]) matches Some(u) ==> dists@[v] as int
                        >= dists@[u as int] as int + edge_weight(
                        vs[u as int].neighbors@,
                        v as usize,
                    ) as int)),
            decreases deg - k,
        {
            let e = graph.vertices[position].neighbors[k];
            let nb = e.0;
            let wt = e.1;
            proof {
                assert(vs[position as int].neighbors@[k as int].0 < n);
                assert(vs[position as int].neighbors@[k as int].1 >= 1);
            }
            if cost <= u64::MAX - wt {
                let next_dist = cost + wt;
                if next_dist < dists[nb] {
                    let ghost hprev = heap@;
                    let ghost dprev = dists@;
                    dists.set(nb, next_dist);
                    parent.set(nb, Some(position));
                    heap.push(State { cost: next_dist, position: nb });
                    proof {
                        lemma_sum_update(dprev, nb as int, next_dist);
                        assert forall|u: State| #[trigger] hprev.contains(u) implies
                            heap@.contains(u) by {
                            let hj = choose|hj: int| 0 <= hj < hprev.len() && hprev[hj] == u;
                            assert(heap@[hj] == u);
                        }
                        assert(heap@[heap@.len() - 1] == State {
                            cost: next_dist,
                            position: nb,
                        });
                        if start == end {
                            assert(hprev.contains(end_entry));
                            assert(heap@.contains(end_entry));
                        }
                        lemma_sum_nonneg(dists@);
                        assert(!processed.contains(nb as int)) by {
                            if processed.contains(nb as int) {
                                assert(dprev[nb as int] <= cost);
                            }
                        }
                        assert(dists@[(vs[position as int].neighbors@[k as int]).0 as int]
                            == next_dist);
                        if no_dup_targets(vs) {
                            assert forall|k1: int, k2: int|
                                0 <= k1 < k2 < vs[position as int].neighbors@.len() implies (
                            #[trigger] vs[position as int].neighbors@[k1]).0 != (
                            #[trigger] vs[position as int].neighbors@[k2]).0 by {}
                            lemma_unique_target_weight(
                                vs[position as int].neighbors@,
                                k as int,
                                nb,
                            );
                            assert(dists@[nb as int] as int == dists@[position as int] as int
                                + edge_weight(vs[position as int].neighbors@, nb) as int);
                            assert forall|v: int|
                                0 <= v < n implies ((#[trigger] parent@[v]) matches Some(u)
                                ==> dists@[v] as int >= dists@[u as int] as int + edge_weight(
                                vs[u as int].neighbors@,
                                v as usize,
                            ) as int) by {
                                if v != nb as int && parent@[v] is Some {
                                    let u = parent@[v]->0;
                                    assert(dists@[v] == dprev[v]);
                                    if u == nb {
                                        assert(dprev[v] as int >= dprev[nb as int] as int
                                            + edge_weight(
                                            vs[nb as int].neighbors@,
                                            v as usize,
                                        ) as int);
                                        assert(dists@[nb as int] < dprev[nb as int]);
                                    } else {
                                        assert(dists@[u as int] == dprev[u as int]);
                                    }
                                }
                            }
                        }
                        assert forall|v: int|
                            0 <= v < n && dists@[v] < u64::MAX && v != position as int
                                && !processed.contains(v) implies heap@.contains(
                            State { cost: dists@[v], position: v as usize },
                        ) by {
                            if v == nb as int {
                                assert(heap@[heap@.len() - 1] == State {
                                    cost: dists@[v],
                                    position: v as usize,
                                });
                            } else {
                                assert(dists@[v] == dprev[v]);
                                assert(hprev.contains(State {
                                    cost: dists@[v],
                                    position: v as usize,
                                }));
                            }
                        }
                    }
                }
            }
            k += 1;
        }
        proof {
            processed = processed.insert(position as int);
            assert(dists@[position as int] == cost && cost < u64::MAX);
            assert forall|v: int, k2: int|
                #[trigger] processed.contains(v) && 0 <= v < vs.len() && 0 <= k2
                    < vs[v].neighbors@.len() implies dists@[(
            #[trigger] vs[v].neighbors@[k2]).0 as int] as int <= dists@[v]
                + vs[v].neighbors@[k2].1 by {
                if v != position as int {
                    assert(processed.remove(position as int).contains(v)
                        == processed.contains(v));
                }
            }
            assert forall|v: int|
                0 <= v < n && dists@[v] < u64::MAX implies processed.contains(v)
                || heap@.contains(State { cost: dists@[v], position: v as usize }) by {
                if v == position as int {
                    assert(processed.contains(v));
                }
            }
        }
    }
    proof {
        if start == end {
            assert(false);
        }
        assert forall|v: int| 0 <= v < n && dists@[v] < u64::MAX implies processed.contains(
            v,
        ) by {
            if !processed.contains(v) {
                assert(heap@.contains(State { cost: dists@[v], position: v as usize }));
            }
        }
        assert(dists@[end as int] == u64::MAX) by {
            if dists@[end as int] < u64::MAX {
                assert(processed.contains(end as int));
            }
        }
        assert forall|p: Seq<usize>| is_path(vs, p, start, end) implies path_cost(vs, p)
            >= u64::MAX by {
            if path_cost(vs, p) < u64::MAX {
                lemma_relaxed_dists_bound_path(vs, dists@, processed, p, start, end, p.len() - 1);
                assert(p.take(p.len() as int) =~= p);
                assert(dists@[end as int] as int <= path_cost(vs, p));
            }
        }
    }
    None
}

/// The weight of the first stored edge from a list that aims at `to`;
/// zero when no such edge is stored.
pub open spec fn edge_weight(nbrs: Seq<(usize, u64)>, to: usize) -> u64 {
    if find_to(nbrs, to) < 0 {
        0
    } else {
        nbrs[find_to(nbrs, to)].1
    }
}

/// The total weight of a walk: for each consecutive pair, the weight of the
/// first stored edge between them, a missing edge counting as zero.
pub open spec fn path_cost<T>(vs: Seq<Vertex<T>>, p: Seq<usize>) -> int
    decreases p.len(),
{
    if p.len() <= 1 {
        0
    } else {
        path_cost(vs, p.drop_last()) + ({
            let a = p[p.len() - 2] as int;
            if 0 <= a < vs.len() {
                edge_weight(vs[a].neighbors@, p[p.len() - 1]) as int
            } else {
                0
            }
        })
    }
}

/// The weight of the first edge of `v` aiming at `to`, or zero.
fn get_weight<T>(v: &Vertex<T>, to: usize) -> (w: u64)
    ensures
        w == edge_weight(v.neighbors@, to),
{
    let ghost nb0 = v.neighbors@;
    proof {
        lemma_find_to(nb0, to);
    }
    let len = v.neighbors.len();
    let mut k: usize = 0;
    while k < len
        invariant
            nb0 == v.neighbors@,
            len == nb0.len(),
            k <= len,
            forall|idx: int| 0 <= idx < k ==> (#[trigger] nb0[idx]).0 != to,
            find_to(nb0, to) >= 0 ==> 0 <= find_to(nb0, to) < nb0.len() && nb0[find_to(
                nb0,
                to,
            )].0 == to && (forall|idx: int|
                0 <= idx < find_to(nb0, to) ==> (#[trigger] nb0[idx]).0 != to),
            find_to(nb0, to) < 0 ==> (forall|idx: int|
                0 <= idx < nb0.len() ==> (#[trigger] nb0[idx]).0 != to),
        decreases len - k,
    {
        if v.neighbors[k].0 == to {
            proof {
                assert(find_to(nb0, to) == k);
            }
            return v.neighbors[k].1;
        }
        k += 1;
    }
    proof {
        if find_to(nb0, to) >= 0 {
            assert(nb0[find_to(nb0, to)].0 != to);
        }
    }
    0
}

/// The cost evaluator: sums the stored edge weight of each consecutive pair
/// of the solution, saturating at the largest representable total; a pair
/// with no stored edge silently contributes zero.
pub fn calculate_cost<T>(graph: &Graph<T>, solution: &Vec<usize>) -> (r: u64)
    requires
        forall|i: int|
            0 <= i < solution@.len() ==> (#[trigger] solution@[i] as int)
                < graph.vertices@.len(),
    ensures
        path_cost(graph.vertices@, solution@) <= u64::MAX ==> r as int == path_cost(
            graph.vertices@,
            solution@,
        ),
        path_cost(graph.vertices@, solution@) > u64::MAX ==> r == u64::MAX,
{
    let ghost vs = graph.vertices@;
    let mut tot: u64 = 0;
    let len = solution.len();
    if len == 0 {
        return 0;
    }
    let mut i: usize = 0;
    while i < len - 1
        invariant
            vs == graph.vertices@,
            len == solution@.len(),
            len >= 1,
            i <= len - 1,
            forall|j: int| 0 <= j < len ==> (#[trigger] solution@[j] as int) < vs.len(),
            (path_cost(vs, solution@.take(i as int + 1)) <= u64::MAX && tot as int == path_cost(
                vs,
                solution@.take(i as int + 1),
            )) || (path_cost(vs, solution@.take(i as int + 1)) > u64::MAX && tot == u64::MAX),
        decreases len - 1 - i,
    {
        let current = *solution.get(i).unwrap();
        let next = *solution.get(i + 1).unwrap();
        let w = get_weight(&graph.vertices[current], next);
        let ghost pref = solution@.take(i as int + 1);
        let ghost pref2 = solution@.take(i as int + 2);
        proof {
            assert(pref2.drop_last() =~= pref);
            assert(pref2[pref2.len() - 2] == solution@[i as int]);
            assert(pref2[pref2.len() - 1] == solution@[i as int + 1]);
            assert(path_cost(vs, pref2) == path_cost(vs, pref) + edge_weight(
                vs[solution@[i as int] as int].neighbors@,
                solution@[i as int + 1],
            ));
        }
        if tot <= u64::MAX - w {
            tot = tot + w;
        } else {
            tot = u64::MAX;
        }
        i += 1;
    }
    proof {
        assert(solution@.take(len as int) =~= solution@);
    }
    tot
}

/// Dispatches a graph to the chosen search strategy. Depth-first and
/// breadth-first return a path exactly when one exists; breadth-first's has
/// the fewest edges. The weighted search returns only genuine stored-edge
/// paths, succeeds whenever start and end coincide on a vertex, and on a
/// graph with at most one stored edge per target its path's cost is minimal.
pub fn solve_graph<T>(graph: &Graph<T>, algo: &PathfindingAlgorithm) -> (r: Option<Vec<usize>>)
    requires
        graph.wf(),
    ensures
        match r {
            Some(p) => is_path(graph.vertices@, p@, graph.start, graph.end) && (forall|
                i: int,
                j: int,
            |
                0 <= i < j < p@.len() ==> p@[i] != p@[j]),
            None => true,
        },
        !(algo is Dijkstra) ==> (r is Some <==> reachable(
            graph.vertices@,
            graph.start,
            graph.end,
        )),
        algo is Dijkstra && (graph.start as int) < graph.vertices@.len() && graph.start
            == graph.end ==> r is Some,
        algo is Dijkstra && r is None ==> forall|p: Seq<usize>|
            is_path(graph.vertices@, p, graph.start, graph.end) ==> path_cost(
                graph.vertices@,
                p,
            ) >= u64::MAX,
        algo is BreadthFirst ==> (r matches Some(p) ==> (forall|q: Seq<usize>|
            is_path(graph.vertices@, q, graph.start, graph.end) ==> p@.len() <= q.len())),
        algo is Dijkstra && no_dup_targets(graph.vertices@) ==> (r matches Some(p) ==> (forall|
            q: Seq<usize>,
        |
            is_path(graph.vertices@, q, graph.start, graph.end) ==> path_cost(
                graph.vertices@,
                p@,
            ) <= path_cost(graph.vertices@, q))),
{
    let r = match algo {
        PathfindingAlgorithm::DepthFirst => dfs_iterative(graph),
        PathfindingAlgorithm::BreadthFirst => bfs(graph),
        PathfindingAlgorithm::Dijkstra => dijkstra(graph),
    };
    proof {
        if r is Some && !(algo is Dijkstra) {
            let p = r->Some_0;
            assert(is_path(graph.vertices@, p@, graph.start, graph.end));
            assert(reachable(graph.vertices@, graph.start, graph.end));
        }
    }
    r
}

/// A graph with no vertices has no path between any pair of endpoints, so
/// every strategy reports "no path found" on it.
pub proof fn lemma_empty_graph_no_path<T>(vs: Seq<Vertex<T>>, start: usize, end: usize)
    requires
        vs.len() == 0,
    ensures
        !reachable(vs, start, end),
{
    if reachable(vs, start, end) {
        let p = choose|p: Seq<usize>| is_path(vs, p, start, end);
        assert((p[0] as int) < vs.len());
    }
}

} // verus!
