use crate::coord::{Adjacent, Coord};
use crate::lookup::{coord_key, key_of, lemma_key_injective, table_get, table_insert, table_new};
use rustc_hash::FxHashMap;
use vstd::arithmetic::div_mod::{lemma_div_pos_is_pos, lemma_fundamental_div_mod, lemma_mod_pos_bound};
use vstd::prelude::*;

verus! {

/// One traversable cell: its fixed position and its ordered edge list.
/// Each edge is a pair (target vertex index, weight).
pub struct Vertex<T> {
    pub pos: T,
    pub neighbors: Vec<(usize, u64)>,
}

impl<T> Vertex<T> {
    pub fn get_neighbors(&self) -> (r: &Vec<(usize, u64)>)
        ensures
            r@ == self.neighbors@,
    {
        &self.neighbors
    }

    /// Replaces the edge at slot `k`.
    fn set_edge(&mut self, k: usize, e: (usize, u64))
        requires
            (k as int) < old(self).neighbors@.len(),
        ensures
            final(self).pos == old(self).pos,
            final(self).neighbors@ == old(self).neighbors@.update(k as int, e),
    {
        self.neighbors.set(k, e);
    }

    /// Empties the edge list.
    fn drop_edges(&mut self)
        ensures
            final(self).pos == old(self).pos,
            final(self).neighbors@ == Seq::<(usize, u64)>::empty(),
    {
        self.neighbors = Vec::new();
    }
}

/// The sequence of positions of a vertex list, index-aligned with it.
pub open spec fn pos_seq<T>(vs: Seq<Vertex<T>>) -> Seq<T> {
    Seq::new(vs.len(), |i: int| vs[i].pos)
}

/// No two entries are equal.
pub open spec fn distinct_seq<T>(ps: Seq<T>) -> bool {
    forall|i: int, j: int| 0 <= i < j < ps.len() ==> ps[i] != ps[j]
}

/// Every stored edge aims at a valid vertex index and carries a positive weight.
pub open spec fn edges_ok<T>(vs: Seq<Vertex<T>>) -> bool {
    forall|i: int, k: int|
        0 <= i < vs.len() && 0 <= k < vs[i].neighbors@.len() ==> ((#[trigger] vs[i].neighbors@[k]).0
            < vs.len() && vs[i].neighbors@[k].1 >= 1)
}

/// The immutable adjacency-list graph: an index-stable vertex sequence plus
/// the two distinguished endpoint indices.
pub struct Graph<T> {
    pub start: usize,
    pub end: usize,
    pub vertices: Vec<Vertex<T>>,
}

impl<T> Graph<T> {
    /// Structural invariant established by construction.
    pub open spec fn wf(&self) -> bool {
        edges_ok(self.vertices@)
    }

    pub fn get_vertices(&self) -> (r: &Vec<Vertex<T>>)
        ensures
            r@ == self.vertices@,
    {
        &self.vertices
    }
}

/// The positions of the open (non-zero) cells among the first `n` cells of a
/// row-major raster of the given width, in scan order.
pub open spec fn sample_positions(cells: Seq<u8>, width: int, n: int) -> Seq<Coord>
    decreases n,
{
    if n <= 0 || width <= 0 {
        Seq::empty()
    } else {
        sample_positions(cells, width, n - 1) + (if cells[n - 1] != 0 {
            seq![Coord { x: (((n - 1) % width) as u32), y: (((n - 1) / width) as u32) }]
        } else {
            Seq::empty()
        })
    }
}

/// A cell index below `w * h` splits into a row below `h` and a column below `w`.
proof fn lemma_cell_split(q: int, r: int, w: int, h: int)
    by (nonlinear_arith)
    requires
        w >= 1,
        0 <= r < w,
        0 <= q,
        w * q + r < w * h,
    ensures
        q < h,
        q * w == w * q,
{
}

/// The grid sampler: one vertex per open cell, with an empty edge list, in
/// row-major scan order. Walls (zero cells) are skipped; an all-wall raster
/// yields an empty vertex list.
pub fn create_vertices(cells: &Vec<u8>, width: u32, height: u32) -> (r: Vec<Vertex<Coord>>)
    requires
        width >= 1,
        cells@.len() == width * height,
    ensures
        pos_seq(r@) == sample_positions(cells@, width as int, cells@.len() as int),
        forall|i: int| 0 <= i < r@.len() ==> r@[i].neighbors@.len() == 0,
        distinct_seq(pos_seq(r@)),
        forall|i: int|
            0 <= i < r@.len() ==> (#[trigger] r@[i].pos).x < width && r@[i].pos.y < height,
{
    let mut r: Vec<Vertex<Coord>> = Vec::new();
    let mut n: usize = 0;
    let len = cells.len();
    let w = width as usize;
    while n < len
        invariant
            width >= 1,
            w == width,
            len == cells@.len(),
            cells@.len() == width * height,
            n <= len,
            pos_seq(r@) == sample_positions(cells@, width as int, n as int),
            forall|i: int| 0 <= i < r@.len() ==> r@[i].neighbors@.len() == 0,
            forall|i: int|
                0 <= i < r@.len() ==> (#[trigger] r@[i].pos).x < width && r@[i].pos.y < height,
            forall|i: int|
                0 <= i < r@.len() ==> (#[trigger] r@[i].pos).y * width + r@[i].pos.x < n,
            forall|i: int, j: int|
                0 <= i < j < r@.len() ==> (#[trigger] r@[i].pos).y * width + r@[i].pos.x < (
                #[trigger] r@[j].pos).y * width + r@[j].pos.x,
        decreases len - n,
    {
        if cells[n] != 0 {
            proof {
                lemma_fundamental_div_mod(n as int, w as int);
                lemma_mod_pos_bound(n as int, w as int);
                lemma_div_pos_is_pos(n as int, w as int);
                lemma_cell_split(
                    n as int / w as int,
                    n as int % w as int,
                    w as int,
                    height as int,
                );
            }
            let x = (n % w) as u32;
            let y = (n / w) as u32;
            assert(y * width + x == n);
            r.push(Vertex { pos: Coord { x, y }, neighbors: Vec::new() });
        }
        n += 1;
        proof {
            assert(pos_seq(r@) =~= sample_positions(cells@, width as int, n as int));
        }
    }
    proof {
        assert forall|i: int, j: int| 0 <= i < j < pos_seq(r@).len() implies pos_seq(r@)[i]
            != pos_seq(r@)[j] by {
            assert(r@[i].pos.y * width + r@[i].pos.x < r@[j].pos.y * width + r@[j].pos.x);
        }
    }
    r
}

/// Some entry of `ps` equals `c`.
pub open spec fn has_pos(ps: Seq<Coord>, c: Coord) -> bool {
    exists|j: int| 0 <= j < ps.len() && ps[j] == c
}

/// The index of the entry of `ps` that equals `c` (unique when `ps` is distinct).
pub open spec fn index_of_pos(ps: Seq<Coord>, c: Coord) -> int {
    choose|j: int| 0 <= j < ps.len() && ps[j] == c
}

/// The edge list the adjacency builder produces from a candidate list:
/// one unit-weight edge per candidate position present in `ps`, in order.
pub open spec fn edges_for(ps: Seq<Coord>, cands: Seq<Coord>) -> Seq<(usize, u64)>
    decreases cands.len(),
{
    if cands.len() == 0 {
        Seq::empty()
    } else {
        edges_for(ps, cands.drop_last()) + (if has_pos(ps, cands.last()) {
            seq![(index_of_pos(ps, cands.last()) as usize, 1u64)]
        } else {
            Seq::empty()
        })
    }
}

/// The adjacency builder's full effect: positions kept, and every vertex's
/// edge list is exactly the unit-weight edges to its present neighbors.
pub open spec fn adjacency_built(ps: Seq<Coord>, vs: Seq<Vertex<Coord>>) -> bool {
    vs.len() == ps.len() && (forall|i: int|
        0 <= i < vs.len() ==> (#[trigger] vs[i]).pos == ps[i] && vs[i].neighbors@ == edges_for(
            ps,
            ps[i].candidate_neighbors(),
        ))
}

/// The lookup table models the position sequence: every position's key maps
/// to its index, and nothing else is in the table.
pub open spec fn table_models(m: Map<u64, usize>, ps: Seq<Coord>) -> bool {
    (forall|j: int|
        0 <= j < ps.len() ==> m.dom().contains(#[trigger] key_of(ps[j])) && m[key_of(ps[j])] as int
            == j) && (forall|k: u64|
        m.dom().contains(k) ==> exists|j: int| 0 <= j < ps.len() && k == #[trigger] key_of(ps[j]))
}

/// Builds the position-to-index lookup table for a vertex list.
pub fn build_pos_map(vertices: &Vec<Vertex<Coord>>) -> (m: FxHashMap<u64, usize>)
    requires
        distinct_seq(pos_seq(vertices@)),
    ensures
        table_models(m@, pos_seq(vertices@)),
{
    let ghost ps = pos_seq(vertices@);
    let mut m = table_new();
    let mut j: usize = 0;
    while j < vertices.len()
        invariant
            j <= vertices@.len(),
            ps == pos_seq(vertices@),
            distinct_seq(ps),
            table_models(m@, ps.take(j as int)),
        decreases vertices@.len() - j,
    {
        let k = coord_key(&vertices[j].pos);
        table_insert(&mut m, k, j);
        proof {
            let pre = ps.take(j as int);
            let now = ps.take(j as int + 1);
            assert(now.drop_last() =~= pre);
            assert forall|j2: int|
                0 <= j2 < now.len() implies m@.dom().contains(#[trigger] key_of(now[j2]))
                && m@[key_of(now[j2])] as int == j2 by {
                if j2 < j as int {
                    lemma_key_injective(ps[j2], ps[j as int]);
                }
            }
            assert forall|k2: u64| m@.dom().contains(k2) implies exists|j2: int|
                0 <= j2 < now.len() && k2 == #[trigger] key_of(now[j2]) by {
                if k2 == key_of(ps[j as int]) {
                    assert(now[j as int] == ps[j as int]);
                    assert(k2 == key_of(now[j as int]));
                } else {
                    let j2 = choose|j2: int| 0 <= j2 < pre.len() && k2 == #[trigger] key_of(pre[j2]);
                    assert(k2 == key_of(now[j2]));
                }
            }
        }
        j += 1;
    }
    proof {
        assert(ps.take(ps.len() as int) =~= ps);
    }
    m
}

/// Looks a position up in the table: returns its vertex index exactly when
/// the position was sampled.
fn lookup_pos(m: &FxHashMap<u64, usize>, Ghost(ps): Ghost<Seq<Coord>>, c: Coord) -> (r: Option<
    usize,
>)
    requires
        distinct_seq(ps),
        table_models(m@, ps),
    ensures
        r == (if has_pos(ps, c) {
            Some(index_of_pos(ps, c) as usize)
        } else {
            None::<usize>
        }),
        r is Some ==> 0 <= index_of_pos(ps, c) < ps.len(),
{
    let r = table_get(m, coord_key(&c));
    proof {
        match r {
            Some(j) => {
                let j0 = choose|j0: int| 0 <= j0 < ps.len() && key_of(c) == #[trigger] key_of(
                    ps[j0],
                );
                lemma_key_injective(c, ps[j0]);
                assert(ps[j0] == c);
                assert(has_pos(ps, c));
                let j1 = index_of_pos(ps, c);
                assert(0 <= j1 < ps.len() && ps[j1] == c);
                assert(j1 == j0) by {
                    if j1 < j0 {
                        assert(ps[j1] != ps[j0]);
                    } else if j0 < j1 {
                        assert(ps[j0] != ps[j1]);
                    }
                }
                assert(j as int == j0);
            },
            None => {
                assert(!has_pos(ps, c)) by {
                    if has_pos(ps, c) {
                        let j0 = choose|j0: int| 0 <= j0 < ps.len() && ps[j0] == c;
                        assert(m@.dom().contains(key_of(ps[j0])));
                    }
                }
            },
        }
    }
    r
}

/// The adjacency builder: for every vertex, record a unit-weight edge to each
/// of its up-to-4 orthogonal neighbors that is itself a sampled vertex.
pub fn populate_vertex_neighbors(vertices: &mut Vec<Vertex<Coord>>)
    requires
        distinct_seq(pos_seq(old(vertices)@)),
        forall|i: int| 0 <= i < old(vertices)@.len() ==> old(vertices)@[i].neighbors@.len() == 0,
    ensures
        adjacency_built(pos_seq(old(vertices)@), final(vertices)@),
{
    let ghost ps = pos_seq(vertices@);
    let m = build_pos_map(vertices);
    let mut out: Vec<Vertex<Coord>> = Vec::new();
    let mut i: usize = 0;
    while i < vertices.len()
        invariant
            i <= vertices@.len(),
            ps == pos_seq(vertices@),
            ps.len() == vertices@.len(),
            distinct_seq(ps),
            table_models(m@, ps),
            out@.len() == i,
            forall|i2: int|
                0 <= i2 < i as int ==> (#[trigger] out@[i2]).pos == ps[i2]
                    && out@[i2].neighbors@ == edges_for(ps, ps[i2].candidate_neighbors()),
        decreases vertices@.len() - i,
    {
        let p = vertices[i].pos;
        let cands = p.potential_neighbors();
        let mut edges: Vec<(usize, u64)> = Vec::new();
        let mut k: usize = 0;
        while k < cands.len()
            invariant
                k <= cands@.len(),
                cands@ == p.candidate_neighbors(),
                distinct_seq(ps),
                table_models(m@, ps),
                edges@ == edges_for(ps, cands@.take(k as int)),
            decreases cands@.len() - k,
        {
            let c = cands[k];
            let r = lookup_pos(&m, Ghost(ps), c);
            proof {
                assert(cands@.take(k as int + 1).drop_last() =~= cands@.take(k as int));
                assert(cands@.take(k as int + 1).last() == c);
            }
            match r {
                Some(j) => {
                    edges.push((j, 1u64));
                    proof {
                        assert(edges@ =~= edges_for(ps, cands@.take(k as int + 1)));
                    }
                },
                None => {
                    proof {
                        assert(edges@ =~= edges_for(ps, cands@.take(k as int + 1)));
                    }
                },
            }
            k += 1;
        }
        proof {
            assert(cands@.take(cands@.len() as int) =~= cands@);
        }
        out.push(Vertex { pos: p, neighbors: edges });
        i += 1;
    }
    *vertices = out;
}

/// An edge stands in a built edge list exactly when it is a unit-weight edge
/// to a vertex whose position is among the candidates.
pub proof fn lemma_edges_for_mem(ps: Seq<Coord>, cands: Seq<Coord>, e: (usize, u64))
    requires
        distinct_seq(ps),
        ps.len() <= usize::MAX,
    ensures
        edges_for(ps, cands).contains(e) <==> (e.1 == 1 && (e.0 as int) < ps.len()
            && cands.contains(ps[e.0 as int])),
    decreases cands.len(),
{
    if cands.len() == 0 {
    } else {
        let pre = cands.drop_last();
        let c = cands.last();
        lemma_edges_for_mem(ps, pre, e);
        let es = edges_for(ps, cands);
        let epre = edges_for(ps, pre);
        if es.contains(e) {
            let idx = choose|idx: int| 0 <= idx < es.len() && es[idx] == e;
            if idx < epre.len() {
                assert(epre[idx] == e);
                assert(epre.contains(e));
                let ci = choose|ci: int| 0 <= ci < pre.len() && pre[ci] == ps[e.0 as int];
                assert(cands[ci] == ps[e.0 as int]);
            } else {
                assert(has_pos(ps, c));
                assert(e == (index_of_pos(ps, c) as usize, 1u64));
                let j1 = index_of_pos(ps, c);
                assert(0 <= j1 < ps.len() && ps[j1] == c);
                assert(ps[e.0 as int] == c);
                assert(cands[cands.len() - 1] == ps[e.0 as int]);
            }
        }
        if e.1 == 1 && (e.0 as int) < ps.len() && cands.contains(ps[e.0 as int]) {
            let ci = choose|ci: int| 0 <= ci < cands.len() && cands[ci] == ps[e.0 as int];
            if ci < cands.len() - 1 {
                assert(pre[ci] == ps[e.0 as int]);
                assert(pre.contains(ps[e.0 as int]));
                assert(epre.contains(e));
                let idx = choose|idx: int| 0 <= idx < epre.len() && epre[idx] == e;
                assert(es[idx] == e);
            } else {
                assert(c == ps[e.0 as int]);
                assert(has_pos(ps, c));
                let j1 = index_of_pos(ps, c);
                assert(0 <= j1 < ps.len() && ps[j1] == c);
                assert(j1 == e.0 as int) by {
                    if j1 < (e.0 as int) {
                        assert(ps[j1] != ps[e.0 as int]);
                    } else if (e.0 as int) < j1 {
                        assert(ps[e.0 as int] != ps[j1]);
                    }
                }
                assert(es[es.len() - 1] == e);
            }
        }
    }
}

/// Symmetry of built adjacency: if vertex `i` lists an edge `e`, then the
/// vertex `e` aims at lists a unit-weight edge back to `i`, and `e` itself
/// has unit weight. Ignores any later reduction.
pub proof fn lemma_adjacency_symmetric(
    ps: Seq<Coord>,
    vs: Seq<Vertex<Coord>>,
    i: usize,
    e: (usize, u64),
)
    requires
        distinct_seq(ps),
        ps.len() <= usize::MAX,
        adjacency_built(ps, vs),
        (i as int) < vs.len(),
        vs[i as int].neighbors@.contains(e),
    ensures
        (e.0 as int) < vs.len(),
        e.1 == 1,
        vs[e.0 as int].neighbors@.contains((i, 1u64)),
{
    lemma_edges_for_mem(ps, ps[i as int].candidate_neighbors(), e);
    crate::coord::lemma_candidates_are_adjacent(ps[i as int], ps[e.0 as int]);
    crate::coord::lemma_candidates_are_adjacent(ps[e.0 as int], ps[i as int]);
    lemma_edges_for_mem(ps, ps[e.0 as int].candidate_neighbors(), (i, 1u64));
}

/// The edge lists of a vertex sequence, index-aligned with it.
pub open spec fn edge_seqs<T>(vs: Seq<Vertex<T>>) -> Seq<Seq<(usize, u64)>> {
    Seq::new(vs.len(), |i: int| vs[i].neighbors@)
}

/// Weight combination used by the reducer: an ordinary sum, saturating at
/// the largest representable weight.
pub open spec fn sat_add(a: u64, b: u64) -> u64 {
    if a + b > u64::MAX {
        u64::MAX
    } else {
        (a + b) as u64
    }
}

/// Index of the first edge aiming at `from`, or -1 when there is none.
pub open spec fn find_to(nbrs: Seq<(usize, u64)>, from: usize) -> int
    decreases nbrs.len(),
{
    if nbrs.len() == 0 {
        -1
    } else if nbrs[0].0 == from {
        0
    } else {
        let f = find_to(nbrs.skip(1), from);
        if f < 0 {
            -1
        } else {
            f + 1
        }
    }
}

pub proof fn lemma_find_to(nbrs: Seq<(usize, u64)>, from: usize)
    ensures
        find_to(nbrs, from) >= 0 ==> 0 <= find_to(nbrs, from) < nbrs.len() && nbrs[find_to(
            nbrs,
            from,
        )].0 == from && (forall|idx: int|
            0 <= idx < find_to(nbrs, from) ==> (#[trigger] nbrs[idx]).0 != from),
        find_to(nbrs, from) < 0 ==> (forall|idx: int|
            0 <= idx < nbrs.len() ==> (#[trigger] nbrs[idx]).0 != from),
    decreases nbrs.len(),
{
    if nbrs.len() == 0 {
    } else if nbrs[0].0 == from {
    } else {
        let tail = nbrs.skip(1);
        lemma_find_to(tail, from);
        let f = find_to(nbrs, from);
        if f >= 0 {
            assert(nbrs[f] == tail[f - 1]);
            assert forall|idx: int| 0 <= idx < f implies (#[trigger] nbrs[idx]).0 != from by {
                if idx > 0 {
                    assert(nbrs[idx] == tail[idx - 1]);
                    assert(tail[idx - 1].0 != from);
                }
            }
        } else {
            assert forall|idx: int| 0 <= idx < nbrs.len() implies (#[trigger] nbrs[idx]).0
                != from by {
                if idx > 0 {
                    assert(nbrs[idx] == tail[idx - 1]);
                    assert(tail[idx - 1].0 != from);
                }
            }
        }
    }
}

/// Rewrites the first edge aiming at `from` so it aims at `to` with weight
/// `w`; leaves the list unchanged when no edge aims at `from`.
pub open spec fn rewrite_to(nbrs: Seq<(usize, u64)>, from: usize, to: usize, w: u64) -> Seq<
    (usize, u64),
> {
    let f = find_to(nbrs, from);
    if f < 0 {
        nbrs
    } else {
        nbrs.update(f, (to, w))
    }
}

/// One step of the reducer's sweep at index `i`: when vertex `i` has exactly
/// two edges (a, wa) and (b, wb), redirect a's edge to `i` toward `b` and
/// b's edge to `i` toward `a`, both with the combined weight, then clear
/// vertex `i`'s own list. Otherwise no change.
pub open spec fn collapse_step(es: Seq<Seq<(usize, u64)>>, i: int) -> Seq<Seq<(usize, u64)>> {
    if !(0 <= i < es.len()) || es[i].len() != 2 {
        es
    } else {
        let a = es[i][0].0;
        let wa = es[i][0].1;
        let b = es[i][1].0;
        let wb = es[i][1].1;
        let w = sat_add(wa, wb);
        let es1 = if (a as int) < es.len() {
            es.update(a as int, rewrite_to(es[a as int], i as usize, b, w))
        } else {
            es
        };
        let es2 = if (b as int) < es1.len() {
            es1.update(b as int, rewrite_to(es1[b as int], i as usize, a, w))
        } else {
            es1
        };
        es2.update(i, Seq::empty())
    }
}

/// The reducer's whole forward sweep over indices 0..n.
pub open spec fn sweep(es: Seq<Seq<(usize, u64)>>, n: int) -> Seq<Seq<(usize, u64)>>
    decreases n,
{
    if n <= 0 {
        es
    } else {
        collapse_step(sweep(es, n - 1), n - 1)
    }
}

/// Edge-list-sequence analogue of `edges_ok`.
pub open spec fn seqs_ok(es: Seq<Seq<(usize, u64)>>) -> bool {
    forall|j: int, k: int|
        0 <= j < es.len() && 0 <= k < es[j].len() ==> ((#[trigger] es[j][k]).0 < es.len()
            && es[j][k].1 >= 1)
}

proof fn lemma_rewrite_to_entries(nbrs: Seq<(usize, u64)>, from: usize, to: usize, w: u64)
    ensures
        rewrite_to(nbrs, from, to, w).len() == nbrs.len(),
        forall|k: int|
            0 <= k < nbrs.len() ==> (#[trigger] rewrite_to(nbrs, from, to, w)[k]) == nbrs[k]
                || rewrite_to(nbrs, from, to, w)[k] == (to, w),
{
    lemma_find_to(nbrs, from);
}

/// One collapse step keeps the sequence length, keeps every other list's
/// length, never makes a two-entry list, preserves well-formedness, and is
/// the identity on a vertex that does not have exactly two edges.
proof fn lemma_collapse_step_props(es: Seq<Seq<(usize, u64)>>, i: int)
    ensures
        collapse_step(es, i).len() == es.len(),
        forall|j: int|
            0 <= j < es.len() && j != i ==> (#[trigger] collapse_step(es, i)[j]).len()
                == es[j].len(),
        (0 <= i < es.len() && es[i].len() == 2) ==> collapse_step(es, i)[i].len() == 0,
        !(0 <= i < es.len() && es[i].len() == 2) ==> collapse_step(es, i) == es,
        seqs_ok(es) ==> seqs_ok(collapse_step(es, i)),
{
    if 0 <= i < es.len() && es[i].len() == 2 {
        let a = es[i][0].0;
        let wa = es[i][0].1;
        let b = es[i][1].0;
        let wb = es[i][1].1;
        let w = sat_add(wa, wb);
        let cs = collapse_step(es, i);
        if (a as int) < es.len() {
            lemma_rewrite_to_entries(es[a as int], i as usize, b, w);
        }
        let es1 = if (a as int) < es.len() {
            es.update(a as int, rewrite_to(es[a as int], i as usize, b, w))
        } else {
            es
        };
        if (b as int) < es1.len() {
            lemma_rewrite_to_entries(es1[b as int], i as usize, a, w);
        }
        if seqs_ok(es) {
            assert forall|j: int, k: int|
                0 <= j < cs.len() && 0 <= k < cs[j].len() implies ((#[trigger] cs[j][k]).0
                < cs.len() && cs[j][k].1 >= 1) by {
                if j != i {
                    assert(cs[j] == es1[j] || cs[j] == rewrite_to(es1[j], i as usize, a, w));
                    assert(es1[j] == es[j] || es1[j] == rewrite_to(es[j], i as usize, b, w));
                    assert(es1[j][k] == es[j][k] || es1[j][k] == (b, w));
                    assert(cs[j][k] == es1[j][k] || cs[j][k] == (a, w));
                }
            }
        }
    }
}

/// The whole sweep: afterwards no list among the first `n` has exactly two
/// entries, lengths elsewhere are kept, well-formedness is preserved, and a
/// sweep over lists none of which has exactly two entries changes nothing.
proof fn lemma_sweep_props(es: Seq<Seq<(usize, u64)>>, n: int)
    ensures
        sweep(es, n).len() == es.len(),
        forall|j: int|
            n <= j < es.len() ==> (#[trigger] sweep(es, n)[j]).len() == es[j].len(),
        forall|j: int| 0 <= j < n && j < es.len() ==> (#[trigger] sweep(es, n)[j]).len() != 2,
        seqs_ok(es) ==> seqs_ok(sweep(es, n)),
        (forall|j: int| 0 <= j < es.len() ==> (#[trigger] es[j]).len() != 2) ==> sweep(es, n)
            == es,
    decreases n,
{
    if n <= 0 {
    } else {
        lemma_sweep_props(es, n - 1);
        let prev = sweep(es, n - 1);
        lemma_collapse_step_props(prev, n - 1);
        assert forall|j: int| 0 <= j < n && j < es.len() implies (#[trigger] sweep(es, n)[j]).len()
            != 2 by {
            if j < n - 1 {
                assert(sweep(es, n)[j].len() == prev[j].len());
            } else {
                if prev[j].len() == 2 {
                    assert(sweep(es, n)[j].len() == 0);
                }
            }
        }
    }
}

/// Rewrites the first edge of vertex `at` that aims at `from` so it aims at
/// `to` with weight `w`.
fn rewrite_edge<T>(vertices: &mut Vec<Vertex<T>>, at: usize, from: usize, to: usize, w: u64)
    requires
        (at as int) < old(vertices)@.len(),
    ensures
        final(vertices)@.len() == old(vertices)@.len(),
        forall|j: int|
            0 <= j < final(vertices)@.len() && j != at ==> final(vertices)@[j] == old(vertices)@[j],
        forall|j: int|
            0 <= j < final(vertices)@.len() ==> (#[trigger] final(vertices)@[j]).pos
                == old(vertices)@[j].pos,
        final(vertices)@[at as int].neighbors@ == rewrite_to(
            old(vertices)@[at as int].neighbors@,
            from,
            to,
            w,
        ),
{
    let ghost orig = vertices@;
    let ghost nb0 = vertices@[at as int].neighbors@;
    proof {
        lemma_find_to(nb0, from);
    }
    let len_a = vertices[at].neighbors.len();
    let mut k: usize = 0;
    let mut found = false;
    while k < len_a && !found
        invariant
            (at as int) < vertices@.len(),
            vertices@ == orig,
            nb0 == vertices@[at as int].neighbors@,
            len_a == nb0.len(),
            k <= len_a,
            forall|idx: int| 0 <= idx < k ==> (#[trigger] nb0[idx]).0 != from,
            found ==> k < len_a && nb0[k as int].0 == from,
        decreases len_a - k + (if found { 0int } else { 1 }),
    {
        if vertices[at].neighbors[k].0 == from {
            found = true;
        } else {
            k += 1;
        }
    }
    if found {
        proof {
            lemma_find_to(nb0, from);
            assert(find_to(nb0, from) == k);
        }
        vertices[at].set_edge(k, (to, w));
    } else {
        proof {
            lemma_find_to(nb0, from);
            let f = find_to(nb0, from);
            if f >= 0 {
                assert(0 <= f < nb0.len() && nb0[f].0 == from);
                assert(nb0[f].0 != from);
            }
            assert(rewrite_to(nb0, from, to, w) == nb0);
        }
    }
}

/// Clears vertex `at`'s edge list.
fn clear_edges<T>(vertices: &mut Vec<Vertex<T>>, at: usize)
    requires
        (at as int) < old(vertices)@.len(),
    ensures
        final(vertices)@.len() == old(vertices)@.len(),
        forall|j: int|
            0 <= j < final(vertices)@.len() && j != at ==> final(vertices)@[j] == old(vertices)@[j],
        forall|j: int|
            0 <= j < final(vertices)@.len() ==> (#[trigger] final(vertices)@[j]).pos
                == old(vertices)@[j].pos,
        final(vertices)@[at as int].neighbors@ == Seq::<(usize, u64)>::empty(),
{
    vertices[at].drop_edges();
}

/// The graph reducer: a single forward sweep that collapses each vertex with
/// exactly two edges into one direct edge between its two neighbors, summing
/// the two weights (saturating), and clears the collapsed vertex's list.
/// Afterwards no vertex has exactly two edges, and a sweep over a list that
/// already has no two-edge vertex changes nothing.
#[verifier::rlimit(80)]
pub fn reduce_vertex_count<T>(vertices: &mut Vec<Vertex<T>>)
    ensures
        final(vertices)@.len() == old(vertices)@.len(),
        forall|j: int|
            0 <= j < final(vertices)@.len() ==> (#[trigger] final(vertices)@[j]).pos == old(
                vertices,
            )@[j].pos,
        edge_seqs(final(vertices)@) == sweep(
            edge_seqs(old(vertices)@),
            old(vertices)@.len() as int,
        ),
        forall|j: int|
            0 <= j < final(vertices)@.len() ==> (#[trigger] final(vertices)@[j]).neighbors@.len()
                != 2,
        edges_ok(old(vertices)@) ==> edges_ok(final(vertices)@),
        (forall|j: int|
            0 <= j < old(vertices)@.len() ==> (#[trigger] old(vertices)@[j]).neighbors@.len()
                != 2) ==> final(vertices)@ == old(vertices)@,
{
    let ghost orig = vertices@;
    let n = vertices.len();
    let mut i: usize = 0;
    while i < n
        invariant
            i <= n,
            n == vertices@.len(),
            vertices@.len() == orig.len(),
            forall|j: int| 0 <= j < n ==> (#[trigger] vertices@[j]).pos == orig[j].pos,
            edge_seqs(vertices@) == sweep(edge_seqs(orig), i as int),
            (forall|j: int|
                0 <= j < n ==> (#[trigger] orig[j]).neighbors@.len() != 2) ==> vertices@ == orig,
        decreases n - i,
    {
        let ghost es0 = edge_seqs(vertices@);
        let ghost pre = vertices@;
        let deg = vertices[i].neighbors.len();
        if deg == 2 {
            let e0 = vertices[i].neighbors[0];
            let e1 = vertices[i].neighbors[1];
            let a = e0.0;
            let wa = e0.1;
            let b = e1.0;
            let wb = e1.1;
            let w = if wa <= u64::MAX - wb {
                wa + wb
            } else {
                u64::MAX
            };
            assert(w == sat_add(wa, wb));
            if a < n {
                rewrite_edge(vertices, a, i, b, w);
            }
            proof {
                assert(edge_seqs(vertices@) =~~= (if (a as int) < es0.len() {
                    es0.update(a as int, rewrite_to(es0[a as int], i, b, w))
                } else {
                    es0
                }));
            }
            let ghost es1 = edge_seqs(vertices@);
            if b < n {
                rewrite_edge(vertices, b, i, a, w);
            }
            proof {
                assert(edge_seqs(vertices@) =~~= (if (b as int) < es1.len() {
                    es1.update(b as int, rewrite_to(es1[b as int], i, a, w))
                } else {
                    es1
                }));
            }
            clear_edges(vertices, i);
            proof {
                assert(edge_seqs(vertices@) =~~= collapse_step(es0, i as int));
                assert(edge_seqs(vertices@) == sweep(edge_seqs(orig), i as int + 1));
            }
        } else {
            proof {
                assert(edge_seqs(vertices@) =~~= collapse_step(es0, i as int));
                assert(edge_seqs(vertices@) == sweep(edge_seqs(orig), i as int + 1));
            }
        }
        i += 1;
    }
    proof {
        lemma_sweep_props(edge_seqs(orig), n as int);
        assert forall|j: int|
            0 <= j < vertices@.len() implies (#[trigger] vertices@[j]).neighbors@.len() != 2 by {
            assert(edge_seqs(vertices@)[j] == vertices@[j].neighbors@);
            assert(sweep(edge_seqs(orig), n as int)[j].len() != 2);
        }
        if edges_ok(orig) {
            assert(seqs_ok(edge_seqs(orig))) by {
                assert forall|j: int, k: int|
                    0 <= j < edge_seqs(orig).len() && 0 <= k < edge_seqs(orig)[j].len() implies ((
                #[trigger] edge_seqs(orig)[j][k]).0 < edge_seqs(orig).len() && edge_seqs(
                    orig,
                )[j][k].1 >= 1) by {
                    assert(edge_seqs(orig)[j] == orig[j].neighbors@);
                    assert(orig[j].neighbors@[k].0 < orig.len() && orig[j].neighbors@[k].1 >= 1);
                }
            }
            assert(seqs_ok(edge_seqs(vertices@)));
            assert forall|j: int, k: int|
                0 <= j < vertices@.len() && 0 <= k < vertices@[j].neighbors@.len() implies ((
            #[trigger] vertices@[j].neighbors@[k]).0 < vertices@.len()
                && vertices@[j].neighbors@[k].1 >= 1) by {
                assert(edge_seqs(vertices@)[j] == vertices@[j].neighbors@);
                assert(edge_seqs(vertices@)[j][k].0 < edge_seqs(vertices@).len()
                    && edge_seqs(vertices@)[j][k].1 >= 1);
            }
        }
    }
}

/// The index of the vertex at position `c`, as a one- or zero-element run.
pub open spec fn maybe_idx(ps: Seq<Coord>, c: Coord) -> Seq<usize> {
    if has_pos(ps, c) {
        seq![index_of_pos(ps, c) as usize]
    } else {
        Seq::empty()
    }
}

/// Indices found along the top row, columns 0..x.
pub open spec fn scan_top(ps: Seq<Coord>, x: int) -> Seq<usize>
    decreases x,
{
    if x <= 0 {
        Seq::empty()
    } else {
        scan_top(ps, x - 1) + maybe_idx(ps, Coord { x: (x - 1) as u32, y: 0 })
    }
}

/// Indices found along the bottom row, columns 0..x.
pub open spec fn scan_bottom(ps: Seq<Coord>, h: int, x: int) -> Seq<usize>
    decreases x,
{
    if x <= 0 {
        Seq::empty()
    } else {
        scan_bottom(ps, h, x - 1) + maybe_idx(ps, Coord { x: (x - 1) as u32, y: (h - 1) as u32 })
    }
}

/// Indices found on the left then right column of each interior row 1..y.
pub open spec fn scan_sides(ps: Seq<Coord>, w: int, y: int) -> Seq<usize>
    decreases y,
{
    if y <= 1 {
        Seq::empty()
    } else {
        scan_sides(ps, w, y - 1) + maybe_idx(ps, Coord { x: 0, y: (y - 1) as u32 }) + maybe_idx(
            ps,
            Coord { x: (w - 1) as u32, y: (y - 1) as u32 },
        )
    }
}

/// The perimeter scan: the whole top row left to right, then the whole
/// bottom row left to right, then each interior row's left and right cell.
pub open spec fn boundary_scan(ps: Seq<Coord>, w: int, h: int) -> Seq<usize> {
    scan_top(ps, w) + scan_bottom(ps, h, w) + scan_sides(ps, w, h - 1)
}

/// The boundary detector: scans the raster perimeter in a fixed order and
/// collects the index of every vertex that sits on it. Callers take the
/// first two results as the entry and exit.
pub fn find_boundary_vertices(vertices: &Vec<Vertex<Coord>>, width: u32, height: u32) -> (r: Vec<
    usize,
>)
    requires
        width >= 1,
        height >= 1,
        distinct_seq(pos_seq(vertices@)),
    ensures
        r@ == boundary_scan(pos_seq(vertices@), width as int, height as int),
        forall|k: int| 0 <= k < r@.len() ==> (#[trigger] r@[k] as int) < vertices@.len(),
{
    let ghost ps = pos_seq(vertices@);
    let m = build_pos_map(vertices);
    let mut r: Vec<usize> = Vec::new();
    let mut x: u32 = 0;
    while x < width
        invariant
            x <= width,
            ps == pos_seq(vertices@),
            distinct_seq(ps),
            table_models(m@, ps),
            r@ == scan_top(ps, x as int),
            forall|k: int| 0 <= k < r@.len() ==> (#[trigger] r@[k] as int) < ps.len(),
        decreases width - x,
    {
        if let Some(idx) = lookup_pos(&m, Ghost(ps), Coord { x, y: 0 }) {
            r.push(idx);
        }
        x += 1;
    }
    let mut x: u32 = 0;
    while x < width
        invariant
            x <= width,
            height >= 1,
            ps == pos_seq(vertices@),
            distinct_seq(ps),
            table_models(m@, ps),
            r@ == scan_top(ps, width as int) + scan_bottom(ps, height as int, x as int),
            forall|k: int| 0 <= k < r@.len() ==> (#[trigger] r@[k] as int) < ps.len(),
        decreases width - x,
    {
        if let Some(idx) = lookup_pos(&m, Ghost(ps), Coord { x, y: height - 1 }) {
            r.push(idx);
        }
        x += 1;
        proof {
            assert(r@ =~= scan_top(ps, width as int) + scan_bottom(ps, height as int, x as int));
        }
    }
    let mut y: u32 = 1;
    while height >= 2 && y < height - 1
        invariant
            1 <= y,
            height >= 2 ==> y <= height - 1,
            height < 2 ==> y == 1,
            width >= 1,
            ps == pos_seq(vertices@),
            distinct_seq(ps),
            table_models(m@, ps),
            r@ == scan_top(ps, width as int) + scan_bottom(ps, height as int, width as int)
                + scan_sides(ps, width as int, y as int),
            forall|k: int| 0 <= k < r@.len() ==> (#[trigger] r@[k] as int) < ps.len(),
        decreases height - y,
    {
        if let Some(idx) = lookup_pos(&m, Ghost(ps), Coord { x: 0, y }) {
            r.push(idx);
        }
        if let Some(idx) = lookup_pos(&m, Ghost(ps), Coord { x: width - 1, y }) {
            r.push(idx);
        }
        y += 1;
        proof {
            assert(r@ =~= scan_top(ps, width as int) + scan_bottom(ps, height as int, width as int)
                + scan_sides(ps, width as int, y as int));
        }
    }
    proof {
        assert(scan_sides(ps, width as int, 1) =~= Seq::<usize>::empty());
        assert(r@ =~= boundary_scan(ps, width as int, height as int));
    }
    r
}

/// The edge lists the adjacency builder gives a position sequence.
pub open spec fn built_edge_seqs(ps: Seq<Coord>) -> Seq<Seq<(usize, u64)>> {
    Seq::new(ps.len(), |i: int| edges_for(ps, ps[i].candidate_neighbors()))
}

impl Graph<Coord> {
    /// The whole construction pipeline over a decoded raster (zero = wall,
    /// non-zero = open): sample the open cells, build 4-connected unit-weight
    /// adjacency, collapse two-edge corridor vertices, and pick the first two
    /// perimeter vertices as start and end. Returns None when the perimeter
    /// holds fewer than two vertices, since no start/end pair can be chosen.
    pub fn from_raster(cells: &Vec<u8>, width: u32, height: u32) -> (r: Option<Graph<Coord>>)
        requires
            width >= 1,
            height >= 1,
            cells@.len() == width * height,
        ensures
            ({
                let ps = sample_positions(cells@, width as int, cells@.len() as int);
                let bs = boundary_scan(ps, width as int, height as int);
                match r {
                    Some(g) => bs.len() >= 2 && g.wf() && distinct_seq(pos_seq(g.vertices@))
                        && pos_seq(g.vertices@) == ps
                        && edge_seqs(g.vertices@) == sweep(built_edge_seqs(ps), ps.len() as int)
                        && g.start == bs[0] && g.end == bs[1] && (g.start as int) < ps.len() && (
                    g.end as int) < ps.len(),
                    None => bs.len() < 2,
                }
            }),
    {
        let ghost ps = sample_positions(cells@, width as int, cells@.len() as int);
        let mut vertices = create_vertices(cells, width, height);
        populate_vertex_neighbors(&mut vertices);
        let nv = vertices.len();
        proof {
            assert(pos_seq(vertices@) =~= ps);
            assert(ps.len() == nv);
            assert(edge_seqs(vertices@) =~~= built_edge_seqs(ps));
            assert(edges_ok(vertices@)) by {
                assert forall|i: int, k: int|
                    0 <= i < vertices@.len() && 0 <= k < vertices@[i].neighbors@.len() implies ((
                #[trigger] vertices@[i].neighbors@[k]).0 < vertices@.len()
                    && vertices@[i].neighbors@[k].1 >= 1) by {
                    let e = vertices@[i].neighbors@[k];
                    assert(vertices@[i].neighbors@.contains(e));
                    lemma_edges_for_mem(ps, ps[i].candidate_neighbors(), e);
                }
            }
        }
        reduce_vertex_count(&mut vertices);
        proof {
            assert(pos_seq(vertices@) =~= ps);
        }
        let boundary = find_boundary_vertices(&vertices, width, height);
        if boundary.len() < 2 {
            None
        } else {
            let start = *boundary.get(0).unwrap();
            let end = *boundary.get(1).unwrap();
            Some(Graph { start, end, vertices })
        }
    }
}

/// An all-wall raster (every cell zero) samples to no vertices at all.
pub proof fn lemma_all_walls_no_vertices(cells: Seq<u8>, width: int, n: int)
    requires
        forall|i: int| 0 <= i < cells.len() ==> cells[i] == 0,
        n <= cells.len(),
    ensures
        sample_positions(cells, width, n).len() == 0,
    decreases n,
{
    if n > 0 && width > 0 {
        lemma_all_walls_no_vertices(cells, width, n - 1);
    }
}

/// Reducing an already-reduced edge structure changes nothing further.
pub proof fn lemma_sweep_idempotent(es: Seq<Seq<(usize, u64)>>, n: int)
    requires
        n == es.len(),
    ensures
        sweep(sweep(es, n), n) == sweep(es, n),
{
    lemma_sweep_props(es, n);
    lemma_sweep_props(sweep(es, n), n);
}

} // verus!
