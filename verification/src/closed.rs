//! Why an extrusion is a closed solid: among the boundary edges of the
//! walls and caps that push/pull creates, every directed edge occurs once
//! and its reverse occurs once, so the new faces close up with no open and
//! no doubled edge.

use vstd::prelude::*;

use crate::document::Document;
use crate::mesh::{face_has_vertex, FaceId, Mesh, VertexId};
use crate::pushpull::{
    cap_faces, edge_count, edges_pair_up, extruded, extrusion_faces, fresh_ring, fresh_rings, hole_walls, lemma_edge_count_positive,
    lemma_hole_walls_len, lemma_total_len_take, reversed_rings, ring_walls, total_len, wall_quad, DirectedEdge, FaceLoops,
};

verus! {

/// The `i`-th directed edge of the closed ring `r`.
pub open spec fn ring_step(r: Seq<VertexId>, i: int) -> (VertexId, VertexId) {
    (r[i], r[(i + 1) % (r.len() as int)])
}

/// `a -> b` is a directed edge of the closed ring `r`.
pub open spec fn consec(r: Seq<VertexId>, a: VertexId, b: VertexId) -> bool {
    exists|i: int| 0 <= i < r.len() && #[trigger] ring_step(r, i) == (a, b)
}

/// The directed boundary edges of the closed ring `r`, on face `f`.
pub open spec fn ring_edges(r: Seq<VertexId>, f: FaceId) -> Seq<DirectedEdge> {
    Seq::new(r.len(), |i: int| (ring_step(r, i).0, ring_step(r, i).1, f))
}

/// No vertex occurs twice in `r`.
pub open spec fn no_repeats(r: Seq<VertexId>) -> bool {
    forall|i: int, j: int| 0 <= i < r.len() && 0 <= j < r.len() && i != j ==> r[i] != r[j]
}

/// 1 when `b` holds, else 0.
pub open spec fn ind(b: bool) -> nat {
    if b {
        1
    } else {
        0
    }
}

/// `e` runs from `a` to `b`.
pub open spec fn runs(e: DirectedEdge, a: VertexId, b: VertexId) -> bool {
    e.0 == a && e.1 == b
}

proof fn lemma_count_concat(s1: Seq<DirectedEdge>, s2: Seq<DirectedEdge>, a: VertexId, b: VertexId)
    ensures
        edge_count(s1 + s2, a, b) == edge_count(s1, a, b) + edge_count(s2, a, b),
    decreases s2.len(),
{
    if s2.len() == 0 {
        assert(s1 + s2 =~= s1);
    } else {
        lemma_count_concat(s1, s2.drop_last(), a, b);
        assert((s1 + s2).drop_last() =~= s1 + s2.drop_last());
    }
}

/// Where at most one entry runs from `a` to `b`, the count is whether one does.
proof fn lemma_count_unique(s: Seq<DirectedEdge>, a: VertexId, b: VertexId)
    requires
        forall|j: int, k: int| 0 <= j < s.len() && 0 <= k < s.len() && runs(#[trigger] s[j], a, b) && runs(#[trigger] s[k], a, b) ==> j == k,
    ensures
        edge_count(s, a, b) == ind(exists|j: int| 0 <= j < s.len() && runs(#[trigger] s[j], a, b)),
    decreases s.len(),
{
    if s.len() > 0 {
        let t = s.drop_last();
        assert forall|j: int, k: int| 0 <= j < t.len() && 0 <= k < t.len() && runs(#[trigger] t[j], a, b) && runs(#[trigger] t[k], a, b) implies j == k by {
            assert(s[j] == t[j] && s[k] == t[k]);
        }
        lemma_count_unique(t, a, b);
        if exists|j: int| 0 <= j < t.len() && runs(#[trigger] t[j], a, b) {
            let j = choose|j: int| 0 <= j < t.len() && runs(#[trigger] t[j], a, b);
            assert(s[j] == t[j]);
            assert(runs(s[j], a, b));
        }
        if exists|j: int| 0 <= j < s.len() && runs(#[trigger] s[j], a, b) {
            let j = choose|j: int| 0 <= j < s.len() && runs(#[trigger] s[j], a, b);
            if j < t.len() {
                assert(t[j] == s[j]);
            }
        }
    }
}

/// A ring without repeats has `a -> b` once when it is one of its edges,
/// else not at all.
pub proof fn lemma_ring_count(r: Seq<VertexId>, f: FaceId, a: VertexId, b: VertexId)
    requires
        no_repeats(r),
    ensures
        edge_count(ring_edges(r, f), a, b) == ind(consec(r, a, b)),
{
    let s = ring_edges(r, f);
    assert forall|j: int, k: int| 0 <= j < s.len() && 0 <= k < s.len() && runs(#[trigger] s[j], a, b) && runs(#[trigger] s[k], a, b) implies j == k by {
        assert(r[j] == a && r[k] == a);
    }
    lemma_count_unique(s, a, b);
    if consec(r, a, b) {
        let i = choose|i: int| 0 <= i < r.len() && #[trigger] ring_step(r, i) == (a, b);
        assert(runs(s[i], a, b));
    }
    if exists|j: int| 0 <= j < s.len() && runs(#[trigger] s[j], a, b) {
        let j = choose|j: int| 0 <= j < s.len() && runs(#[trigger] s[j], a, b);
        assert(ring_step(r, j) == (a, b));
    }
}

/// The rung joining entry `i` of the ring `r` to entry `i` of its copy `o`.
pub open spec fn rung(r: Seq<VertexId>, o: Seq<VertexId>, i: int) -> (VertexId, VertexId) {
    (r[i], o[i])
}

/// `a -> b` runs along a rung from the ring `r` to its copy `o`.
pub open spec fn joined(r: Seq<VertexId>, o: Seq<VertexId>, a: VertexId, b: VertexId) -> bool {
    exists|i: int| 0 <= i < r.len() && #[trigger] rung(r, o, i) == (a, b)
}

/// The boundary edges of all the rings `rings`, on face `f`, ring after ring.
pub open spec fn rings_edges(rings: Seq<Seq<VertexId>>, f: FaceId) -> Seq<DirectedEdge>
    decreases rings.len(),
{
    if rings.len() == 0 {
        Seq::empty()
    } else {
        rings_edges(rings.drop_last(), f) + ring_edges(rings.last(), f)
    }
}

/// The boundary edges of face `f` with loops `l`: its outer ring, then its holes.
pub open spec fn loop_edges(f: FaceId, l: FaceLoops) -> Seq<DirectedEdge> {
    ring_edges(l.0, f) + rings_edges(l.1, f)
}

/// The boundary edges of the faces `ids`, face `ids[k]` having the loops
/// `loops[k]`, face after face.
pub open spec fn boundary_edges(ids: Seq<FaceId>, loops: Seq<FaceLoops>) -> Seq<DirectedEdge>
    decreases loops.len(),
{
    if loops.len() == 0 {
        Seq::empty()
    } else {
        boundary_edges(ids.drop_last(), loops.drop_last()) + loop_edges(ids.last(), loops.last())
    }
}

/// A ring and its offset copy as an extrusion joins them: equally long,
/// at least three entries, and no vertex twice over both.
pub open spec fn prism_pair(r: Seq<VertexId>, o: Seq<VertexId>) -> bool {
    &&& r.len() == o.len()
    &&& r.len() >= 3
    &&& no_repeats(r)
    &&& no_repeats(o)
    &&& forall|i: int, j: int| 0 <= i < r.len() && 0 <= j < o.len() ==> r[i] != o[j]
}

/// `a -> b` is an edge of one of the walls joining `r` to its copy `o`.
pub open spec fn wall_adj(r: Seq<VertexId>, o: Seq<VertexId>, forward: bool, a: VertexId, b: VertexId) -> bool {
    if forward {
        consec(r, a, b) || consec(o, b, a) || joined(r, o, a, b) || joined(r, o, b, a)
    } else {
        consec(r, b, a) || consec(o, a, b) || joined(r, o, a, b) || joined(r, o, b, a)
    }
}

/// `a -> b` is an edge of the `k`-th wall joining `r` to `o`.
pub open spec fn wall_has(r: Seq<VertexId>, o: Seq<VertexId>, forward: bool, k: int, a: VertexId, b: VertexId) -> bool {
    consec(ring_walls(r, o, forward)[k].0, a, b)
}

proof fn lemma_quad_consec(q: Seq<VertexId>, a: VertexId, b: VertexId)
    requires
        q.len() == 4,
    ensures
        consec(q, a, b) == ((a, b) == (q[0], q[1]) || (a, b) == (q[1], q[2]) || (a, b) == (q[2], q[3]) || (a, b) == (q[3], q[0])),
{
    lemma_next_index(0, 4);
    lemma_next_index(1, 4);
    lemma_next_index(2, 4);
    lemma_next_index(3, 4);
    assert(ring_step(q, 0) == (q[0], q[1]));
    assert(ring_step(q, 1) == (q[1], q[2]));
    assert(ring_step(q, 2) == (q[2], q[3]));
    assert(ring_step(q, 3) == (q[3], q[0]));
}

/// The `k`-th wall, with its next index spelled out.
proof fn lemma_wall_at(r: Seq<VertexId>, o: Seq<VertexId>, forward: bool, k: int)
    requires
        prism_pair(r, o),
        0 <= k < r.len(),
    ensures
        ({
            let n = r.len() as int;
            let k1 = if k + 1 < n { k + 1 } else { 0 };
            &&& ring_walls(r, o, forward)[k] == (wall_quad(r[k], r[k1], o[k], o[k1], forward), Seq::<Seq<VertexId>>::empty())
            &&& no_repeats(ring_walls(r, o, forward)[k].0)
            &&& ring_walls(r, o, forward)[k].0.len() == 4
        }),
{
    let n = r.len() as int;
    lemma_next_index(k, n);
    let k1 = if k + 1 < n { k + 1 } else { 0 };
    let q = ring_walls(r, o, forward)[k].0;
    assert(q == wall_quad(r[k], r[k1], o[k], o[k1], forward));
    assert(r[k] != r[k1]);
    assert(o[k] != o[k1]);
}

proof fn lemma_wall_unique(r: Seq<VertexId>, o: Seq<VertexId>, forward: bool, k: int, j: int, a: VertexId, b: VertexId)
    requires
        prism_pair(r, o),
        0 <= k < r.len(),
        0 <= j < r.len(),
        wall_has(r, o, forward, k, a, b),
        wall_has(r, o, forward, j, a, b),
    ensures
        k == j,
{
    let n = r.len() as int;
    lemma_wall_at(r, o, forward, k);
    lemma_wall_at(r, o, forward, j);
    lemma_quad_consec(ring_walls(r, o, forward)[k].0, a, b);
    lemma_quad_consec(ring_walls(r, o, forward)[j].0, a, b);
    let k1 = if k + 1 < n { k + 1 } else { 0 };
    let j1 = if j + 1 < n { j + 1 } else { 0 };
    assert(r[k] != o[j] && r[j] != o[k] && r[k1] != o[j1] && r[j1] != o[k1]);
    assert(r[k] != o[j1] && r[j] != o[k1] && r[k1] != o[j] && r[j1] != o[k]);
    if k1 == j1 {
    } else {
        assert(r[k1] != r[j1] && o[k1] != o[j1]);
    }
}

proof fn lemma_wall_exists(r: Seq<VertexId>, o: Seq<VertexId>, forward: bool, a: VertexId, b: VertexId)
    requires
        prism_pair(r, o),
    ensures
        (exists|k: int| 0 <= k < r.len() && #[trigger] wall_has(r, o, forward, k, a, b)) == wall_adj(r, o, forward, a, b),
{
    let n = r.len() as int;
    if exists|k: int| 0 <= k < r.len() && #[trigger] wall_has(r, o, forward, k, a, b) {
        let k = choose|k: int| 0 <= k < r.len() && #[trigger] wall_has(r, o, forward, k, a, b);
        lemma_wall_at(r, o, forward, k);
        lemma_quad_consec(ring_walls(r, o, forward)[k].0, a, b);
        lemma_next_index(k, n);
        let k1 = if k + 1 < n { k + 1 } else { 0 };
        assert(ring_step(r, k) == (r[k], r[k1]));
        assert(ring_step(o, k) == (o[k], o[k1]));
        assert(rung(r, o, k) == (r[k], o[k]));
        assert(rung(r, o, k1) == (r[k1], o[k1]));
    }
    if wall_adj(r, o, forward, a, b) {
        if forward {
            if consec(r, a, b) {
                let i = choose|i: int| 0 <= i < r.len() && #[trigger] ring_step(r, i) == (a, b);
                lemma_wall_at(r, o, forward, i);
                lemma_next_index(i, n);
                lemma_quad_consec(ring_walls(r, o, forward)[i].0, a, b);
                assert(wall_has(r, o, forward, i, a, b));
            } else if consec(o, b, a) {
                let i = choose|i: int| 0 <= i < o.len() && #[trigger] ring_step(o, i) == (b, a);
                lemma_wall_at(r, o, forward, i);
                lemma_next_index(i, n);
                lemma_quad_consec(ring_walls(r, o, forward)[i].0, a, b);
                assert(wall_has(r, o, forward, i, a, b));
            } else if joined(r, o, a, b) {
                let i = choose|i: int| 0 <= i < r.len() && #[trigger] rung(r, o, i) == (a, b);
                let k = if i == 0 { n - 1 } else { i - 1 };
                lemma_wall_at(r, o, forward, k);
                lemma_next_index(k, n);
                lemma_quad_consec(ring_walls(r, o, forward)[k].0, a, b);
                assert(wall_has(r, o, forward, k, a, b));
            } else {
                let i = choose|i: int| 0 <= i < r.len() && #[trigger] rung(r, o, i) == (b, a);
                lemma_wall_at(r, o, forward, i);
                lemma_next_index(i, n);
                lemma_quad_consec(ring_walls(r, o, forward)[i].0, a, b);
                assert(wall_has(r, o, forward, i, a, b));
            }
        } else {
            if consec(r, b, a) {
                let i = choose|i: int| 0 <= i < r.len() && #[trigger] ring_step(r, i) == (b, a);
                lemma_wall_at(r, o, forward, i);
                lemma_next_index(i, n);
                lemma_quad_consec(ring_walls(r, o, forward)[i].0, a, b);
                assert(wall_has(r, o, forward, i, a, b));
            } else if consec(o, a, b) {
                let i = choose|i: int| 0 <= i < o.len() && #[trigger] ring_step(o, i) == (a, b);
                lemma_wall_at(r, o, forward, i);
                lemma_next_index(i, n);
                lemma_quad_consec(ring_walls(r, o, forward)[i].0, a, b);
                assert(wall_has(r, o, forward, i, a, b));
            } else if joined(r, o, a, b) {
                let i = choose|i: int| 0 <= i < r.len() && #[trigger] rung(r, o, i) == (a, b);
                lemma_wall_at(r, o, forward, i);
                lemma_next_index(i, n);
                lemma_quad_consec(ring_walls(r, o, forward)[i].0, a, b);
                assert(wall_has(r, o, forward, i, a, b));
            } else {
                let i = choose|i: int| 0 <= i < r.len() && #[trigger] rung(r, o, i) == (b, a);
                let k = if i == 0 { n - 1 } else { i - 1 };
                lemma_wall_at(r, o, forward, k);
                lemma_next_index(k, n);
                lemma_quad_consec(ring_walls(r, o, forward)[k].0, a, b);
                assert(wall_has(r, o, forward, k, a, b));
            }
        }
    }
}

proof fn lemma_walls_prefix(r: Seq<VertexId>, o: Seq<VertexId>, forward: bool, ids: Seq<FaceId>, m: int, a: VertexId, b: VertexId)
    requires
        prism_pair(r, o),
        ids.len() == r.len(),
        0 <= m <= r.len(),
    ensures
        edge_count(boundary_edges(ids.take(m), ring_walls(r, o, forward).take(m)), a, b) == ind(
            exists|k: int| 0 <= k < m && #[trigger] wall_has(r, o, forward, k, a, b),
        ),
    decreases m,
{
    let w = ring_walls(r, o, forward);
    if m == 0 {
        assert(w.take(0).len() == 0);
    } else {
        lemma_walls_prefix(r, o, forward, ids, m - 1, a, b);
        assert(w.take(m).drop_last() =~= w.take(m - 1));
        assert(ids.take(m).drop_last() =~= ids.take(m - 1));
        let k = m - 1;
        lemma_wall_at(r, o, forward, k);
        let f = ids[k];
        assert(rings_edges(w[k].1, f) =~= Seq::<DirectedEdge>::empty());
        assert(loop_edges(f, w[k]) =~= ring_edges(w[k].0, f));
        lemma_ring_count(w[k].0, f, a, b);
        assert(boundary_edges(ids.take(m), w.take(m)) == boundary_edges(ids.take(m - 1), w.take(m - 1)) + ring_edges(w[k].0, f));
        lemma_count_concat(boundary_edges(ids.take(m - 1), w.take(m - 1)), ring_edges(w[k].0, f), a, b);
        assert(edge_count(ring_edges(w[k].0, f), a, b) == ind(wall_has(r, o, forward, k, a, b)));
        if exists|j: int| 0 <= j < m - 1 && #[trigger] wall_has(r, o, forward, j, a, b) {
            let j = choose|j: int| 0 <= j < m - 1 && #[trigger] wall_has(r, o, forward, j, a, b);
            if wall_has(r, o, forward, k, a, b) {
                lemma_wall_unique(r, o, forward, k, j, a, b);
            }
        }
        if exists|j: int| 0 <= j < m && #[trigger] wall_has(r, o, forward, j, a, b) {
            let j = choose|j: int| 0 <= j < m && #[trigger] wall_has(r, o, forward, j, a, b);
            if j < m - 1 {
            }
        }
    }
}

/// Among the walls joining a ring to its copy, `a -> b` occurs once when
/// it is a wall edge, else not at all.
pub proof fn lemma_walls_count(r: Seq<VertexId>, o: Seq<VertexId>, forward: bool, ids: Seq<FaceId>, a: VertexId, b: VertexId)
    requires
        prism_pair(r, o),
        ids.len() == r.len(),
    ensures
        edge_count(boundary_edges(ids, ring_walls(r, o, forward)), a, b) == ind(wall_adj(r, o, forward, a, b)),
{
    let w = ring_walls(r, o, forward);
    lemma_walls_prefix(r, o, forward, ids, r.len() as int, a, b);
    assert(w.take(r.len() as int) =~= w);
    assert(ids.take(r.len() as int) =~= ids);
    lemma_wall_exists(r, o, forward, a, b);
}

/// How many of the rings `rings` have the edge `a -> b`.
pub open spec fn ring_tally(rings: Seq<Seq<VertexId>>, a: VertexId, b: VertexId) -> nat
    decreases rings.len(),
{
    if rings.len() == 0 {
        0
    } else {
        ring_tally(rings.drop_last(), a, b) + ind(consec(rings.last(), a, b))
    }
}

/// How many of the rings `rs` have a wall edge `a -> b` joining them to
/// their copies `os`.
pub open spec fn wall_tally(rs: Seq<Seq<VertexId>>, os: Seq<Seq<VertexId>>, forward: bool, a: VertexId, b: VertexId) -> nat
    decreases rs.len(),
{
    if rs.len() == 0 {
        0
    } else {
        wall_tally(rs.drop_last(), os.drop_last(), forward, a, b) + ind(wall_adj(rs.last(), os[rs.len() - 1], forward, a, b))
    }
}

/// `a -> b` or `b -> a` is an edge of the prism over the ring `r` and its
/// copy `o`: along `r`, along `o`, or along a rung between them.
pub open spec fn prism_adj(r: Seq<VertexId>, o: Seq<VertexId>, a: VertexId, b: VertexId) -> bool {
    consec(r, a, b) || consec(r, b, a) || consec(o, a, b) || consec(o, b, a) || joined(r, o, a, b) || joined(r, o, b, a)
}

/// How many of the prisms over the rings `rs` and their copies `os` have
/// the edge `a -> b` or `b -> a`.
pub open spec fn prism_tally(rs: Seq<Seq<VertexId>>, os: Seq<Seq<VertexId>>, a: VertexId, b: VertexId) -> nat
    decreases rs.len(),
{
    if rs.len() == 0 {
        0
    } else {
        prism_tally(rs.drop_last(), os.drop_last(), a, b) + ind(prism_adj(rs.last(), os[rs.len() - 1], a, b))
    }
}

/// Every ring of `rs` and its copy in `os` form a `prism_pair`.
pub open spec fn prism_pairs(rs: Seq<Seq<VertexId>>, os: Seq<Seq<VertexId>>) -> bool {
    &&& rs.len() == os.len()
    &&& forall|p: int| 0 <= p < rs.len() ==> prism_pair(#[trigger] rs[p], os[p])
}

/// No vertex occurs twice among the rings `rings`.
pub open spec fn all_apart(rings: Seq<Seq<VertexId>>) -> bool {
    forall|p: int, i: int, q: int, j: int|
        0 <= p < rings.len() && 0 <= i < rings[p].len() && 0 <= q < rings.len() && 0 <= j < rings[q].len() && (p != q || i != j)
            ==> #[trigger] rings[p][i] != #[trigger] rings[q][j]
}

/// The loops of a face and their offset copies as an extrusion joins them:
/// each loop paired with a copy of its length, at least three entries
/// each, and no vertex twice anywhere among all of them.
pub open spec fn prism_rings(
    outer: Seq<VertexId>,
    holes: Seq<Seq<VertexId>>,
    off_outer: Seq<VertexId>,
    off_holes: Seq<Seq<VertexId>>,
) -> bool {
    let rs = seq![outer] + holes;
    let os = seq![off_outer] + off_holes;
    &&& rs.len() == os.len()
    &&& forall|p: int| 0 <= p < rs.len() ==> (#[trigger] rs[p]).len() == os[p].len() && rs[p].len() >= 3
    &&& all_apart(rs + os)
}

proof fn lemma_rings_count(rings: Seq<Seq<VertexId>>, f: FaceId, a: VertexId, b: VertexId)
    requires
        forall|h: int| 0 <= h < rings.len() ==> no_repeats(#[trigger] rings[h]),
    ensures
        edge_count(rings_edges(rings, f), a, b) == ring_tally(rings, a, b),
    decreases rings.len(),
{
    if rings.len() > 0 {
        let t = rings.drop_last();
        assert forall|h: int| 0 <= h < t.len() implies no_repeats(#[trigger] t[h]) by {
            assert(t[h] == rings[h]);
        }
        lemma_rings_count(t, f, a, b);
        lemma_count_concat(rings_edges(t, f), ring_edges(rings.last(), f), a, b);
        lemma_ring_count(rings.last(), f, a, b);
    }
}

proof fn lemma_no_repeats_reverse(r: Seq<VertexId>)
    requires
        no_repeats(r),
    ensures
        no_repeats(r.reverse()),
{
    let q = r.reverse();
    assert forall|i: int, j: int| 0 <= i < q.len() && 0 <= j < q.len() && i != j implies q[i] != q[j] by {
        assert(q[i] == r[r.len() - 1 - i] && q[j] == r[r.len() - 1 - j]);
    }
}

proof fn lemma_reversed_tally(rings: Seq<Seq<VertexId>>, a: VertexId, b: VertexId)
    ensures
        ring_tally(reversed_rings(rings), a, b) == ring_tally(rings, b, a),
    decreases rings.len(),
{
    if rings.len() > 0 {
        assert(reversed_rings(rings).drop_last() =~= reversed_rings(rings.drop_last()));
        lemma_reversed_tally(rings.drop_last(), a, b);
        lemma_consec_reverse(rings.last(), a, b);
    }
}

proof fn lemma_reversed_no_repeats(rings: Seq<Seq<VertexId>>)
    requires
        forall|h: int| 0 <= h < rings.len() ==> no_repeats(#[trigger] rings[h]),
    ensures
        forall|h: int| 0 <= h < rings.len() ==> no_repeats(#[trigger] reversed_rings(rings)[h]),
{
    assert forall|h: int| 0 <= h < rings.len() implies no_repeats(#[trigger] reversed_rings(rings)[h]) by {
        lemma_no_repeats_reverse(rings[h]);
    }
}

pub proof fn lemma_boundary_concat(i1: Seq<FaceId>, l1: Seq<FaceLoops>, i2: Seq<FaceId>, l2: Seq<FaceLoops>)
    requires
        i1.len() == l1.len(),
        i2.len() == l2.len(),
    ensures
        boundary_edges(i1 + i2, l1 + l2) == boundary_edges(i1, l1) + boundary_edges(i2, l2),
    decreases l2.len(),
{
    if l2.len() == 0 {
        assert(i1 + i2 =~= i1);
        assert(l1 + l2 =~= l1);
        assert(boundary_edges(i1, l1) + boundary_edges(i2, l2) =~= boundary_edges(i1, l1));
    } else {
        lemma_boundary_concat(i1, l1, i2.drop_last(), l2.drop_last());
        assert((i1 + i2).drop_last() =~= i1 + i2.drop_last());
        assert((l1 + l2).drop_last() =~= l1 + l2.drop_last());
        assert(boundary_edges(i1 + i2, l1 + l2) =~= boundary_edges(i1, l1) + boundary_edges(i2, l2));
    }
}

proof fn lemma_hole_walls_count(
    holes: Seq<Seq<VertexId>>,
    offs: Seq<Seq<VertexId>>,
    forward: bool,
    ids: Seq<FaceId>,
    a: VertexId,
    b: VertexId,
)
    requires
        prism_pairs(holes, offs),
        ids.len() == total_len(holes),
    ensures
        edge_count(boundary_edges(ids, hole_walls(holes, offs, forward)), a, b) == wall_tally(holes, offs, forward, a, b),
    decreases holes.len(),
{
    if holes.len() == 0 {
        assert(hole_walls(holes, offs, forward) =~= Seq::<FaceLoops>::empty());
    } else {
        let th = holes.drop_last();
        let to = offs.drop_last();
        let last = holes.len() - 1;
        assert forall|p: int| 0 <= p < th.len() implies prism_pair(#[trigger] th[p], to[p]) by {
            assert(th[p] == holes[p] && to[p] == offs[p]);
        }
        assert(prism_pair(holes[last], offs[last]));
        lemma_hole_walls_len(th, to, forward);
        let n1 = total_len(th) as int;
        assert(total_len(holes) == n1 + holes[last].len());
        let i1 = ids.take(n1);
        let i2 = ids.skip(n1);
        assert(ids =~= i1 + i2);
        lemma_hole_walls_count(th, to, forward, i1, a, b);
        lemma_boundary_concat(i1, hole_walls(th, to, forward), i2, ring_walls(holes[last], offs[last], forward));
        assert(hole_walls(holes, offs, forward) == hole_walls(th, to, forward) + ring_walls(holes[last], offs[last], forward));
        lemma_walls_count(holes[last], offs[last], forward, i2, a, b);
        lemma_count_concat(
            boundary_edges(i1, hole_walls(th, to, forward)),
            boundary_edges(i2, ring_walls(holes[last], offs[last], forward)),
            a,
            b,
        );
    }
}

/// In a ring of three or more without repeats, no edge is run both ways.
proof fn lemma_one_way(r: Seq<VertexId>, a: VertexId, b: VertexId)
    requires
        r.len() >= 3,
        no_repeats(r),
        consec(r, a, b),
    ensures
        !consec(r, b, a),
{
    let n = r.len() as int;
    let i = choose|i: int| 0 <= i < r.len() && #[trigger] ring_step(r, i) == (a, b);
    lemma_next_index(i, n);
    let i1 = if i + 1 < n { i + 1 } else { 0 };
    if consec(r, b, a) {
        let j = choose|j: int| 0 <= j < r.len() && #[trigger] ring_step(r, j) == (b, a);
        lemma_next_index(j, n);
        assert(r[i1] == b && r[j] == b);
        assert(j == i1);
        let j1 = if j + 1 < n { j + 1 } else { 0 };
        assert(r[j1] == a && r[i] == a);
        assert(j1 == i);
    }
}

proof fn lemma_pair_tally(r: Seq<VertexId>, o: Seq<VertexId>, forward: bool, a: VertexId, b: VertexId)
    requires
        prism_pair(r, o),
    ensures
        forward ==> ind(wall_adj(r, o, forward, a, b)) + ind(consec(r, b, a)) + ind(consec(o, a, b)) == ind(prism_adj(r, o, a, b)),
        !forward ==> ind(wall_adj(r, o, forward, a, b)) + ind(consec(r, a, b)) + ind(consec(o, b, a)) == ind(prism_adj(r, o, a, b)),
{
    if consec(r, a, b) {
        lemma_one_way(r, a, b);
    }
    if consec(o, a, b) {
        lemma_one_way(o, a, b);
    }
    // Where the ends of `a -> b` lie tells the six kinds of edge apart.
    let in_r = |v: VertexId| exists|i: int| 0 <= i < r.len() && r[i] == v;
    let in_o = |v: VertexId| exists|i: int| 0 <= i < o.len() && o[i] == v;
    if consec(r, a, b) {
        let i = choose|i: int| 0 <= i < r.len() && #[trigger] ring_step(r, i) == (a, b);
        lemma_next_index(i, r.len() as int);
        assert(in_r(a) && in_r(b));
    }
    if consec(r, b, a) {
        let i = choose|i: int| 0 <= i < r.len() && #[trigger] ring_step(r, i) == (b, a);
        lemma_next_index(i, r.len() as int);
        assert(in_r(a) && in_r(b));
    }
    if consec(o, a, b) {
        let i = choose|i: int| 0 <= i < o.len() && #[trigger] ring_step(o, i) == (a, b);
        lemma_next_index(i, o.len() as int);
        assert(in_o(a) && in_o(b));
    }
    if consec(o, b, a) {
        let i = choose|i: int| 0 <= i < o.len() && #[trigger] ring_step(o, i) == (b, a);
        lemma_next_index(i, o.len() as int);
        assert(in_o(a) && in_o(b));
    }
    if joined(r, o, a, b) {
        let i = choose|i: int| 0 <= i < r.len() && #[trigger] rung(r, o, i) == (a, b);
        assert(in_r(a) && in_o(b));
    }
    if joined(r, o, b, a) {
        let i = choose|i: int| 0 <= i < r.len() && #[trigger] rung(r, o, i) == (b, a);
        assert(in_r(b) && in_o(a));
    }
    assert(!(in_r(a) && in_o(a)));
    assert(!(in_r(b) && in_o(b)));
}

proof fn lemma_holes_tally(holes: Seq<Seq<VertexId>>, offs: Seq<Seq<VertexId>>, forward: bool, a: VertexId, b: VertexId)
    requires
        prism_pairs(holes, offs),
    ensures
        forward ==> wall_tally(holes, offs, forward, a, b) + ring_tally(holes, b, a) + ring_tally(offs, a, b) == prism_tally(holes, offs, a, b),
        !forward ==> wall_tally(holes, offs, forward, a, b) + ring_tally(holes, a, b) + ring_tally(offs, b, a) == prism_tally(holes, offs, a, b),
    decreases holes.len(),
{
    if holes.len() > 0 {
        let th = holes.drop_last();
        let to = offs.drop_last();
        let last = holes.len() - 1;
        assert forall|p: int| 0 <= p < th.len() implies prism_pair(#[trigger] th[p], to[p]) by {
            assert(th[p] == holes[p] && to[p] == offs[p]);
        }
        lemma_holes_tally(th, to, forward, a, b);
        assert(prism_pair(holes[last], offs[last]));
        lemma_pair_tally(holes[last], offs[last], forward, a, b);
        assert(offs.last() == offs[last]);
    }
}

proof fn lemma_prism_tally_front(
    x: Seq<VertexId>,
    u: Seq<VertexId>,
    ys: Seq<Seq<VertexId>>,
    vs: Seq<Seq<VertexId>>,
    a: VertexId,
    b: VertexId,
)
    requires
        ys.len() == vs.len(),
    ensures
        prism_tally(seq![x] + ys, seq![u] + vs, a, b) == ind(prism_adj(x, u, a, b)) + prism_tally(ys, vs, a, b),
    decreases ys.len(),
{
    let rs = seq![x] + ys;
    let os = seq![u] + vs;
    if ys.len() == 0 {
        assert(rs.drop_last() =~= Seq::<Seq<VertexId>>::empty());
        assert(os.drop_last() =~= Seq::<Seq<VertexId>>::empty());
        assert(rs.last() == x && os[0] == u);
        assert(prism_tally(rs, os, a, b) == prism_tally(rs.drop_last(), os.drop_last(), a, b) + ind(prism_adj(x, u, a, b)));
    } else {
        lemma_prism_tally_front(x, u, ys.drop_last(), vs.drop_last(), a, b);
        assert(rs.drop_last() =~= seq![x] + ys.drop_last());
        assert(os.drop_last() =~= seq![u] + vs.drop_last());
        assert(os[rs.len() - 1] == vs[ys.len() - 1]);
        assert(rs.last() == ys.last());
    }
}

proof fn lemma_prism_tally_symmetric(rs: Seq<Seq<VertexId>>, os: Seq<Seq<VertexId>>, a: VertexId, b: VertexId)
    ensures
        prism_tally(rs, os, a, b) == prism_tally(rs, os, b, a),
    decreases rs.len(),
{
    if rs.len() > 0 {
        lemma_prism_tally_symmetric(rs.drop_last(), os.drop_last(), a, b);
    }
}

proof fn lemma_prism_tally_unique(rs: Seq<Seq<VertexId>>, os: Seq<Seq<VertexId>>, a: VertexId, b: VertexId)
    requires
        rs.len() == os.len(),
        forall|p: int, q: int|
            0 <= p < rs.len() && 0 <= q < rs.len() && prism_adj(#[trigger] rs[p], os[p], a, b) && prism_adj(#[trigger] rs[q], os[q], a, b) ==> p == q,
    ensures
        prism_tally(rs, os, a, b) == ind(exists|p: int| 0 <= p < rs.len() && prism_adj(#[trigger] rs[p], os[p], a, b)),
    decreases rs.len(),
{
    if rs.len() > 0 {
        let th = rs.drop_last();
        let to = os.drop_last();
        let last = rs.len() - 1;
        assert forall|p: int, q: int|
            0 <= p < th.len() && 0 <= q < th.len() && prism_adj(#[trigger] th[p], to[p], a, b) && prism_adj(#[trigger] th[q], to[q], a, b) implies p == q by {
            assert(th[p] == rs[p] && to[p] == os[p] && th[q] == rs[q] && to[q] == os[q]);
        }
        lemma_prism_tally_unique(th, to, a, b);
        if exists|p: int| 0 <= p < th.len() && prism_adj(#[trigger] th[p], to[p], a, b) {
            let p = choose|p: int| 0 <= p < th.len() && prism_adj(#[trigger] th[p], to[p], a, b);
            assert(th[p] == rs[p] && to[p] == os[p]);
            assert(prism_adj(rs[p], os[p], a, b));
        }
        if exists|p: int| 0 <= p < rs.len() && prism_adj(#[trigger] rs[p], os[p], a, b) {
            let p = choose|p: int| 0 <= p < rs.len() && prism_adj(#[trigger] rs[p], os[p], a, b);
            if p < last {
                assert(th[p] == rs[p] && to[p] == os[p]);
            }
        }
        assert(rs.last() == rs[last]);
    }
}

/// The start of a prism edge lies on the ring or on its copy.
proof fn lemma_adj_end(r: Seq<VertexId>, o: Seq<VertexId>, a: VertexId, b: VertexId) -> (w: (bool, int))
    requires
        r.len() == o.len(),
        r.len() > 0,
        prism_adj(r, o, a, b),
    ensures
        0 <= w.1 < r.len(),
        w.0 ==> r[w.1] == a,
        !w.0 ==> o[w.1] == a,
{
    let n = r.len() as int;
    if consec(r, a, b) {
        let i = choose|i: int| 0 <= i < r.len() && #[trigger] ring_step(r, i) == (a, b);
        (true, i)
    } else if consec(r, b, a) {
        let i = choose|i: int| 0 <= i < r.len() && #[trigger] ring_step(r, i) == (b, a);
        lemma_next_index(i, n);
        (true, if i + 1 < n { i + 1 } else { 0 })
    } else if consec(o, a, b) {
        let i = choose|i: int| 0 <= i < o.len() && #[trigger] ring_step(o, i) == (a, b);
        (false, i)
    } else if consec(o, b, a) {
        let i = choose|i: int| 0 <= i < o.len() && #[trigger] ring_step(o, i) == (b, a);
        lemma_next_index(i, n);
        (false, if i + 1 < n { i + 1 } else { 0 })
    } else if joined(r, o, a, b) {
        let i = choose|i: int| 0 <= i < r.len() && #[trigger] rung(r, o, i) == (a, b);
        (true, i)
    } else {
        let i = choose|i: int| 0 <= i < r.len() && #[trigger] rung(r, o, i) == (b, a);
        (false, i)
    }
}

proof fn lemma_prisms_apart(rs: Seq<Seq<VertexId>>, os: Seq<Seq<VertexId>>, a: VertexId, b: VertexId)
    requires
        rs.len() == os.len(),
        forall|p: int| 0 <= p < rs.len() ==> (#[trigger] rs[p]).len() == os[p].len() && rs[p].len() >= 3,
        all_apart(rs + os),
    ensures
        forall|p: int, q: int|
            0 <= p < rs.len() && 0 <= q < rs.len() && prism_adj(#[trigger] rs[p], os[p], a, b) && prism_adj(#[trigger] rs[q], os[q], a, b) ==> p == q,
{
    let all = rs + os;
    let n = rs.len() as int;
    assert forall|p: int, q: int|
        0 <= p < rs.len() && 0 <= q < rs.len() && prism_adj(#[trigger] rs[p], os[p], a, b) && prism_adj(#[trigger] rs[q], os[q], a, b) implies p == q by {
        let wp = lemma_adj_end(rs[p], os[p], a, b);
        let wq = lemma_adj_end(rs[q], os[q], a, b);
        let x = if wp.0 { p } else { n + p };
        let y = if wq.0 { q } else { n + q };
        assert(all[p] == rs[p] && all[n + p] == os[p] && all[q] == rs[q] && all[n + q] == os[q]);
        assert(all[x][wp.1] == a);
        assert(all[y][wq.1] == a);
        if p != q {
            assert(x != y);
        }
    }
}

/// How often `a -> b` occurs among the boundary edges of an extrusion's
/// faces: once for each prism, over a loop and its copy, that has the edge
/// one way or the other.
proof fn lemma_extrusion_count(
    outer: Seq<VertexId>,
    holes: Seq<Seq<VertexId>>,
    off_outer: Seq<VertexId>,
    off_holes: Seq<Seq<VertexId>>,
    forward: bool,
    ids: Seq<FaceId>,
    a: VertexId,
    b: VertexId,
)
    requires
        prism_rings(outer, holes, off_outer, off_holes),
        ids.len() == extrusion_faces(outer, holes, off_outer, off_holes, forward, false).len(),
    ensures
        edge_count(boundary_edges(ids, extrusion_faces(outer, holes, off_outer, off_holes, forward, false)), a, b) == prism_tally(
            seq![outer] + holes,
            seq![off_outer] + off_holes,
            a,
            b,
        ),
{
    let rs = seq![outer] + holes;
    let os = seq![off_outer] + off_holes;
    let all = rs + os;
    let nr = rs.len() as int;
    assert(rs[0] == outer && os[0] == off_outer);
    assert(all[0] == outer && all[nr] == off_outer);
    assert(prism_pair(outer, off_outer));
    assert forall|h: int| 0 <= h < holes.len() implies prism_pair(#[trigger] holes[h], off_holes[h]) by {
        assert(rs[h + 1] == holes[h] && os[h + 1] == off_holes[h]);
        assert(all[h + 1] == holes[h] && all[nr + h + 1] == off_holes[h]);
    }
    assert forall|h: int| 0 <= h < off_holes.len() implies no_repeats(#[trigger] off_holes[h]) by {
        assert(prism_pair(holes[h], off_holes[h]));
    }
    assert(prism_pairs(holes, off_holes));
    let wo = ring_walls(outer, off_outer, forward);
    let wh = hole_walls(holes, off_holes, forward);
    let caps = cap_faces(outer, holes, off_outer, off_holes, forward, false);
    lemma_hole_walls_len(holes, off_holes, forward);
    let n0 = outer.len() as int;
    let n1 = total_len(holes) as int;
    let i1 = ids.take(n0);
    let i2 = ids.skip(n0).take(n1);
    let i3 = ids.skip(n0 + n1);
    assert(ids =~= i1 + i2 + i3);
    assert(extrusion_faces(outer, holes, off_outer, off_holes, forward, false) == wo + wh + caps);
    lemma_boundary_concat(i1, wo, i2, wh);
    lemma_boundary_concat(i1 + i2, wo + wh, i3, caps);
    lemma_count_concat(boundary_edges(i1, wo), boundary_edges(i2, wh), a, b);
    lemma_count_concat(boundary_edges(i1, wo) + boundary_edges(i2, wh), boundary_edges(i3, caps), a, b);
    lemma_walls_count(outer, off_outer, forward, i1, a, b);
    lemma_hole_walls_count(holes, off_holes, forward, i2, a, b);
    // The two caps.
    let c0 = caps[0];
    let c1 = caps[1];
    assert(caps.len() == 2);
    assert(i3.len() == 2);
    assert(caps.drop_last() =~= seq![c0]);
    assert(seq![c0].drop_last() =~= Seq::<FaceLoops>::empty());
    assert(i3.drop_last().drop_last().len() == 0);
    assert(boundary_edges(i3.drop_last().drop_last(), seq![c0].drop_last()) =~= Seq::<DirectedEdge>::empty());
    assert(boundary_edges(i3.drop_last(), seq![c0]) =~= loop_edges(i3[0], c0));
    assert(boundary_edges(i3, caps) =~= loop_edges(i3[0], c0) + loop_edges(i3[1], c1));
    lemma_count_concat(loop_edges(i3[0], c0), loop_edges(i3[1], c1), a, b);
    lemma_count_concat(ring_edges(c0.0, i3[0]), rings_edges(c0.1, i3[0]), a, b);
    lemma_count_concat(ring_edges(c1.0, i3[1]), rings_edges(c1.1, i3[1]), a, b);
    assert(forall|h: int| 0 <= h < holes.len() ==> no_repeats(#[trigger] holes[h]));
    lemma_no_repeats_reverse(outer);
    lemma_no_repeats_reverse(off_outer);
    lemma_reversed_no_repeats(holes);
    lemma_reversed_no_repeats(off_holes);
    lemma_ring_count(c0.0, i3[0], a, b);
    lemma_ring_count(c1.0, i3[1], a, b);
    lemma_rings_count(c0.1, i3[0], a, b);
    lemma_rings_count(c1.1, i3[1], a, b);
    lemma_consec_reverse(outer, a, b);
    lemma_consec_reverse(off_outer, a, b);
    lemma_reversed_tally(holes, a, b);
    lemma_reversed_tally(off_holes, a, b);
    lemma_pair_tally(outer, off_outer, forward, a, b);
    lemma_holes_tally(holes, off_holes, forward, a, b);
    lemma_prism_tally_front(outer, off_outer, holes, off_holes, a, b);
}

/// Law: extruding a free face (one not on a solid, so both caps are made)
/// gives a closed surface. When the face's loops and their offset copies
/// are each at least three vertices long and no vertex occurs twice among
/// them, then among the boundary edges of the walls and caps every
/// directed edge occurs exactly once, and so does its reverse.
pub proof fn lemma_extrusion_closed(
    outer: Seq<VertexId>,
    holes: Seq<Seq<VertexId>>,
    off_outer: Seq<VertexId>,
    off_holes: Seq<Seq<VertexId>>,
    forward: bool,
    ids: Seq<FaceId>,
)
    requires
        prism_rings(outer, holes, off_outer, off_holes),
        ids.len() == extrusion_faces(outer, holes, off_outer, off_holes, forward, false).len(),
    ensures
        edges_pair_up(boundary_edges(ids, extrusion_faces(outer, holes, off_outer, off_holes, forward, false))),
{
    let e = boundary_edges(ids, extrusion_faces(outer, holes, off_outer, off_holes, forward, false));
    let rs = seq![outer] + holes;
    let os = seq![off_outer] + off_holes;
    assert forall|j: int| 0 <= j < e.len() implies edge_count(e, (#[trigger] e[j]).0, e[j].1) == 1 && edge_count(e, e[j].1, e[j].0) == 1 by {
        let (x, y) = (e[j].0, e[j].1);
        lemma_edge_count_positive(e, x, y);
        lemma_extrusion_count(outer, holes, off_outer, off_holes, forward, ids, x, y);
        lemma_extrusion_count(outer, holes, off_outer, off_holes, forward, ids, y, x);
        lemma_prisms_apart(rs, os, x, y);
        lemma_prism_tally_unique(rs, os, x, y);
        lemma_prism_tally_symmetric(rs, os, x, y);
    }
}

/// The boundary edges of the faces `ids` of `m`, face after face.
pub open spec fn mesh_edges<P>(m: Mesh<P>, ids: Seq<FaceId>) -> Seq<DirectedEdge> {
    boundary_edges(ids, ids.map_values(|f: FaceId| m.face(f)))
}

/// The loops of a face are simple: each at least three vertices long, and
/// no vertex occurs twice among them.
pub open spec fn simple_loops(l: FaceLoops) -> bool {
    let rings = seq![l.0] + l.1;
    &&& forall|p: int| 0 <= p < rings.len() ==> (#[trigger] rings[p]).len() >= 3
    &&& all_apart(rings)
}

proof fn lemma_take_mono(rings: Seq<Seq<VertexId>>, h1: int, h2: int)
    requires
        0 <= h1 <= h2 <= rings.len(),
    ensures
        total_len(rings.take(h1)) <= total_len(rings.take(h2)),
    decreases h2 - h1,
{
    if h1 < h2 {
        lemma_take_mono(rings, h1, h2 - 1);
        lemma_total_len_take(rings, h2 - 1);
    }
}

/// Where the copy of loop `p` starts among the fresh ids (loop 0 being the
/// outer loop, loop `h + 1` the hole `h`).
pub open spec fn copy_start(base: nat, outer: Seq<VertexId>, holes: Seq<Seq<VertexId>>, p: int) -> int {
    if p == 0 {
        base as int
    } else {
        (base + outer.len() + total_len(holes.take(p - 1))) as int
    }
}

proof fn lemma_copies_apart(base: nat, outer: Seq<VertexId>, holes: Seq<Seq<VertexId>>)
    requires
        base + outer.len() + total_len(holes) <= usize::MAX,
    ensures
        ({
            let rs = seq![outer] + holes;
            let os = seq![fresh_ring(base, outer.len())] + fresh_rings(base + outer.len(), holes);
            &&& os.len() == rs.len()
            &&& forall|p: int| 0 <= p < rs.len() ==> (#[trigger] os[p]).len() == rs[p].len()
            &&& forall|p: int, i: int| 0 <= p < os.len() && 0 <= i < os[p].len() ==> (#[trigger] os[p][i]).0 == copy_start(base, outer, holes, p) + i
            &&& forall|p: int, q: int| 0 <= p < q < rs.len() ==> #[trigger] copy_start(base, outer, holes, p) + rs[p].len() <= #[trigger] copy_start(base, outer, holes, q)
        }),
{
    let rs = seq![outer] + holes;
    let os = seq![fresh_ring(base, outer.len())] + fresh_rings(base + outer.len(), holes);
    assert forall|p: int| 0 <= p < rs.len() implies (#[trigger] os[p]).len() == rs[p].len() by {
        if p > 0 {
            assert(os[p] == fresh_rings(base + outer.len(), holes)[p - 1]);
            assert(rs[p] == holes[p - 1]);
        }
    }
    assert forall|p: int, i: int| 0 <= p < os.len() && 0 <= i < os[p].len() implies (#[trigger] os[p][i]).0 == copy_start(base, outer, holes, p) + i by {
        if p > 0 {
            let start = base + outer.len() + total_len(holes.take(p - 1));
            assert(os[p] == fresh_rings(base + outer.len(), holes)[p - 1]);
            assert(os[p] == fresh_ring(start, holes[p - 1].len()));
            lemma_take_mono(holes, p, holes.len() as int);
            lemma_total_len_take(holes, p - 1);
            assert(holes.take(holes.len() as int) =~= holes);
            assert(start + i < usize::MAX);
            assert(os[p][i] == VertexId((start + i) as usize));
        } else {
            assert(os[0] == fresh_ring(base, outer.len()));
            assert(base + i < usize::MAX);
            assert(os[p][i] == VertexId((base + i) as usize));
        }
    }
    assert forall|p: int, q: int| 0 <= p < q < rs.len() implies #[trigger] copy_start(base, outer, holes, p) + rs[p].len() <= #[trigger] copy_start(
        base,
        outer,
        holes,
        q,
    ) by {
        if p == 0 {
            lemma_take_mono(holes, 0, q - 1);
        } else {
            assert(rs[p] == holes[p - 1]);
            lemma_total_len_take(holes, p - 1);
            lemma_take_mono(holes, p, q - 1);
        }
    }
}

/// Law: push/pull of a free face (one not on a solid) whose loops are
/// simple builds a closed solid: among the boundary edges of the faces it
/// creates, every directed edge occurs exactly once, and so does its
/// reverse.
pub proof fn lemma_push_pull_closed<P, F: Fn(FaceId, P) -> P>(
    prior: Mesh<P>,
    later: Mesh<P>,
    face_id: FaceId,
    offset: F,
    forward: bool,
    r: Seq<FaceId>,
)
    requires
        prior.wf(),
        prior.has_face(face_id),
        simple_loops(prior.face(face_id)),
        extruded(prior, later, face_id, offset, forward, false, r),
    ensures
        edges_pair_up(mesh_edges(later, r)),
{
    let (outer, holes) = prior.face(face_id);
    let base = prior.vertex_slots();
    let off_outer = fresh_ring(base, outer.len());
    let off_holes = fresh_rings(base + outer.len(), holes);
    let rs = seq![outer] + holes;
    let os = seq![off_outer] + off_holes;
    let all = rs + os;
    let n = rs.len() as int;
    later.lemma_slots_bounded();
    lemma_copies_apart(base, outer, holes);
    prior.lemma_ids_in_range();
    assert forall|p: int, i: int| 0 <= p < rs.len() && 0 <= i < rs[p].len() implies (#[trigger] rs[p][i]).0 < base by {
        if p == 0 {
            assert(outer.contains(outer[i]));
            assert(face_has_vertex(prior.face(face_id), rs[p][i]));
            assert(prior.has_vertex(rs[p][i]));
        } else {
            assert(rs[p] == holes[p - 1]);
            assert(holes[p - 1].contains(holes[p - 1][i]));
            assert(face_has_vertex(prior.face(face_id), rs[p][i]));
            assert(prior.has_vertex(rs[p][i]));
        }
    }
    assert forall|p: int, i: int, q: int, j: int|
        0 <= p < all.len() && 0 <= i < all[p].len() && 0 <= q < all.len() && 0 <= j < all[q].len() && (p != q || i != j) implies #[trigger] all[p][i]
        != #[trigger] all[q][j] by {
        if p < n && q < n {
            assert(all[p] == rs[p] && all[q] == rs[q]);
        } else if p < n {
            assert(all[p] == rs[p] && all[q] == os[q - n]);
        } else if q < n {
            assert(all[p] == os[p - n] && all[q] == rs[q]);
        } else {
            assert(all[p] == os[p - n] && all[q] == os[q - n]);
            if p < q {
                assert(copy_start(base, outer, holes, p - n) + rs[p - n].len() <= copy_start(base, outer, holes, q - n));
            } else if q < p {
                assert(copy_start(base, outer, holes, q - n) + rs[q - n].len() <= copy_start(base, outer, holes, p - n));
            }
        }
    }
    assert(prism_rings(outer, holes, off_outer, off_holes));
    let loops = extrusion_faces(outer, holes, off_outer, off_holes, forward, false);
    assert(r.map_values(|f: FaceId| later.face(f)) =~= loops);
    lemma_extrusion_closed(outer, holes, off_outer, off_holes, forward, r);
}

/// Law: in a document, pushing or pulling a sketch face (one that is not a
/// solid's face) whose loops are simple turns it into a closed solid:
/// whenever the faces come back, among their boundary edges every directed
/// edge occurs exactly once, and so does its reverse.
pub proof fn lemma_sketch_push_pull_closed<P: Copy, F: Fn(FaceId, P) -> P>(
    before: Document<P>,
    after: Document<P>,
    face_id: FaceId,
    offset: F,
    nonnegative: bool,
    r: Seq<FaceId>,
)
    requires
        before.the_mesh().wf(),
        !before.solids().contains(face_id),
        before.the_mesh().has_face(face_id) ==> simple_loops(before.the_mesh().face(face_id)),
        after.pushed(&before, face_id, offset, nonnegative, r),
        r.len() > 0,
    ensures
        edges_pair_up(mesh_edges(after.the_mesh(), r)),
{
    lemma_push_pull_closed(before.the_mesh(), after.the_mesh(), face_id, offset, nonnegative, r);
}

/// The index after `i` round a ring of `n`.
pub proof fn lemma_next_index(i: int, n: int)
    requires
        0 <= i < n,
    ensures
        (i + 1) % n == if i + 1 < n {
            i + 1
        } else {
            0
        },
{
    if i + 1 < n {
        vstd::arithmetic::div_mod::lemma_small_mod((i + 1) as nat, n as nat);
    } else {
        vstd::arithmetic::div_mod::lemma_mod_self_0(n);
    }
}

/// Reversing a ring reverses its edges.
pub proof fn lemma_consec_reverse(r: Seq<VertexId>, a: VertexId, b: VertexId)
    ensures
        consec(r.reverse(), a, b) == consec(r, b, a),
{
    let n = r.len() as int;
    let q = r.reverse();
    if consec(q, a, b) {
        let i = choose|i: int| 0 <= i < q.len() && #[trigger] ring_step(q, i) == (a, b);
        lemma_next_index(i, n);
        if i < n - 1 {
            let j = n - 2 - i;
            lemma_next_index(j, n);
            assert(ring_step(r, j) == (b, a));
        } else {
            lemma_next_index(n - 1, n);
            assert(ring_step(r, n - 1) == (b, a));
        }
    }
    if consec(r, b, a) {
        let j = choose|j: int| 0 <= j < r.len() && #[trigger] ring_step(r, j) == (b, a);
        lemma_next_index(j, n);
        if j < n - 1 {
            let i = n - 2 - j;
            lemma_next_index(i, n);
            assert(ring_step(q, i) == (a, b));
        } else {
            lemma_next_index(n - 1, n);
            assert(ring_step(q, n - 1) == (a, b));
        }
    }
}

} // verus!
