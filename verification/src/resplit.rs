use vstd::prelude::*;

use crate::face_detect::{loops_view, DetectedFace};
use crate::mesh::{face_has_vertex, rings_view, FaceId, Mesh, VertexId};
use crate::pushpull::{faces_are, face_is, face_kept, fresh_face_ids, keeps_faces, FaceLoops};

verus! {

/// Every vertex of `c` occurs in `subject`.
pub open spec fn within(c: Seq<VertexId>, subject: Seq<VertexId>) -> bool {
    forall|k: int| 0 <= k < c.len() ==> subject.contains(#[trigger] c[k])
}

/// `subject` is the same ring of vertices as one of `candidates`: as long,
/// and holding all of its vertices (order and starting point are free).
pub open spec fn matches_any(subject: Seq<VertexId>, candidates: Seq<Seq<VertexId>>) -> bool {
    exists|c: int| 0 <= c < candidates.len() && (#[trigger] candidates[c]).len() == subject.len() && within(candidates[c], subject)
}

/// `subject` covers all the vertices of one of `candidates`, possibly with
/// extra vertices of its own.
pub open spec fn covers_any(subject: Seq<VertexId>, candidates: Seq<Seq<VertexId>>) -> bool {
    exists|c: int| 0 <= c < candidates.len() && (#[trigger] candidates[c]).len() <= subject.len() && within(candidates[c], subject)
}

fn vertex_in(list: &[VertexId], v: VertexId) -> (r: bool)
    ensures
        r == list@.contains(v),
{
    let mut i: usize = 0;
    while i < list.len()
        invariant
            i <= list@.len(),
            forall|k: int| 0 <= k < i ==> list@[k] != v,
        decreases list@.len() - i,
    {
        if list[i] == v {
            return true;
        }
        i = i + 1;
    }
    false
}

fn all_within(c: &Vec<VertexId>, subject: &[VertexId]) -> (r: bool)
    ensures
        r == within(c@, subject@),
{
    let mut k: usize = 0;
    while k < c.len()
        invariant
            k <= c@.len(),
            forall|q: int| 0 <= q < k ==> subject@.contains(#[trigger] c@[q]),
        decreases c@.len() - k,
    {
        if !vertex_in(subject, c[k]) {
            return false;
        }
        k = k + 1;
    }
    true
}

/// Whether `subject` is the same ring of mesh vertices as any of
/// `candidates`, compared as vertex sets of equal size: a re-traced ring may
/// start anywhere and run either way round.
pub fn matches_any_loop(subject: &[VertexId], candidates: &[Vec<VertexId>]) -> (r: bool)
    ensures
        r == matches_any(subject@, rings_view(candidates@)),
{
    let ghost cv = rings_view(candidates@);
    let mut c: usize = 0;
    while c < candidates.len()
        invariant
            cv == rings_view(candidates@),
            c <= candidates@.len(),
            forall|q: int| 0 <= q < c ==> !((#[trigger] cv[q]).len() == subject@.len() && within(cv[q], subject@)),
        decreases candidates@.len() - c,
    {
        proof {
            assert(cv[c as int] == candidates@[c as int]@);
        }
        if candidates[c].len() == subject.len() && all_within(&candidates[c], subject) {
            return true;
        }
        c = c + 1;
    }
    false
}

/// Whether `subject` traces a ring covering all the vertices of some
/// candidate - `matches_any_loop`, but tolerating extra vertices in
/// `subject` (a ring re-traced after one of its edges was split at a
/// T-junction comes back longer).
pub fn loop_covers_any(subject: &[VertexId], candidates: &[Vec<VertexId>]) -> (r: bool)
    ensures
        r == covers_any(subject@, rings_view(candidates@)),
{
    let ghost cv = rings_view(candidates@);
    let mut c: usize = 0;
    while c < candidates.len()
        invariant
            cv == rings_view(candidates@),
            c <= candidates@.len(),
            forall|q: int| 0 <= q < c ==> !((#[trigger] cv[q]).len() <= subject@.len() && within(cv[q], subject@)),
        decreases candidates@.len() - c,
    {
        proof {
            assert(cv[c as int] == candidates@[c as int]@);
        }
        if candidates[c].len() <= subject.len() && all_within(&candidates[c], subject) {
            return true;
        }
        c = c + 1;
    }
    false
}

/// Holds of the rings that match none of `outers`.
pub open spec fn matching_none(outers: Seq<Seq<VertexId>>) -> spec_fn(Seq<VertexId>) -> bool {
    |h: Seq<VertexId>| !matches_any(h, outers)
}

/// The holes no outer loop of `outers` fills: those that match none of
/// them, in order.
pub open spec fn unfilled(holes: Seq<Seq<VertexId>>, outers: Seq<Seq<VertexId>>) -> Seq<Seq<VertexId>> {
    holes.filter(matching_none(outers))
}

/// The holes no outer loop of `outers` fills: those that match none of
/// them, in order.
pub fn unfilled_holes(holes: &Vec<Vec<VertexId>>, outers: &Vec<Vec<VertexId>>) -> (r: Vec<Vec<VertexId>>)
    ensures
        rings_view(r@) == unfilled(rings_view(holes@), rings_view(outers@)),
{
    let ghost hv = rings_view(holes@);
    let ghost keep = matching_none(rings_view(outers@));
    let mut out: Vec<Vec<VertexId>> = Vec::new();
    let mut i: usize = 0;
    while i < holes.len()
        invariant
            hv == rings_view(holes@),
            keep == matching_none(rings_view(outers@)),
            i <= holes@.len(),
            rings_view(out@) == hv.take(i as int).filter(keep),
        decreases holes@.len() - i,
    {
        proof {
            reveal(Seq::filter);
            assert(hv.take(i as int + 1).drop_last() =~= hv.take(i as int));
            assert(hv.take(i as int + 1).last() == holes@[i as int]@);
        }
        let ghost ob = out@;
        if !matches_any_loop(holes[i].as_slice(), outers.as_slice()) {
            out.push(crate::mesh::copy_ring(&holes[i]));
            proof {
                assert(rings_view(out@) =~= rings_view(ob).push(holes@[i as int]@));
            }
        }
        i = i + 1;
    }
    proof {
        assert(hv.take(holes@.len() as int) =~= hv);
    }
    out
}

/// The edges of the closed ring `ring`, through the point indices `ix`.
pub open spec fn ring_edges(ring: Seq<VertexId>, ix: Map<VertexId, usize>) -> Seq<(usize, usize)> {
    Seq::new(ring.len(), |k: int| (ix[ring[k]], ix[ring[(k + 1) % (ring.len() as int)]]))
}

/// The edges of every ring of `rings`, ring after ring.
pub open spec fn rings_edges(rings: Seq<Seq<VertexId>>, ix: Map<VertexId, usize>) -> Seq<(usize, usize)>
    decreases rings.len(),
{
    if rings.len() == 0 {
        Seq::empty()
    } else {
        rings_edges(rings.drop_last(), ix) + ring_edges(rings.last(), ix)
    }
}

/// Every vertex of `rings` has a point index in `ix`.
pub open spec fn rings_indexed(rings: Seq<Seq<VertexId>>, ix: Map<VertexId, usize>) -> bool {
    forall|l: int, k: int| 0 <= l < rings.len() && 0 <= k < rings[l].len() ==> ix.dom().contains(#[trigger] rings[l][k])
}

proof fn lemma_rings_edges_extend(rings: Seq<Seq<VertexId>>, ix: Map<VertexId, usize>, ix2: Map<VertexId, usize>)
    requires
        rings_indexed(rings, ix),
        forall|v: VertexId| #[trigger] ix.dom().contains(v) ==> ix2.dom().contains(v) && ix2[v] == ix[v],
    ensures
        rings_edges(rings, ix2) == rings_edges(rings, ix),
    decreases rings.len(),
{
    if rings.len() > 0 {
        let n = rings.len() as int;
        assert forall|l: int, k: int| 0 <= l < rings.drop_last().len() && 0 <= k < rings.drop_last()[l].len() implies ix.dom().contains(
            #[trigger] rings.drop_last()[l][k],
        ) by {
            assert(rings.drop_last()[l] == rings[l]);
        }
        lemma_rings_edges_extend(rings.drop_last(), ix, ix2);
        let last = rings.last();
        assert forall|k: int| 0 <= k < last.len() implies ix.dom().contains(#[trigger] last[k]) by {
            assert(last == rings[n - 1]);
        }
        assert(ring_edges(last, ix2) =~= ring_edges(last, ix)) by {
            assert forall|k: int| 0 <= k < last.len() implies ring_edges(last, ix2)[k] == ring_edges(last, ix)[k] by {
                assert(ix.dom().contains(last[k]));
                assert(ix.dom().contains(last[(k + 1) % (last.len() as int)]));
            }
        }
    }
}

/// `v` is a vertex of one of `rings`.
pub open spec fn in_rings(rings: Seq<Seq<VertexId>>, v: VertexId) -> bool {
    exists|a: int, b: int| 0 <= a < rings.len() && 0 <= b < rings[a].len() && #[trigger] rings[a][b] == v
}

/// The vertices of `rings`, ring after ring.
pub open spec fn rings_flat(rings: Seq<Seq<VertexId>>) -> Seq<VertexId>
    decreases rings.len(),
{
    if rings.len() == 0 {
        Seq::empty()
    } else {
        rings_flat(rings.drop_last()) + rings.last()
    }
}

/// `firsts[i]` is where point `i` is first met in `flat`: its vertex
/// `reps[i]` stands there, every vertex before it belongs to an earlier
/// point, and the positions rise with the points.
pub open spec fn points_first_met(
    flat: Seq<VertexId>,
    reps: Seq<VertexId>,
    ix: Map<VertexId, usize>,
    firsts: Seq<int>,
) -> bool {
    &&& firsts.len() == reps.len()
    &&& forall|i: int| 0 <= i < reps.len() ==> 0 <= #[trigger] firsts[i] < flat.len() && flat[firsts[i]] == reps[i]
    &&& forall|i: int, j: int| 0 <= i < j < reps.len() ==> #[trigger] firsts[i] < #[trigger] firsts[j]
    &&& forall|i: int, q: int| 0 <= i < reps.len() && 0 <= q < #[trigger] firsts[i] ==> ix[#[trigger] flat[q]] < i
}

/// `reps` and `edges` are the planar graph of `rings` with vertices welded
/// by `weld` (as `loop_graph` builds it), `ix` giving each vertex its point.
/// Points come in the order in which the rings first meet them, and each
/// point is stood for by the first vertex that meets it.
pub open spec fn welded_graph<F: Fn(VertexId, VertexId) -> bool>(
    rings: Seq<Seq<VertexId>>,
    weld: F,
    reps: Seq<VertexId>,
    edges: Seq<(usize, usize)>,
    ix: Map<VertexId, usize>,
) -> bool {
    &&& rings_indexed(rings, ix)
    &&& edges == rings_edges(rings, ix)
    &&& forall|v: VertexId| #[trigger] ix.dom().contains(v) ==> ix[v] < reps.len()
    &&& forall|i: int| 0 <= i < reps.len() ==> ix.dom().contains(#[trigger] reps[i]) && ix[reps[i]] == i
    &&& forall|v: VertexId|
        #[trigger] ix.dom().contains(v) ==> reps[ix[v] as int] == v || weld.ensures((reps[ix[v] as int], v), true)
    &&& forall|v: VertexId, i: int|
        ix.dom().contains(v) && 0 <= i < ix[v] ==> #[trigger] weld.ensures((reps[i], v), false)
    &&& forall|i: int| 0 <= i < reps.len() ==> in_rings(rings, #[trigger] reps[i])
    &&& exists|firsts: Seq<int>| points_first_met(rings_flat(rings), reps, ix, firsts)
}

fn find_index(index: &Vec<(VertexId, usize)>, v: VertexId) -> (r: Option<usize>)
    ensures
        match r {
            Some(i) => exists|q: int| 0 <= q < index@.len() && index@[q] == (v, i),
            None => forall|q: int| 0 <= q < index@.len() ==> (#[trigger] index@[q]).0 != v,
        },
{
    let mut q: usize = 0;
    while q < index.len()
        invariant
            q <= index@.len(),
            forall|p: int| 0 <= p < q ==> (#[trigger] index@[p]).0 != v,
        decreases index@.len() - q,
    {
        if index[q].0 == v {
            proof {
                assert(index@[q as int] == (v, index@[q as int].1));
            }
            return Some(index[q].1);
        }
        q = q + 1;
    }
    None
}

pub(crate) fn first_weld<F: Fn(VertexId, VertexId) -> bool>(reps: &Vec<VertexId>, v: VertexId, weld: &F) -> (r: Option<usize>)
    requires
        forall|a: VertexId, b: VertexId| weld.requires((a, b)),
    ensures
        match r {
            Some(h) => h < reps@.len() && weld.ensures((reps@[h as int], v), true) && forall|p: int|
                0 <= p < h ==> #[trigger] weld.ensures((reps@[p], v), false),
            None => forall|p: int| 0 <= p < reps@.len() ==> #[trigger] weld.ensures((reps@[p], v), false),
        },
{
    let mut j: usize = 0;
    while j < reps.len()
        invariant
            forall|a: VertexId, b: VertexId| weld.requires((a, b)),
            j <= reps@.len(),
            forall|p: int| 0 <= p < j ==> #[trigger] weld.ensures((reps@[p], v), false),
        decreases reps@.len() - j,
    {
        let w = weld(reps[j], v);
        if w {
            return Some(j);
        }
        j = j + 1;
    }
    None
}

/// Builds the planar graph of `rings`: every vertex gets a point index -
/// the index of the first earlier point it welds onto (`weld`, asked of
/// each point in turn), or a new point of its own - and every ring
/// contributes its edges between consecutive points. Returns the vertex
/// standing for each point, and the edges.
pub fn loop_graph<F: Fn(VertexId, VertexId) -> bool>(rings: &Vec<Vec<VertexId>>, weld: &F) -> (r: (Vec<VertexId>, Vec<(usize, usize)>))
    requires
        forall|a: VertexId, b: VertexId| weld.requires((a, b)),
    ensures
        exists|ix: Map<VertexId, usize>| welded_graph(rings_view(rings@), *weld, r.0@, r.1@, ix),
{
    let ghost rv = rings_view(rings@);
    let mut reps: Vec<VertexId> = Vec::new();
    let mut index: Vec<(VertexId, usize)> = Vec::new();
    let mut edges: Vec<(usize, usize)> = Vec::new();
    let ghost mut ix: Map<VertexId, usize> = Map::empty();
    let ghost mut firsts: Seq<int> = Seq::empty();
    let mut l: usize = 0;
    proof {
        assert(rv.take(0) =~= Seq::<Seq<VertexId>>::empty());
    }
    while l < rings.len()
        invariant
            rv == rings_view(rings@),
            forall|a: VertexId, b: VertexId| weld.requires((a, b)),
            l <= rv.len(),
            rings_indexed(rv.take(l as int), ix),
            edges@ == rings_edges(rv.take(l as int), ix),
            forall|v: VertexId| #[trigger] ix.dom().contains(v) ==> ix[v] < reps@.len(),
            forall|i: int| 0 <= i < reps@.len() ==> ix.dom().contains(#[trigger] reps@[i]) && ix[reps@[i]] == i,
            forall|v: VertexId|
                #[trigger] ix.dom().contains(v) ==> reps@[ix[v] as int] == v || weld.ensures((reps@[ix[v] as int], v), true),
            forall|v: VertexId, i: int| ix.dom().contains(v) && 0 <= i < ix[v] ==> #[trigger] weld.ensures((reps@[i], v), false),
            forall|v: VertexId| #[trigger] ix.dom().contains(v) <==> exists|q: int| 0 <= q < index@.len() && index@[q].0 == v,
            forall|q: int| 0 <= q < index@.len() ==> ix.dom().contains((#[trigger] index@[q]).0) && ix[index@[q].0] == index@[q].1,
            forall|i: int| 0 <= i < reps@.len() ==> in_rings(rv.take(l as int), #[trigger] reps@[i]),
            forall|q: int| 0 <= q < rings_flat(rv.take(l as int)).len() ==> ix.dom().contains(#[trigger] rings_flat(rv.take(l as int))[q]),
            points_first_met(rings_flat(rv.take(l as int)), reps@, ix, firsts),
        decreases rv.len() - l,
    {
        let ring = &rings[l];
        let ghost ix_start = ix;
        let ghost flat0 = rings_flat(rv.take(l as int));
        let mut local: Vec<usize> = Vec::new();
        let mut k: usize = 0;
        while k < ring.len()
            invariant
                forall|a: VertexId, b: VertexId| weld.requires((a, b)),
                k <= ring@.len(),
                local@.len() == k,
                forall|q: int| 0 <= q < k ==> ix.dom().contains(#[trigger] ring@[q]) && local@[q] == ix[ring@[q]],
                forall|v: VertexId| #[trigger] ix_start.dom().contains(v) ==> ix.dom().contains(v) && ix[v] == ix_start[v],
                forall|v: VertexId| #[trigger] ix.dom().contains(v) ==> ix[v] < reps@.len(),
                forall|i: int| 0 <= i < reps@.len() ==> ix.dom().contains(#[trigger] reps@[i]) && ix[reps@[i]] == i,
                forall|v: VertexId|
                    #[trigger] ix.dom().contains(v) ==> reps@[ix[v] as int] == v || weld.ensures((reps@[ix[v] as int], v), true),
                forall|v: VertexId, i: int| ix.dom().contains(v) && 0 <= i < ix[v] ==> #[trigger] weld.ensures((reps@[i], v), false),
                forall|v: VertexId| #[trigger] ix.dom().contains(v) <==> exists|q: int| 0 <= q < index@.len() && index@[q].0 == v,
                forall|q: int| 0 <= q < index@.len() ==> ix.dom().contains((#[trigger] index@[q]).0) && ix[index@[q].0] == index@[q].1,
                forall|i: int| 0 <= i < reps@.len() ==> in_rings(rv.take(l as int), #[trigger] reps@[i]) || ring@.take(k as int).contains(reps@[i]),
                ring@ == rv[l as int],
                l < rv.len(),
                forall|q: int| 0 <= q < flat0.len() + k ==> ix.dom().contains(#[trigger] (flat0 + ring@.take(k as int))[q]),
                points_first_met(flat0 + ring@.take(k as int), reps@, ix, firsts),
            decreases ring@.len() - k,
        {
            let v = ring[k];
            let ghost fl_b = flat0 + ring@.take(k as int);
            let ghost reps_b = reps@;
            let ghost ix_b = ix;
            let found = find_index(&index, v);
            let i = match found {
                Some(i) => i,
                None => {
                    proof {
                        if ix.dom().contains(v) {
                            let p = choose|p: int| 0 <= p < index@.len() && index@[p].0 == v;
                            assert(index@[p].0 != v);
                        }
                    }
                    let hit = first_weld(&reps, v, weld);
                    let idx = match hit {
                        Some(h) => h,
                        None => {
                            let ghost rb = reps@;
                            reps.push(v);
                            proof {
                                firsts = firsts.push(fl_b.len() as int);
                                assert forall|p: int| 0 <= p < rb.len() implies #[trigger] weld.ensures((reps@[p], v), false) by {
                                    assert(reps@[p] == rb[p]);
                                }
                                assert(ring@.take(k as int + 1)[k as int] == v);
                                assert forall|p: int| 0 <= p < reps@.len() implies in_rings(rv.take(l as int), #[trigger] reps@[p]) || ring@.take(k as int + 1).contains(reps@[p]) by {
                                    if p < rb.len() {
                                        assert(reps@[p] == rb[p]);
                                        if ring@.take(k as int).contains(rb[p]) {
                                            let t = choose|t: int| 0 <= t < k && ring@.take(k as int)[t] == rb[p];
                                            assert(ring@.take(k as int + 1)[t] == rb[p]);
                                        }
                                    }
                                }
                            }
                            reps.len() - 1
                        },
                    };
                    let ghost ixb = ix;
                    let ghost indexb = index@;
                    index.push((v, idx));
                    proof {
                        ix = ix.insert(v, idx);
                        assert forall|p: int| 0 <= p < index@.len() implies ix.dom().contains((#[trigger] index@[p]).0) && ix[index@[p].0] == index@[p].1 by {
                            if p < indexb.len() {
                                assert(index@[p] == indexb[p]);
                                assert(index@[p].0 != v);
                            }
                        }
                        assert forall|u: VertexId| #[trigger] ix.dom().contains(u) <==> exists|p: int| 0 <= p < index@.len() && index@[p].0 == u by {
                            if ix.dom().contains(u) {
                                if u == v {
                                    assert(index@[indexb.len() as int].0 == v);
                                } else {
                                    assert(ixb.dom().contains(u));
                                    let p = choose|p: int| 0 <= p < indexb.len() && indexb[p].0 == u;
                                    assert(index@[p] == indexb[p]);
                                }
                            }
                            if exists|p: int| 0 <= p < index@.len() && index@[p].0 == u {
                                let p = choose|p: int| 0 <= p < index@.len() && index@[p].0 == u;
                                if p < indexb.len() {
                                    assert(index@[p] == indexb[p]);
                                }
                            }
                        }
                    }
                    idx
                },
            };
            let ghost lb = local@;
            local.push(i);
            proof {
                let fl = flat0 + ring@.take(k as int + 1);
                assert(fl =~= fl_b.push(v));
                assert(ix.dom().contains(v));
                assert forall|u: VertexId| #[trigger] ix_b.dom().contains(u) implies ix.dom().contains(u) && ix[u] == ix_b[u] by {
                    if ix_b.dom().contains(u) && ix != ix_b {
                        assert(ix == ix_b.insert(v, ix[v]));
                    }
                }
                assert forall|q: int| 0 <= q < flat0.len() + k + 1 implies ix.dom().contains(#[trigger] fl[q]) by {
                    if q < fl_b.len() {
                        assert(fl[q] == fl_b[q]);
                        assert(ix_b.dom().contains(fl_b[q]));
                    }
                }
                assert(points_first_met(fl, reps@, ix, firsts)) by {
                    assert forall|i: int, q: int| 0 <= i < reps@.len() && 0 <= q < #[trigger] firsts[i] implies ix[#[trigger] fl[q]] < i by {
                        assert(fl[q] == fl_b[q]);
                        assert(ix_b.dom().contains(fl_b[q]));
                    }
                }
                assert forall|p: int| 0 <= p < reps@.len() implies in_rings(rv.take(l as int), #[trigger] reps@[p]) || ring@.take(k as int + 1).contains(reps@[p]) by {
                    if ring@.take(k as int).contains(reps@[p]) {
                        let t = choose|t: int| 0 <= t < k && ring@.take(k as int)[t] == reps@[p];
                        assert(ring@.take(k as int + 1)[t] == reps@[p]);
                    }
                }
                assert forall|p: int| 0 <= p < k + 1 implies ix.dom().contains(#[trigger] ring@[p]) && local@[p] == ix[ring@[p]] by {
                    if p < k {
                        assert(local@[p] == lb[p]);
                    }
                }
            }
            k = k + 1;
        }
        let n = local.len();
        let ghost eb = edges@;
        let mut e: usize = 0;
        while e < n
            invariant
                n == local@.len(),
                n == ring@.len(),
                e <= n,
                forall|q: int| 0 <= q < n ==> ix.dom().contains(#[trigger] ring@[q]) && local@[q] == ix[ring@[q]],
                edges@ == eb + ring_edges(ring@, ix).take(e as int),
            decreases n - e,
        {
            edges.push((local[e], local[(e + 1) % n]));
            proof {
                assert(edges@ =~= eb + ring_edges(ring@, ix).take(e as int + 1));
            }
            e = e + 1;
        }
        proof {
            assert(ring_edges(ring@, ix).take(n as int) =~= ring_edges(ring@, ix));
            lemma_rings_edges_extend(rv.take(l as int), ix_start, ix);
            assert(ring@.take(ring@.len() as int) =~= ring@);
            assert forall|p: int| 0 <= p < reps@.len() implies in_rings(rv.take(l as int + 1), #[trigger] reps@[p]) by {
                if in_rings(rv.take(l as int), reps@[p]) {
                    let (a, b) = choose|a: int, b: int| 0 <= a < rv.take(l as int).len() && 0 <= b < rv.take(l as int)[a].len() && #[trigger] rv.take(l as int)[a][b] == reps@[p];
                    assert(rv.take(l as int + 1)[a] == rv.take(l as int)[a]);
                    assert(rv.take(l as int + 1)[a][b] == reps@[p]);
                } else {
                    assert(ring@.contains(reps@[p]));
                    let t = choose|t: int| 0 <= t < ring@.len() && ring@[t] == reps@[p];
                    assert(rv.take(l as int + 1)[l as int] == ring@);
                    assert(rv.take(l as int + 1)[l as int][t] == reps@[p]);
                }
            }
            assert(rv.take(l as int + 1).drop_last() =~= rv.take(l as int));
            assert(rv.take(l as int + 1).last() == ring@);
            assert(rings_flat(rv.take(l as int + 1)) =~= flat0 + ring@.take(ring@.len() as int));
            assert forall|a: int, b: int| 0 <= a < rv.take(l as int + 1).len() && 0 <= b < rv.take(l as int + 1)[a].len() implies ix.dom().contains(
                #[trigger] rv.take(l as int + 1)[a][b],
            ) by {
                if a < l {
                    assert(rv.take(l as int + 1)[a] == rv.take(l as int)[a]);
                    assert(ix_start.dom().contains(rv.take(l as int)[a][b]));
                } else {
                    assert(rv.take(l as int + 1)[a] == ring@);
                }
            }
        }
        l = l + 1;
    }
    proof {
        assert(rv.take(rv.len() as int) =~= rv);
        assert(points_first_met(rings_flat(rv), reps@, ix, firsts));
        assert(welded_graph(rings_view(rings@), *weld, reps@, edges@, ix));
    }
    let r = (reps, edges);
    proof {
        assert(welded_graph(rings_view(rings@), *weld, r.0@, r.1@, ix));
    }
    r
}

/// The vertices standing for the points of the loop `l`.
pub open spec fn mapped(l: Seq<usize>, reps: Seq<VertexId>) -> Seq<VertexId> {
    l.map_values(|i: usize| reps[i as int])
}

/// The view of a detected face: its outer loop and holes, as point indices.
pub open spec fn detected_view(ds: Seq<DetectedFace>) -> Seq<(Seq<usize>, Seq<Seq<usize>>)> {
    ds.map_values(|d: DetectedFace| (d.outer@, loops_view(d.holes@)))
}

/// The faces kept out of the detected ones `ds`, as vertex loops: all but
/// those whose outer loop covers one of the `protected` rings.
pub open spec fn kept_detected(
    ds: Seq<(Seq<usize>, Seq<Seq<usize>>)>,
    reps: Seq<VertexId>,
    protected: Seq<Seq<VertexId>>,
) -> Seq<FaceLoops>
    decreases ds.len(),
{
    if ds.len() == 0 {
        Seq::empty()
    } else {
        let rest = kept_detected(ds.drop_last(), reps, protected);
        let outer = mapped(ds.last().0, reps);
        if covers_any(outer, protected) {
            rest
        } else {
            rest.push((outer, ds.last().1.map_values(|h: Seq<usize>| mapped(h, reps))))
        }
    }
}

/// Which detected faces `kept_detected` keeps: each one whose outer loop
/// covers none of `protected`, and no face whose outer loop covers one.
pub proof fn lemma_kept_detected_members(
    ds: Seq<(Seq<usize>, Seq<Seq<usize>>)>,
    reps: Seq<VertexId>,
    protected: Seq<Seq<VertexId>>,
)
    ensures
        forall|j: int|
            0 <= j < ds.len() && !covers_any(mapped(#[trigger] ds[j].0, reps), protected) ==> kept_detected(ds, reps, protected).contains(
                (mapped(ds[j].0, reps), ds[j].1.map_values(|h: Seq<usize>| mapped(h, reps))),
            ),
        forall|k: int|
            0 <= k < kept_detected(ds, reps, protected).len() ==> !covers_any(#[trigger] kept_detected(ds, reps, protected)[k].0, protected),
    decreases ds.len(),
{
    if ds.len() > 0 {
        let rest = ds.drop_last();
        lemma_kept_detected_members(rest, reps, protected);
        let kr = kept_detected(rest, reps, protected);
        let kk = kept_detected(ds, reps, protected);
        assert forall|j: int|
            0 <= j < ds.len() && !covers_any(mapped(#[trigger] ds[j].0, reps), protected) implies kk.contains(
                (mapped(ds[j].0, reps), ds[j].1.map_values(|h: Seq<usize>| mapped(h, reps))),
            ) by {
            if j < rest.len() {
                assert(rest[j] == ds[j]);
                let x = (mapped(ds[j].0, reps), ds[j].1.map_values(|h: Seq<usize>| mapped(h, reps)));
                assert(kr.contains(x));
                let q = choose|q: int| 0 <= q < kr.len() && kr[q] == x;
                assert(kk[q] == x);
            } else {
                assert(ds[j] == ds.last());
                assert(kk[kk.len() - 1] == (mapped(ds[j].0, reps), ds[j].1.map_values(|h: Seq<usize>| mapped(h, reps))));
            }
        }
        assert forall|k: int| 0 <= k < kk.len() implies !covers_any(#[trigger] kk[k].0, protected) by {
            if k < kr.len() {
                assert(kk[k] == kr[k]);
            }
        }
    }
}

/// Every point index in the detected faces `ds` names one of `n` points.
pub open spec fn points_in_range(ds: Seq<(Seq<usize>, Seq<Seq<usize>>)>, n: nat) -> bool {
    &&& forall|d: int, k: int| 0 <= d < ds.len() && 0 <= k < ds[d].0.len() ==> (#[trigger] ds[d].0[k]) < n
    &&& forall|d: int, h: int, k: int| 0 <= d < ds.len() && 0 <= h < ds[d].1.len() && 0 <= k < ds[d].1[h].len() ==> (#[trigger] ds[d].1[h][k]) < n
}

fn map_loop(l: &Vec<usize>, reps: &Vec<VertexId>) -> (r: Vec<VertexId>)
    requires
        forall|k: int| 0 <= k < l@.len() ==> (#[trigger] l@[k]) < reps@.len(),
    ensures
        r@ == mapped(l@, reps@),
{
    let mut out: Vec<VertexId> = Vec::new();
    let mut k: usize = 0;
    while k < l.len()
        invariant
            k <= l@.len(),
            forall|q: int| 0 <= q < l@.len() ==> (#[trigger] l@[q]) < reps@.len(),
            out@ == mapped(l@.take(k as int), reps@),
        decreases l@.len() - k,
    {
        out.push(reps[l[k]]);
        proof {
            assert(out@ =~= mapped(l@.take(k as int + 1), reps@));
        }
        k = k + 1;
    }
    proof {
        assert(l@.take(l@.len() as int) =~= l@);
    }
    out
}

/// Adds a face for each detected face whose outer loop covers none of the
/// `protected` rings (those must stay empty), turning point indices into
/// the vertices `reps` standing for them. Returns the new faces, in order.
pub fn add_detected_faces<P>(
    mesh: &mut Mesh<P>,
    detected: &Vec<DetectedFace>,
    reps: &Vec<VertexId>,
    protected: &Vec<Vec<VertexId>>,
) -> (r: Vec<FaceId>)
    requires
        points_in_range(detected_view(detected@), reps@.len()),
        forall|i: int| 0 <= i < reps@.len() ==> old(mesh).has_vertex(#[trigger] reps@[i]),
        old(mesh).face_slots() + detected@.len() < usize::MAX,
    ensures
        faces_are(*final(mesh), r@, kept_detected(detected_view(detected@), reps@, rings_view(protected@))),
        fresh_face_ids(r@, old(mesh).face_slots()),
        final(mesh).face_slots() == old(mesh).face_slots() + r@.len(),
        keeps_faces(*old(mesh), *final(mesh)),
        final(mesh).same_vertices(old(mesh)),
        old(mesh).wf() ==> final(mesh).wf(),
{
    let ghost m0 = *mesh;
    let ghost dv = detected_view(detected@);
    let ghost pv = rings_view(protected@);
    let mut ids: Vec<FaceId> = Vec::new();
    let mut d: usize = 0;
    while d < detected.len()
        invariant
            dv == detected_view(detected@),
            pv == rings_view(protected@),
            points_in_range(dv, reps@.len()),
            forall|i: int| 0 <= i < reps@.len() ==> m0.has_vertex(#[trigger] reps@[i]),
            m0.face_slots() + detected@.len() < usize::MAX,
            d <= detected@.len(),
            ids@.len() <= d,
            faces_are(*mesh, ids@, kept_detected(dv.take(d as int), reps@, pv)),
            fresh_face_ids(ids@, m0.face_slots()),
            mesh.face_slots() == m0.face_slots() + ids@.len(),
            keeps_faces(m0, *mesh),
            mesh.same_vertices(&m0),
            m0.wf() ==> mesh.wf(),
        decreases detected@.len() - d,
    {
        let df = &detected[d];
        proof {
            assert(dv[d as int] == (df.outer@, loops_view(df.holes@)));
            assert(dv.take(d as int + 1).drop_last() =~= dv.take(d as int));
            assert(dv.take(d as int + 1).last() == dv[d as int]);
            assert forall|k: int| 0 <= k < df.outer@.len() implies (#[trigger] df.outer@[k]) < reps@.len() by {
                assert(dv[d as int].0[k] == df.outer@[k]);
            }
        }
        let outer = map_loop(&df.outer, reps);
        if !loop_covers_any(outer.as_slice(), protected.as_slice()) {
            let mut holes: Vec<Vec<VertexId>> = Vec::new();
            let mut h: usize = 0;
            while h < df.holes.len()
                invariant
                    dv == detected_view(detected@),
                    d < detected@.len(),
                    df == detected@[d as int],
                    points_in_range(dv, reps@.len()),
                    dv[d as int] == (df.outer@, loops_view(df.holes@)),
                    h <= df.holes@.len(),
                    rings_view(holes@) == loops_view(df.holes@).take(h as int).map_values(|l: Seq<usize>| mapped(l, reps@)),
                decreases df.holes@.len() - h,
            {
                proof {
                    assert forall|k: int| 0 <= k < df.holes@[h as int]@.len() implies (#[trigger] df.holes@[h as int]@[k]) < reps@.len() by {
                        assert(loops_view(df.holes@)[h as int] == df.holes@[h as int]@);
                        assert(dv[d as int].1[h as int][k] == df.holes@[h as int]@[k]);
                    }
                }
                let ml = map_loop(&df.holes[h], reps);
                let ghost hb = holes@;
                holes.push(ml);
                proof {
                    let lv = loops_view(df.holes@);
                    assert(lv[h as int] == df.holes@[h as int]@);
                    let want = lv.take(h as int + 1).map_values(|l: Seq<usize>| mapped(l, reps@));
                    let had = lv.take(h as int).map_values(|l: Seq<usize>| mapped(l, reps@));
                    assert(rings_view(hb) == had);
                    assert(lv.len() == df.holes@.len());
                    assert(had.len() == h);
                    assert(rings_view(hb).len() == hb.len());
                    assert(hb.len() == h);
                    assert(holes@.len() == h + 1);
                    assert forall|k: int| 0 <= k < h + 1 implies #[trigger] rings_view(holes@)[k] == want[k] by {
                        if k < h {
                            assert(holes@[k] == hb[k]);
                            assert(rings_view(hb)[k] == had[k]);
                        }
                    }
                    assert(rings_view(holes@) =~= want);
                }
                h = h + 1;
            }
            proof {
                assert(loops_view(df.holes@).take(df.holes@.len() as int) =~= loops_view(df.holes@));
            }
            let ghost before = *mesh;
            let ghost ids_before = ids@;
            proof {
                let f: FaceLoops = (outer@, rings_view(holes@));
                assert forall|v: VertexId| #[trigger] face_has_vertex(f, v) implies mesh.has_vertex(v) by {
                    if outer@.contains(v) {
                        let k = choose|k: int| 0 <= k < outer@.len() && outer@[k] == v;
                        assert(m0.has_vertex(reps@[df.outer@[k] as int]));
                    } else {
                        let q = choose|q: int| 0 <= q < f.1.len() && #[trigger] f.1[q].contains(v);
                        let k = choose|k: int| 0 <= k < f.1[q].len() && f.1[q][k] == v;
                        assert(f.1[q] == mapped(loops_view(df.holes@)[q], reps@));
                        assert(loops_view(df.holes@)[q] == dv[d as int].1[q]);
                        assert(dv[d as int].1[q][k] < reps@.len());
                        assert(m0.has_vertex(reps@[dv[d as int].1[q][k] as int]));
                    }
                }
                m0.lemma_ids_in_range();
            }
            let id = mesh.add_face(outer, holes);
            ids.push(id);
            proof {
                let kept = kept_detected(dv.take(d as int + 1), reps@, pv);
                assert(kept == kept_detected(dv.take(d as int), reps@, pv).push(
                    (mapped(dv[d as int].0, reps@), dv[d as int].1.map_values(|l: Seq<usize>| mapped(l, reps@))),
                ));
                assert forall|k: int| 0 <= k < ids@.len() implies face_is(*mesh, #[trigger] ids@[k], kept[k]) by {
                    if k < ids_before.len() {
                        assert(ids@[k] == ids_before[k]);
                        assert(face_is(before, ids_before[k], kept[k]));
                        assert(ids_before[k] != id);
                    }
                }
                assert forall|g: FaceId| m0.has_face(g) implies #[trigger] face_kept(m0, *mesh, g) by {
                    assert(face_kept(m0, before, g));
                    assert(g != id);
                }
                assert forall|g: FaceId| g.0 < m0.face_slots() implies (#[trigger] mesh.has_face(g) == m0.has_face(g)) by {
                    assert(g != id);
                    assert(before.has_face(g) == m0.has_face(g));
                }
            }
        } else {
            proof {
                assert(kept_detected(dv.take(d as int + 1), reps@, pv) == kept_detected(dv.take(d as int), reps@, pv));
            }
        }
        d = d + 1;
    }
    proof {
        assert(dv.take(detected@.len() as int) =~= dv);
    }
    ids
}

/// `m1` is `m0` after re-detecting faces over the loops: `detected` is
/// what the detector made of the welded graph `reps`/`edges`; when the
/// face ids could not overflow, the kept ones (see `kept_detected`) were
/// added as the faces `r`, in order, and nothing else changed; otherwise
/// nothing was added.
pub open spec fn faces_redetected<P>(
    m0: Mesh<P>,
    m1: Mesh<P>,
    detected: Seq<DetectedFace>,
    reps: Seq<VertexId>,
    protected: Seq<Seq<VertexId>>,
    r: Seq<FaceId>,
) -> bool {
    if m0.face_slots() + detected.len() < usize::MAX {
        &&& faces_are(m1, r, kept_detected(detected_view(detected), reps, protected))
        &&& fresh_face_ids(r, m0.face_slots())
        &&& m1.face_slots() == m0.face_slots() + r.len()
        &&& keeps_faces(m0, m1)
        &&& m1.same_vertices(&m0)
        &&& (m0.wf() ==> m1.wf())
    } else {
        r.len() == 0 && m1 == m0
    }
}

/// Every vertex of every loop of `loops` is a vertex of `m`.
pub open spec fn loops_exist<P>(m: Mesh<P>, loops: Seq<Seq<VertexId>>) -> bool {
    forall|a: int, b: int| 0 <= a < loops.len() && 0 <= b < loops[a].len() ==> m.has_vertex(#[trigger] loops[a][b])
}

/// Re-detects the faces bounded by `loops`: builds their planar graph with
/// coincident vertices welded (`loop_graph`), hands it to `detect` (which
/// traces the bounded regions and nests them, from the positions), and adds
/// every detected face whose outer loop covers none of the `protected`
/// rings (`add_detected_faces`). Returns the new faces.
pub fn resplit_loops<P, W: Fn(VertexId, VertexId) -> bool, D: Fn(&Vec<VertexId>, &Vec<(usize, usize)>) -> Vec<DetectedFace>>(
    mesh: &mut Mesh<P>,
    loops: &Vec<Vec<VertexId>>,
    protected: &Vec<Vec<VertexId>>,
    weld: &W,
    detect: &D,
) -> (r: Vec<FaceId>)
    requires
        forall|a: VertexId, b: VertexId| weld.requires((a, b)),
        forall|p: &Vec<VertexId>, e: &Vec<(usize, usize)>| detect.requires((p, e)),
        forall|p: &Vec<VertexId>, e: &Vec<(usize, usize)>, out: Vec<DetectedFace>|
            detect.ensures((p, e), out) ==> points_in_range(detected_view(out@), p@.len()),
        loops_exist(*old(mesh), rings_view(loops@)),
    ensures
        exists|reps: Vec<VertexId>, edges: Vec<(usize, usize)>, ix: Map<VertexId, usize>, detected: Vec<DetectedFace>|
            {
                &&& #[trigger] welded_graph(rings_view(loops@), *weld, reps@, edges@, ix)
                &&& detect.ensures((&reps, &edges), detected)
                &&& #[trigger] faces_redetected(*old(mesh), *final(mesh), detected@, reps@, rings_view(protected@), r@)
            },
{
    let ghost m0 = *mesh;
    let (reps, edges) = loop_graph(loops, weld);
    let detected = detect(&reps, &edges);
    proof {
        let ix = choose|ix: Map<VertexId, usize>| welded_graph(rings_view(loops@), *weld, reps@, edges@, ix);
        assert forall|i: int| 0 <= i < reps@.len() implies mesh.has_vertex(#[trigger] reps@[i]) by {
            assert(in_rings(rings_view(loops@), reps@[i]));
            let (a, b) = choose|a: int, b: int|
                0 <= a < rings_view(loops@).len() && 0 <= b < rings_view(loops@)[a].len() && #[trigger] rings_view(loops@)[a][b] == reps@[i];
        }
    }
    let n = mesh.face_count();
    if detected.len() >= usize::MAX - n {
        let r: Vec<FaceId> = Vec::new();
        proof {
            let ix = choose|ix: Map<VertexId, usize>| welded_graph(rings_view(loops@), *weld, reps@, edges@, ix);
            assert(faces_redetected(m0, *mesh, detected@, reps@, rings_view(protected@), r@));
        }
        return r;
    }
    let r = add_detected_faces(mesh, &detected, &reps, protected);
    proof {
        let ix = choose|ix: Map<VertexId, usize>| welded_graph(rings_view(loops@), *weld, reps@, edges@, ix);
        assert(faces_redetected(m0, *mesh, detected@, reps@, rings_view(protected@), r@));
    }
    r
}

} // verus!
