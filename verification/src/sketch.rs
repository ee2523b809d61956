use vstd::prelude::*;

use crate::document::{flat, split_loops, splits_view, Document, EdgeSplit, GroupId};
use crate::face_detect::DetectedFace;
use crate::mesh::{copy_ring, copy_rings, face_has_vertex, rings_view, FaceId, Mesh, VertexId};
use crate::resplit::{detected_view, faces_redetected, first_weld, in_rings, loops_exist, points_in_range, unfilled, unfilled_holes, welded_graph};
use crate::resplit::{covers_any, kept_detected, lemma_kept_detected_members, mapped, matches_any, within};

verus! {

/// `w` is what vertex `v` welds onto among `cands`: the first candidate
/// `weld` accepts for it, or `v` itself when it accepts none.
pub open spec fn weld_choice<W: Fn(VertexId, VertexId) -> bool>(cands: Seq<VertexId>, weld: W, v: VertexId, w: VertexId) -> bool {
    ||| exists|j: int|
        0 <= j < cands.len() && cands[j] == w && #[trigger] weld.ensures((cands[j], v), true) && forall|p: int|
            0 <= p < j ==> #[trigger] weld.ensures((cands[p], v), false)
    ||| (w == v && forall|p: int| 0 <= p < cands.len() ==> #[trigger] weld.ensures((cands[p], v), false))
}

/// `r` is the loop `l` with each vertex welded onto `cands`.
pub open spec fn loop_welded<W: Fn(VertexId, VertexId) -> bool>(l: Seq<VertexId>, cands: Seq<VertexId>, weld: W, r: Seq<VertexId>) -> bool {
    &&& r.len() == l.len()
    &&& forall|i: int| 0 <= i < l.len() ==> weld_choice(cands, weld, l[i], #[trigger] r[i])
}

/// `rs` are the loops `ls`, each welded onto `cands`.
pub open spec fn loops_welded<W: Fn(VertexId, VertexId) -> bool>(
    ls: Seq<Seq<VertexId>>,
    cands: Seq<VertexId>,
    weld: W,
    rs: Seq<Seq<VertexId>>,
) -> bool {
    &&& rs.len() == ls.len()
    &&& forall|i: int| 0 <= i < ls.len() ==> loop_welded(ls[i], cands, weld, #[trigger] rs[i])
}

/// `cands` lists (in some order, possibly with repeats) exactly the
/// vertices of the faces connected to face `f` of `m`.
pub open spec fn component_vertex_list<P>(m: Mesh<P>, f: FaceId, cands: Seq<VertexId>) -> bool {
    forall|v: VertexId|
        #[trigger] cands.contains(v) <==> exists|g: FaceId|
            m.has_face(f) && m.has_face(g) && m.linked(m.face_set(), f, g) && #[trigger] face_has_vertex(m.face(g), v)
}

/// Nothing observable changed from `d0` to `d1`.
pub open spec fn left_alone<P>(d0: Document<P>, d1: Document<P>) -> bool {
    &&& d1.wf()
    &&& d1.the_mesh().same_faces(&d0.the_mesh())
    &&& d1.the_mesh().same_vertices(&d0.the_mesh())
    &&& d1.solids() == d0.solids()
    &&& d1.same_groups(&d0)
    &&& d1.selected() == d0.selected()
    &&& d1.guide_list() == d0.guide_list()
}

/// `d1` is `d0` with faces re-detected over `loops` (see
/// `faces_redetected`), as the faces `r`; only the mesh changed.
pub open spec fn redetected<P, W: Fn(VertexId, VertexId) -> bool, D: Fn(&Vec<VertexId>, &Vec<(usize, usize)>) -> Vec<DetectedFace>>(
    d0: Document<P>,
    d1: Document<P>,
    loops: Seq<Seq<VertexId>>,
    protected: Seq<Seq<VertexId>>,
    weld: W,
    detect: D,
    r: Seq<FaceId>,
) -> bool {
    &&& d1.wf()
    &&& exists|reps: Vec<VertexId>, edges: Vec<(usize, usize)>, ix: Map<VertexId, usize>, detected: Vec<DetectedFace>|
        {
            &&& #[trigger] welded_graph(loops, weld, reps@, edges@, ix)
            &&& detect.ensures((&reps, &edges), detected)
            &&& #[trigger] faces_redetected(d0.the_mesh(), d1.the_mesh(), detected@, reps@, protected, r)
        }
    &&& d1.solids() == d0.solids()
    &&& d1.same_groups(&d0)
    &&& d1.selected() == d0.selected()
    &&& d1.guide_list() == d0.guide_list()
}

/// `d1` is `d0` with the boundary splits `splits` of face `face_id` carried
/// over to the other faces of its solid (see
/// `propagate_boundary_split_to_solid_siblings`).
pub open spec fn splits_carried<P: Copy>(d0: Document<P>, d1: Document<P>, face_id: FaceId, splits: Seq<EdgeSplit>, just_created: Seq<FaceId>) -> bool {
    &&& d1.wf()
    &&& d1.the_mesh().wf()
    &&& d1.same_groups(&d0)
    &&& d1.solids() == d0.solids()
    &&& d1.selected() == d0.selected()
    &&& d1.guide_list() == d0.guide_list()
    &&& d1.the_mesh().same_vertices(&d0.the_mesh())
    &&& d1.the_mesh().face_slots() == d0.the_mesh().face_slots()
    &&& forall|g: FaceId| #[trigger] d1.the_mesh().has_face(g) == d0.the_mesh().has_face(g)
    &&& forall|g: FaceId|
        d0.the_mesh().has_face(g) ==> #[trigger] d1.the_mesh().face(g) == if d0.split_sibling(face_id, splits.len(), just_created, g) {
            split_loops(d0.the_mesh().face(g), splits_view(splits))
        } else {
            d0.the_mesh().face(g)
        }
}

/// `d1` is `d0` with face `face_id` replaced by `new_faces` (see
/// `replace_face_with`).
pub open spec fn replaced_by<P>(d0: Document<P>, d1: Document<P>, face_id: FaceId, new_faces: Seq<FaceId>) -> bool {
    &&& d1.wf()
    &&& d1.refiled(&d0, face_id, new_faces)
    &&& d1.solids() == if d0.solids().contains(face_id) {
        d0.solids().remove(face_id).union(new_faces.to_set())
    } else {
        d0.solids().remove(face_id)
    }
    &&& d1.selected() == d0.selected().remove(face_id)
    &&& d1.guide_list() == d0.guide_list()
    &&& !d1.the_mesh().has_face(face_id)
    &&& d1.the_mesh().same_faces_except(&d0.the_mesh(), face_id)
    &&& d1.the_mesh().same_vertices(&d0.the_mesh())
    &&& d1.the_mesh().face_slots() == d0.the_mesh().face_slots()
    &&& (d0.the_mesh().wf() ==> d1.the_mesh().wf())
}

/// Every vertex inserted by `splits` is a vertex of one of `loops`.
pub open spec fn splits_within(splits: Seq<EdgeSplit>, loops: Seq<Seq<VertexId>>) -> bool {
    forall|q: int, k: int| 0 <= q < splits.len() && 0 <= k < splits[q].inserted@.len() ==> in_rings(loops, #[trigger] splits[q].inserted@[k])
}

/// The loops a sketch on face `f` of `m` is re-detected over: the face's
/// outer loop, its holes, then the sketched loops.
pub open spec fn sketch_loops<P>(m: Mesh<P>, f: FaceId, welded: Seq<Seq<VertexId>>) -> Seq<Seq<VertexId>> {
    seq![m.face(f).0] + m.face(f).1 + welded
}

/// Loop `l` with each vertex welded onto `cands`.
pub fn weld_loop_onto<W: Fn(VertexId, VertexId) -> bool>(l: &Vec<VertexId>, cands: &Vec<VertexId>, weld: &W) -> (r: Vec<VertexId>)
    requires
        forall|a: VertexId, b: VertexId| weld.requires((a, b)),
    ensures
        loop_welded(l@, cands@, *weld, r@),
{
    let mut out: Vec<VertexId> = Vec::new();
    let mut i: usize = 0;
    while i < l.len()
        invariant
            forall|a: VertexId, b: VertexId| weld.requires((a, b)),
            i <= l@.len(),
            out@.len() == i,
            forall|k: int| 0 <= k < i ==> weld_choice(cands@, *weld, l@[k], #[trigger] out@[k]),
        decreases l@.len() - i,
    {
        let v = l[i];
        let w = match first_weld(cands, v, weld) {
            Some(h) => {
                proof {
                    assert(weld.ensures((cands@[h as int], v), true));
                }
                cands[h]
            },
            None => v,
        };
        let ghost ob = out@;
        out.push(w);
        proof {
            assert forall|k: int| 0 <= k < i + 1 implies weld_choice(cands@, *weld, l@[k], #[trigger] out@[k]) by {
                if k < i {
                    assert(out@[k] == ob[k]);
                }
            }
        }
        i = i + 1;
    }
    out
}

/// Whether `fits` accepts every vertex of every loop of `loops`.
pub fn all_fit<F: Fn(VertexId) -> bool>(loops: &Vec<Vec<VertexId>>, fits: &F) -> (ok: bool)
    requires
        forall|v: VertexId| fits.requires((v,)),
    ensures
        ok ==> forall|a: int, b: int|
            0 <= a < loops@.len() && 0 <= b < loops@[a]@.len() ==> #[trigger] fits.ensures((loops@[a]@[b],), true),
        !ok ==> exists|a: int, b: int|
            0 <= a < loops@.len() && 0 <= b < loops@[a]@.len() && #[trigger] fits.ensures((loops@[a]@[b],), false),
{
    let mut a: usize = 0;
    while a < loops.len()
        invariant
            forall|v: VertexId| fits.requires((v,)),
            a <= loops@.len(),
            forall|x: int, y: int| 0 <= x < a && 0 <= y < loops@[x]@.len() ==> #[trigger] fits.ensures((loops@[x]@[y],), true),
        decreases loops@.len() - a,
    {
        let l = &loops[a];
        let mut b: usize = 0;
        while b < l.len()
            invariant
                forall|v: VertexId| fits.requires((v,)),
                a < loops@.len(),
                *l == loops@[a as int],
                b <= l@.len(),
                forall|x: int, y: int| 0 <= x < a && 0 <= y < loops@[x]@.len() ==> #[trigger] fits.ensures((loops@[x]@[y],), true),
                forall|y: int| 0 <= y < b ==> #[trigger] fits.ensures((l@[y],), true),
            decreases l@.len() - b,
        {
            let ok = fits(l[b]);
            if !ok {
                proof {
                    assert(fits.ensures((loops@[a as int]@[b as int],), false));
                }
                return false;
            }
            b = b + 1;
        }
        proof {
            assert forall|x: int, y: int| 0 <= x < a + 1 && 0 <= y < loops@[x]@.len() implies #[trigger] fits.ensures((loops@[x]@[y],), true) by {
                if x == a {
                    assert(fits.ensures((l@[y],), true));
                }
            }
        }
        a = a + 1;
    }
    true
}

/// What sketching the loops `extra` on face `face_id` of `d0` did, ending
/// in `d3` with the new faces `r`: nothing when the face is absent or some
/// sketched vertex does not `fits` it (`fit_ok` false); otherwise the
/// sketched loops are welded onto the vertices `cands` of the face's
/// connected solid (`welded`), faces are re-detected over the face's own
/// loops plus the welded ones with its holes kept empty (`d1`), and when
/// that made faces, the boundary splits `splits` of the sketch are carried
/// to the rest of the solid (`d2`) and the face is replaced by the new
/// faces, which take over its group and solid standing.
pub open spec fn sketched<
    P: Copy,
    F: Fn(VertexId) -> bool,
    W: Fn(VertexId, VertexId) -> bool,
    D: Fn(&Vec<VertexId>, &Vec<(usize, usize)>) -> Vec<DetectedFace>,
    S: Fn(&Vec<Vec<VertexId>>) -> Vec<EdgeSplit>,
>(
    d0: Document<P>,
    d3: Document<P>,
    face_id: FaceId,
    extra: Seq<Seq<VertexId>>,
    fits: F,
    weld: W,
    detect: D,
    splits_of: S,
    fit_ok: bool,
    cands: Seq<VertexId>,
    welded: Vec<Vec<VertexId>>,
    d1: Document<P>,
    splits: Vec<EdgeSplit>,
    d2: Document<P>,
    r: Seq<FaceId>,
) -> bool {
    let m0 = d0.the_mesh();
    if !m0.has_face(face_id) {
        r.len() == 0 && left_alone(d0, d3)
    } else {
        &&& (fit_ok ==> forall|a: int, b: int| 0 <= a < extra.len() && 0 <= b < extra[a].len() ==> #[trigger] fits.ensures((extra[a][b],), true))
        &&& (!fit_ok ==> exists|a: int, b: int|
            0 <= a < extra.len() && 0 <= b < extra[a].len() && #[trigger] fits.ensures((extra[a][b],), false))
        &&& if !fit_ok {
            r.len() == 0 && left_alone(d0, d3)
        } else {
            &&& component_vertex_list(m0, face_id, cands)
            &&& loops_welded(extra, cands, weld, rings_view(welded@))
            &&& redetected(d0, d1, sketch_loops(m0, face_id, rings_view(welded@)), m0.face(face_id).1, weld, detect, r)
            &&& if r.len() == 0 {
                left_alone(d0, d3)
            } else {
                &&& splits_of.ensures((&welded,), splits)
                &&& splits_carried(d1, d2, face_id, splits@, r)
                &&& replaced_by(d2, d3, face_id, r)
            }
        }
    }
}

proof fn lemma_left_alone_refl<P>(d: Document<P>)
    requires
        d.wf(),
    ensures
        left_alone(d, d),
{
}

impl<P: Copy> Document<P> {
    /// Rebuilds face `face_id` with the loops `extra` sketched on it (an
    /// inset ring, or a shape drawn on the face): a local resplit of just
    /// this face, which must contain every sketched vertex (`fits`, from
    /// the positions; a sketch that lands on a neighbouring face instead
    /// is rejected). The sketch is welded onto the face's connected solid
    /// (`weld`), faces are re-detected over the face's loops and the
    /// sketch (`detect`) with the face's holes kept empty, and only when
    /// that made faces are the sketch's boundary splits (`splits_of`)
    /// carried to the rest of the solid and the face replaced; see
    /// `sketched`.
    pub fn resplit_face_with_loops<
        F: Fn(VertexId) -> bool,
        W: Fn(VertexId, VertexId) -> bool,
        D: Fn(&Vec<VertexId>, &Vec<(usize, usize)>) -> Vec<DetectedFace>,
        S: Fn(&Vec<Vec<VertexId>>) -> Vec<EdgeSplit>,
    >(
        &mut self,
        face_id: FaceId,
        extra: &Vec<Vec<VertexId>>,
        fits: &F,
        weld: &W,
        detect: &D,
        splits_of: &S,
    ) -> (r: Vec<FaceId>)
        requires
            old(self).wf(),
            old(self).the_mesh().wf(),
            loops_exist(old(self).the_mesh(), rings_view(extra@)),
            forall|v: VertexId| fits.requires((v,)),
            forall|a: VertexId, b: VertexId| weld.requires((a, b)),
            forall|p: &Vec<VertexId>, e: &Vec<(usize, usize)>| detect.requires((p, e)),
            forall|p: &Vec<VertexId>, e: &Vec<(usize, usize)>, out: Vec<DetectedFace>|
                detect.ensures((p, e), out) ==> points_in_range(detected_view(out@), p@.len()),
            forall|l: &Vec<Vec<VertexId>>| splits_of.requires((l,)),
            forall|l: &Vec<Vec<VertexId>>, out: Vec<EdgeSplit>| splits_of.ensures((l,), out) ==> splits_within(out@, rings_view(l@)),
        ensures
            final(self).wf(),
            exists|fit_ok: bool, cands: Seq<VertexId>, welded: Vec<Vec<VertexId>>, d1: Document<P>, splits: Vec<EdgeSplit>, d2: Document<P>|
                #[trigger] sketched(
                    *old(self),
                    *final(self),
                    face_id,
                    rings_view(extra@),
                    *fits,
                    *weld,
                    *detect,
                    *splits_of,
                    fit_ok,
                    cands,
                    welded,
                    d1,
                    splits,
                    d2,
                    r@,
                ),
    {
        let ghost d0 = *self;
        let ghost m0 = self.the_mesh();
        let ghost ev = rings_view(extra@);
        if !self.mesh_ref().contains_face(face_id) {
            let r: Vec<FaceId> = Vec::new();
            proof {
                lemma_left_alone_refl(d0);
                let welded: Vec<Vec<VertexId>> = vstd::pervasive::arbitrary();
                assert(sketched(d0, *self, face_id, ev, *fits, *weld, *detect, *splits_of, false, Seq::empty(), welded, d0, vstd::pervasive::arbitrary(), d0, r@));
            }
            return r;
        }
        let fit_ok = all_fit(extra, fits);
        if !fit_ok {
            let r: Vec<FaceId> = Vec::new();
            proof {
                lemma_left_alone_refl(d0);
                let welded: Vec<Vec<VertexId>> = vstd::pervasive::arbitrary();
                assert forall|a: int, b: int| 0 <= a < ev.len() && 0 <= b < ev[a].len() implies ev[a][b] == extra@[a]@[b] by {}
                let (a, b) = choose|a: int, b: int|
                    0 <= a < extra@.len() && 0 <= b < extra@[a]@.len() && #[trigger] fits.ensures((extra@[a]@[b],), false);
                assert(fits.ensures((ev[a][b],), false));
                assert(sketched(d0, *self, face_id, ev, *fits, *weld, *detect, *splits_of, false, Seq::empty(), welded, d0, vstd::pervasive::arbitrary(), d0, r@));
            }
            return r;
        }
        let cands = self.connected_component_vertices(face_id);
        let mut welded: Vec<Vec<VertexId>> = Vec::new();
        let mut i: usize = 0;
        while i < extra.len()
            invariant
                forall|a: VertexId, b: VertexId| weld.requires((a, b)),
                i <= extra@.len(),
                welded@.len() == i,
                forall|k: int| 0 <= k < i ==> loop_welded(extra@[k]@, cands@, *weld, #[trigger] welded@[k]@),
            decreases extra@.len() - i,
        {
            let w = weld_loop_onto(&extra[i], &cands, weld);
            let ghost wb = welded@;
            welded.push(w);
            proof {
                assert forall|k: int| 0 <= k < i + 1 implies loop_welded(extra@[k]@, cands@, *weld, #[trigger] welded@[k]@) by {
                    if k < i {
                        assert(welded@[k] == wb[k]);
                    }
                }
            }
            i = i + 1;
        }
        let ghost wv = rings_view(welded@);
        proof {
            assert(loops_welded(ev, cands@, *weld, wv));
        }
        let face = self.mesh_ref().get_face(face_id).unwrap().clone();
        let protected = copy_rings(&face.holes);
        let mut loops: Vec<Vec<VertexId>> = Vec::new();
        loops.push(copy_ring(&face.outer));
        let mut hs = copy_rings(&face.holes);
        loops.append(&mut hs);
        let mut ws = copy_rings(&welded);
        loops.append(&mut ws);
        proof {
            assert(rings_view(loops@) =~= sketch_loops(m0, face_id, wv)) by {
                assert(face@ == m0.face(face_id));
            }
            crate::mesh::lemma_wf_face_rings(m0, face_id);
            let lv = rings_view(loops@);
            assert forall|a: int, b: int| 0 <= a < lv.len() && 0 <= b < lv[a].len() implies m0.has_vertex(#[trigger] lv[a][b]) by {
                let fl = m0.face(face_id);
                if a == 0 {
                    assert(lv[a] == fl.0);
                } else if a < 1 + fl.1.len() {
                    assert(lv[a] == fl.1[a - 1]);
                } else {
                    let k = a - 1 - fl.1.len();
                    assert(lv[a] == wv[k]);
                    assert(wv[k] == welded@[k]@);
                    assert(loop_welded(extra@[k]@, cands@, *weld, welded@[k]@));
                    let v = extra@[k]@[b];
                    assert(weld_choice(cands@, *weld, v, welded@[k]@[b]));
                    assert(ev[k][b] == v);
                    if welded@[k]@[b] != v {
                        let j = choose|j: int|
                            0 <= j < cands@.len() && cands@[j] == welded@[k]@[b] && #[trigger] weld.ensures((cands@[j], v), true)
                                && forall|p: int| 0 <= p < j ==> #[trigger] weld.ensures((cands@[p], v), false);
                        assert(cands@.contains(cands@[j]));
                        let g = choose|g: FaceId|
                            m0.has_face(face_id) && m0.has_face(g) && m0.linked(m0.face_set(), face_id, g) && #[trigger] face_has_vertex(
                                m0.face(g),
                                cands@[j],
                            );
                    }
                }
            }
        }
        let ghost d1_pre = *self;
        let new_faces = self.resplit_loops_here(&loops, &protected, weld, detect);
        let ghost d1 = *self;
        proof {
            assert(rings_view(protected@) == m0.face(face_id).1) by {
                assert(face@ == m0.face(face_id));
            }
            assert(redetected(d0, d1, sketch_loops(m0, face_id, wv), m0.face(face_id).1, *weld, *detect, new_faces@));
        }
        if new_faces.len() == 0 {
            proof {
                let (reps, edges, ix, detected) = choose|reps: Vec<VertexId>, edges: Vec<(usize, usize)>, ix: Map<VertexId, usize>, detected: Vec<DetectedFace>|
                    {
                        &&& #[trigger] welded_graph(sketch_loops(m0, face_id, wv), *weld, reps@, edges@, ix)
                        &&& detect.ensures((&reps, &edges), detected)
                        &&& #[trigger] faces_redetected(m0, d1.the_mesh(), detected@, reps@, m0.face(face_id).1, new_faces@)
                    };
                m0.lemma_ids_in_range();
                d1.the_mesh().lemma_ids_in_range();
                let m1 = d1.the_mesh();
                if m0.face_slots() + detected@.len() < usize::MAX {
                    assert forall|g: FaceId| #[trigger] m1.has_face(g) == m0.has_face(g) by {
                        if g.0 >= m0.face_slots() {
                            assert(!m0.has_face(g));
                            assert(!m1.has_face(g));
                        }
                    }
                    assert forall|g: FaceId| m0.has_face(g) implies #[trigger] m1.face(g) == m0.face(g) by {
                        assert(crate::pushpull::face_kept(m0, m1, g));
                    }
                    assert(m1.same_faces(&m0));
                } else {
                    assert(m1 == m0);
                }
                assert(left_alone(d0, d1));
                assert(sketched(d0, *self, face_id, ev, *fits, *weld, *detect, *splits_of, true, cands@, welded, d1, vstd::pervasive::arbitrary(), d1, new_faces@));
            }
            return new_faces;
        }
        let splits = splits_of(&welded);
        proof {
            let (reps, edges, ix, detected) = choose|reps: Vec<VertexId>, edges: Vec<(usize, usize)>, ix: Map<VertexId, usize>, detected: Vec<DetectedFace>|
                {
                    &&& #[trigger] welded_graph(sketch_loops(m0, face_id, wv), *weld, reps@, edges@, ix)
                    &&& detect.ensures((&reps, &edges), detected)
                    &&& #[trigger] faces_redetected(m0, d1.the_mesh(), detected@, reps@, m0.face(face_id).1, new_faces@)
                };
            assert(m0.face_slots() + detected@.len() < usize::MAX);
            assert forall|q: int, k: int|
                0 <= q < splits@.len() && 0 <= k < splits@[q].inserted@.len() implies d1.the_mesh().has_vertex(#[trigger] splits@[q].inserted@[k]) by {
                assert(splits_within(splits@, wv));
                let v = splits@[q].inserted@[k];
                assert(in_rings(wv, v));
                let (a, b) = choose|a: int, b: int| 0 <= a < wv.len() && 0 <= b < wv[a].len() && #[trigger] wv[a][b] == v;
                let lv = rings_view(loops@);
                let hl = m0.face(face_id).1.len();
                assert(lv[1 + hl + a] == wv[a]);
                assert(m0.has_vertex(lv[1 + hl + a][b]));
            }
        }
        self.propagate_boundary_split_to_solid_siblings(face_id, &splits, new_faces.as_slice());
        let ghost d2 = *self;
        proof {
            assert(splits_carried(d1, d2, face_id, splits@, new_faces@));
            m0.lemma_ids_in_range();
            assert(!new_faces@.contains(face_id)) by {
                if new_faces@.contains(face_id) {
                    let k = choose|k: int| 0 <= k < new_faces@.len() && new_faces@[k] == face_id;
                    let (reps, edges, ix, detected) = choose|reps: Vec<VertexId>, edges: Vec<(usize, usize)>, ix: Map<VertexId, usize>, detected: Vec<DetectedFace>|
                        {
                            &&& #[trigger] welded_graph(sketch_loops(m0, face_id, wv), *weld, reps@, edges@, ix)
                            &&& detect.ensures((&reps, &edges), detected)
                            &&& #[trigger] faces_redetected(m0, d1.the_mesh(), detected@, reps@, m0.face(face_id).1, new_faces@)
                        };
                    assert(new_faces@[k].0 == m0.face_slots() + k);
                }
            }
        }
        self.replace_face_with(face_id, &new_faces);
        proof {
            assert(replaced_by(d2, *self, face_id, new_faces@));
            assert(sketched(d0, *self, face_id, ev, *fits, *weld, *detect, *splits_of, true, cands@, welded, d1, splits, d2, new_faces@));
        }
        new_faces
    }
}

/// `ids` lists, in increasing id order, the sketch faces (present, not
/// solid) of `d` that `on_plane` accepted; every other sketch face was
/// turned down.
pub open spec fn on_plane_ids<P, C: Fn(FaceId) -> bool>(d: Document<P>, on_plane: C, ids: Seq<FaceId>) -> bool {
    &&& forall|i: int|
        0 <= i < ids.len() ==> d.the_mesh().has_face(#[trigger] ids[i]) && !d.solids().contains(ids[i]) && on_plane.ensures((ids[i],), true)
    &&& forall|f: FaceId|
        d.the_mesh().has_face(f) && !d.solids().contains(f) && !ids.contains(f) ==> #[trigger] on_plane.ensures((f,), false)
    &&& forall|i: int, j: int| 0 <= i < j < ids.len() ==> (#[trigger] ids[i]).0 < (#[trigger] ids[j]).0
}

/// The outer loops of the faces `ids` of `m`, in order.
pub open spec fn outers_of<P>(m: Mesh<P>, ids: Seq<FaceId>) -> Seq<Seq<VertexId>> {
    ids.map_values(|f: FaceId| m.face(f).0)
}

/// The holes of the faces `ids` of `m`, face by face.
pub open spec fn holes_of<P>(m: Mesh<P>, ids: Seq<FaceId>) -> Seq<Seq<VertexId>> {
    flat(ids.map_values(|f: FaceId| m.face(f).1))
}

/// `d1` is `d0` with the faces `ids` erased (see `erase_faces`).
pub open spec fn faces_erased<P>(d0: Document<P>, d1: Document<P>, ids: Seq<FaceId>) -> bool {
    &&& d1.wf()
    &&& d1.selected() == d0.selected().difference(ids.to_set())
    &&& d1.solids() == d0.solids().difference(ids.to_set())
    &&& d1.guide_list() == d0.guide_list()
    &&& forall|f: FaceId| #[trigger] ids.contains(f) ==> !d1.the_mesh().has_face(f) && d1.group_of(f) is None
    &&& forall|f: FaceId| !ids.contains(f) ==> #[trigger] d1.group_of(f) == d0.group_of(f)
    &&& forall|f: FaceId| !ids.contains(f) ==> (#[trigger] d1.the_mesh().has_face(f) == d0.the_mesh().has_face(f))
    &&& forall|f: FaceId| !ids.contains(f) && d0.the_mesh().has_face(f) ==> #[trigger] d1.the_mesh().face(f) == d0.the_mesh().face(f)
    &&& d1.the_mesh().same_vertices(&d0.the_mesh())
    &&& d1.the_mesh().face_slots() == d0.the_mesh().face_slots()
    &&& d1.group_slots() == d0.group_slots()
    &&& forall|g: GroupId| #[trigger] d1.has_group(g) == d0.has_group(g)
    &&& forall|g: GroupId| d0.has_group(g) ==> #[trigger] d1.group(g) == (d0.group(g).0, d0.members_kept(g, ids))
    &&& (d0.the_mesh().wf() ==> d1.the_mesh().wf())
}

/// What drawing the loop `new_loop` on a plane did to `d0`, ending in `d2`
/// with the new faces `r`: the sketch faces on that plane are `ids`;
/// faces are re-detected over their outer loops, their holes and the new
/// loop, with the holes that none of those outer loops fills kept empty
/// (`d1`); when that made faces, the faces `ids` are erased, and otherwise
/// nothing changed.
pub open spec fn plane_resplit<
    P,
    C: Fn(FaceId) -> bool,
    W: Fn(VertexId, VertexId) -> bool,
    D: Fn(&Vec<VertexId>, &Vec<(usize, usize)>) -> Vec<DetectedFace>,
>(
    d0: Document<P>,
    d2: Document<P>,
    new_loop: Seq<VertexId>,
    on_plane: C,
    weld: W,
    detect: D,
    ids: Seq<FaceId>,
    d1: Document<P>,
    r: Seq<FaceId>,
) -> bool {
    let m0 = d0.the_mesh();
    let outers = outers_of(m0, ids);
    let holes = holes_of(m0, ids);
    &&& on_plane_ids(d0, on_plane, ids)
    &&& redetected(d0, d1, outers + holes + seq![new_loop], unfilled(holes, outers), weld, detect, r)
    &&& if r.len() == 0 {
        left_alone(d0, d2)
    } else {
        faces_erased(d1, d2, ids)
    }
}

impl<P: Copy> Document<P> {
    /// Draws the loop `new_loop` on a plane: every sketch face on that
    /// plane (`on_plane`, from the positions; solid faces never join) is
    /// merged with it - faces are re-detected over their loops and the new
    /// one, so a loop drawn inside a face splits it into an inner face and
    /// a face with a hole - and the old faces are erased, but only when the
    /// re-detection made faces, so nothing is lost when it cannot; see
    /// `plane_resplit`.
    pub fn resplit_plane<
        C: Fn(FaceId) -> bool,
        W: Fn(VertexId, VertexId) -> bool,
        D: Fn(&Vec<VertexId>, &Vec<(usize, usize)>) -> Vec<DetectedFace>,
    >(&mut self, new_loop: &Vec<VertexId>, on_plane: &C, weld: &W, detect: &D) -> (r: Vec<FaceId>)
        requires
            old(self).wf(),
            old(self).the_mesh().wf(),
            forall|k: int| 0 <= k < new_loop@.len() ==> old(self).the_mesh().has_vertex(#[trigger] new_loop@[k]),
            forall|f: FaceId| on_plane.requires((f,)),
            forall|a: VertexId, b: VertexId| weld.requires((a, b)),
            forall|p: &Vec<VertexId>, e: &Vec<(usize, usize)>| detect.requires((p, e)),
            forall|p: &Vec<VertexId>, e: &Vec<(usize, usize)>, out: Vec<DetectedFace>|
                detect.ensures((p, e), out) ==> points_in_range(detected_view(out@), p@.len()),
        ensures
            final(self).wf(),
            exists|ids: Seq<FaceId>, d1: Document<P>|
                #[trigger] plane_resplit(*old(self), *final(self), new_loop@, *on_plane, *weld, *detect, ids, d1, r@),
    {
        let ghost d0 = *self;
        let ghost m0 = self.the_mesh();
        let sketches = self.sketch_face_ids();
        let mut ids: Vec<FaceId> = Vec::new();
        let mut i: usize = 0;
        while i < sketches.len()
            invariant
                forall|f: FaceId| on_plane.requires((f,)),
                i <= sketches@.len(),
                forall|k: int| 0 <= k < sketches@.len() ==> m0.has_face(#[trigger] sketches@[k]) && !d0.solids().contains(sketches@[k]),
                forall|f: FaceId| m0.has_face(f) && !d0.solids().contains(f) ==> sketches@.contains(f),
                forall|k: int, j: int| 0 <= k < j < sketches@.len() ==> (#[trigger] sketches@[k]).0 < (#[trigger] sketches@[j]).0,
                forall|k: int| 0 <= k < ids@.len() ==> m0.has_face(#[trigger] ids@[k]) && !d0.solids().contains(ids@[k]) && on_plane.ensures((ids@[k],), true),
                forall|k: int| 0 <= k < i && !ids@.contains(#[trigger] sketches@[k]) ==> on_plane.ensures((sketches@[k],), false),
                forall|k: int| 0 <= k < ids@.len() ==> exists|j: int| 0 <= j < i && sketches@[j] == #[trigger] ids@[k],
                forall|k: int, j: int| 0 <= k < j < ids@.len() ==> (#[trigger] ids@[k]).0 < (#[trigger] ids@[j]).0,
            decreases sketches@.len() - i,
        {
            let f = sketches[i];
            let keep = on_plane(f);
            let ghost ib = ids@;
            if keep {
                ids.push(f);
                proof {
                    assert forall|k: int, j: int| 0 <= k < j < ids@.len() implies (#[trigger] ids@[k]).0 < (#[trigger] ids@[j]).0 by {
                        if j == ib.len() {
                            let q = choose|q: int| 0 <= q < i && sketches@[q] == ib[k];
                            assert(sketches@[q].0 < sketches@[i as int].0);
                        }
                    }
                    assert forall|k: int| 0 <= k < ids@.len() implies exists|j: int| 0 <= j < i + 1 && sketches@[j] == #[trigger] ids@[k] by {
                        if k < ib.len() {
                            let q = choose|q: int| 0 <= q < i && sketches@[q] == ib[k];
                            assert(ids@[k] == ib[k]);
                        } else {
                            assert(sketches@[i as int] == ids@[k]);
                        }
                    }
                    assert forall|k: int| 0 <= k < i + 1 && !ids@.contains(#[trigger] sketches@[k]) implies on_plane.ensures((sketches@[k],), false) by {
                        if k == i {
                            assert(ids@[ib.len() as int] == f);
                        } else if ib.contains(sketches@[k]) {
                            let q = choose|q: int| 0 <= q < ib.len() && ib[q] == sketches@[k];
                            assert(ids@[q] == sketches@[k]);
                        }
                    }
                }
            } else {
                proof {
                    assert forall|k: int| 0 <= k < ids@.len() implies exists|j: int| 0 <= j < i + 1 && sketches@[j] == #[trigger] ids@[k] by {
                        let q = choose|q: int| 0 <= q < i && sketches@[q] == ids@[k];
                    }
                }
            }
            i = i + 1;
        }
        proof {
            assert(on_plane_ids(d0, *on_plane, ids@)) by {
                assert forall|f: FaceId| m0.has_face(f) && !d0.solids().contains(f) && !ids@.contains(f) implies #[trigger] on_plane.ensures((f,), false) by {
                    let k = choose|k: int| 0 <= k < sketches@.len() && sketches@[k] == f;
                }
            }
        }
        let m = self.mesh_ref();
        let mut outers: Vec<Vec<VertexId>> = Vec::new();
        let mut holes: Vec<Vec<VertexId>> = Vec::new();
        let mut k: usize = 0;
        while k < ids.len()
            invariant
                *m == m0,
                m0.wf(),
                k <= ids@.len(),
                forall|q: int| 0 <= q < ids@.len() ==> m0.has_face(#[trigger] ids@[q]),
                rings_view(outers@) == outers_of(m0, ids@.take(k as int)),
                rings_view(holes@) == holes_of(m0, ids@.take(k as int)),
            decreases ids@.len() - k,
        {
            let face = m.get_face(ids[k]).unwrap();
            let ghost ob = outers@;
            let ghost hb = holes@;
            outers.push(copy_ring(&face.outer));
            let mut hs = copy_rings(&face.holes);
            holes.append(&mut hs);
            proof {
                let t0 = ids@.take(k as int);
                let t1 = ids@.take(k as int + 1);
                assert(t1 =~= t0.push(ids@[k as int]));
                assert(outers_of(m0, t1) =~= outers_of(m0, t0).push(m0.face(ids@[k as int]).0));
                assert(rings_view(outers@) =~= rings_view(ob).push(face.outer@));
                let parts1 = t1.map_values(|f: FaceId| m0.face(f).1);
                let parts0 = t0.map_values(|f: FaceId| m0.face(f).1);
                assert(parts1.drop_last() =~= parts0);
                assert(parts1.last() == m0.face(ids@[k as int]).1);
                assert(rings_view(holes@) =~= rings_view(hb) + rings_view(face.holes@));
            }
            k = k + 1;
        }
        proof {
            assert(ids@.take(ids@.len() as int) =~= ids@);
        }
        let protected = unfilled_holes(&holes, &outers);
        let mut loops = copy_rings(&outers);
        let mut hs = copy_rings(&holes);
        loops.append(&mut hs);
        loops.push(copy_ring(new_loop));
        let ghost outers_v = outers_of(m0, ids@);
        let ghost holes_v = holes_of(m0, ids@);
        proof {
            assert(rings_view(loops@) =~= outers_v + holes_v + seq![new_loop@]);
            let lv = rings_view(loops@);
            assert forall|a: int, b: int| 0 <= a < lv.len() && 0 <= b < lv[a].len() implies m0.has_vertex(#[trigger] lv[a][b]) by {
                if a < outers_v.len() {
                    assert(lv[a] == m0.face(ids@[a]).0);
                    assert(m0.face(ids@[a]).0.contains(lv[a][b]));
                    assert(face_has_vertex(m0.face(ids@[a]), lv[a][b]));
                } else if a < outers_v.len() + holes_v.len() {
                    lemma_flat_member(ids@.map_values(|f: FaceId| m0.face(f).1), a - outers_v.len());
                    let (x, y) = choose|x: int, y: int|
                        0 <= x < ids@.len() && 0 <= y < m0.face(ids@[x]).1.len() && #[trigger] m0.face(ids@[x]).1[y] == holes_v[a - outers_v.len()];
                    assert(m0.face(ids@[x]).1[y].contains(lv[a][b]));
                    assert(face_has_vertex(m0.face(ids@[x]), lv[a][b]));
                } else {
                    assert(lv[a] == new_loop@);
                }
            }
        }
        let new_faces = self.resplit_loops_here(&loops, &protected, weld, detect);
        let ghost d1 = *self;
        proof {
            assert(redetected(d0, d1, outers_v + holes_v + seq![new_loop@], unfilled(holes_v, outers_v), *weld, *detect, new_faces@));
        }
        if new_faces.len() == 0 {
            proof {
                let (reps, edges, ix, detected) = choose|reps: Vec<VertexId>, edges: Vec<(usize, usize)>, ix: Map<VertexId, usize>, detected: Vec<DetectedFace>|
                    {
                        &&& #[trigger] welded_graph(outers_v + holes_v + seq![new_loop@], *weld, reps@, edges@, ix)
                        &&& detect.ensures((&reps, &edges), detected)
                        &&& #[trigger] faces_redetected(m0, d1.the_mesh(), detected@, reps@, unfilled(holes_v, outers_v), new_faces@)
                    };
                m0.lemma_ids_in_range();
                d1.the_mesh().lemma_ids_in_range();
                let m1 = d1.the_mesh();
                if m0.face_slots() + detected@.len() < usize::MAX {
                    assert forall|g: FaceId| #[trigger] m1.has_face(g) == m0.has_face(g) by {
                        if g.0 >= m0.face_slots() {
                            assert(!m0.has_face(g));
                            assert(!m1.has_face(g));
                        }
                    }
                    assert forall|g: FaceId| m0.has_face(g) implies #[trigger] m1.face(g) == m0.face(g) by {
                        assert(crate::pushpull::face_kept(m0, m1, g));
                    }
                    assert(m1.same_faces(&m0));
                } else {
                    assert(m1 == m0);
                }
                assert(left_alone(d0, d1));
                assert(plane_resplit(d0, *self, new_loop@, *on_plane, *weld, *detect, ids@, d1, new_faces@));
            }
            return new_faces;
        }
        self.erase_faces(&ids);
        proof {
            assert(faces_erased(d1, *self, ids@));
            assert(plane_resplit(d0, *self, new_loop@, *on_plane, *weld, *detect, ids@, d1, new_faces@));
        }
        new_faces
    }
}

/// Every hole of `holes` that the loop `outer` covers is filled: it is the
/// same ring as one of the loops `outers`.
pub open spec fn covers_only_filled(outer: Seq<VertexId>, holes: Seq<Seq<VertexId>>, outers: Seq<Seq<VertexId>>) -> bool {
    forall|h: int|
        0 <= h < holes.len() && holes[h].len() <= outer.len() && #[trigger] within(holes[h], outer) ==> matches_any(holes[h], outers)
}

/// Law: drawing on a plane gives back every face that filled a hole. The
/// faces detected over the loops of the plane's sketch faces and the new
/// loop are all re-created, except those whose outer loop covers a hole
/// of those sketch faces that none of their outer loops fills. So a
/// detected face whose outer loop covers only filled holes (a disc filling
/// a ring's hole, say) is one of the new faces of the final document, with
/// the loops detected for it; and no new face's outer loop covers a hole
/// that was left unfilled.
pub proof fn lemma_plane_resplit_refills_filled_holes<
    P,
    C: Fn(FaceId) -> bool,
    W: Fn(VertexId, VertexId) -> bool,
    D: Fn(&Vec<VertexId>, &Vec<(usize, usize)>) -> Vec<DetectedFace>,
>(
    d0: Document<P>,
    d2: Document<P>,
    new_loop: Seq<VertexId>,
    on_plane: C,
    weld: W,
    detect: D,
    ids: Seq<FaceId>,
    d1: Document<P>,
    r: Seq<FaceId>,
)
    requires
        plane_resplit(d0, d2, new_loop, on_plane, weld, detect, ids, d1, r),
    ensures
        exists|reps: Vec<VertexId>, edges: Vec<(usize, usize)>, ix: Map<VertexId, usize>, detected: Vec<DetectedFace>|
            #![trigger welded_graph(outers_of(d0.the_mesh(), ids) + holes_of(d0.the_mesh(), ids) + seq![new_loop], weld, reps@, edges@, ix), detected_view(detected@)]
            {
                &&& welded_graph(outers_of(d0.the_mesh(), ids) + holes_of(d0.the_mesh(), ids) + seq![new_loop], weld, reps@, edges@, ix)
                &&& detect.ensures((&reps, &edges), detected)
                &&& d0.the_mesh().face_slots() + detected@.len() < usize::MAX ==> forall|j: int|
                    0 <= j < detected_view(detected@).len() && #[trigger] covers_only_filled(
                        mapped(detected_view(detected@)[j].0, reps@),
                        holes_of(d0.the_mesh(), ids),
                        outers_of(d0.the_mesh(), ids),
                    ) ==> exists|k: int|
                        0 <= k < r.len() && d2.the_mesh().has_face(#[trigger] r[k]) && d2.the_mesh().face(r[k]) == (
                            mapped(detected_view(detected@)[j].0, reps@),
                            detected_view(detected@)[j].1.map_values(|l: Seq<usize>| mapped(l, reps@)),
                        )
                &&& forall|k: int|
                    0 <= k < r.len() ==> d2.the_mesh().has_face(#[trigger] r[k]) && covers_only_filled(
                        d2.the_mesh().face(r[k]).0,
                        holes_of(d0.the_mesh(), ids),
                        outers_of(d0.the_mesh(), ids),
                    )
            },
{
    let m0 = d0.the_mesh();
    let outers = outers_of(m0, ids);
    let holes = holes_of(m0, ids);
    let loops = outers + holes + seq![new_loop];
    let prot = unfilled(holes, outers);
    let (reps, edges, ix, detected) = choose|reps: Vec<VertexId>, edges: Vec<(usize, usize)>, ix: Map<VertexId, usize>, detected: Vec<DetectedFace>|
        {
            &&& #[trigger] welded_graph(loops, weld, reps@, edges@, ix)
            &&& detect.ensures((&reps, &edges), detected)
            &&& #[trigger] faces_redetected(m0, d1.the_mesh(), detected@, reps@, prot, r)
        };
    let m1 = d1.the_mesh();
    let dv = detected_view(detected@);
    let kept = kept_detected(dv, reps@, prot);
    lemma_kept_detected_members(dv, reps@, prot);
    m0.lemma_ids_in_range();
    if m0.face_slots() + detected@.len() < usize::MAX {
        assert forall|k: int| 0 <= k < r.len() implies d2.the_mesh().has_face(#[trigger] r[k]) && d2.the_mesh().face(r[k]) == kept[k] by {
            assert(crate::pushpull::face_is(m1, r[k], kept[k]));
            assert(faces_erased(d1, d2, ids));
            if ids.contains(r[k]) {
                let i = choose|i: int| 0 <= i < ids.len() && ids[i] == r[k];
                assert(m0.has_face(ids[i]));
            }
        }
        assert forall|j: int|
            0 <= j < dv.len() && #[trigger] covers_only_filled(mapped(dv[j].0, reps@), holes, outers) implies exists|k: int|
                0 <= k < r.len() && d2.the_mesh().has_face(#[trigger] r[k]) && d2.the_mesh().face(r[k]) == (
                    mapped(dv[j].0, reps@),
                    dv[j].1.map_values(|l: Seq<usize>| mapped(l, reps@)),
                ) by {
            let x = mapped(dv[j].0, reps@);
            if covers_any(x, prot) {
                let c = choose|c: int| 0 <= c < prot.len() && (#[trigger] prot[c]).len() <= x.len() && within(prot[c], x);
                holes.lemma_filter_pred(crate::resplit::matching_none(outers), c);
                holes.lemma_filter_contains_rev(crate::resplit::matching_none(outers), prot[c]);
                let h = choose|h: int| 0 <= h < holes.len() && holes[h] == prot[c];
                assert(within(holes[h], x));
                assert(matches_any(holes[h], outers));
                assert(false);
            }
            let pair = (x, dv[j].1.map_values(|l: Seq<usize>| mapped(l, reps@)));
            assert(kept.contains(pair));
            let q = choose|q: int| 0 <= q < kept.len() && kept[q] == pair;
            assert(d2.the_mesh().has_face(r[q]) && d2.the_mesh().face(r[q]) == kept[q]);
        }
        assert forall|k: int| 0 <= k < r.len() implies d2.the_mesh().has_face(#[trigger] r[k]) && covers_only_filled(
            d2.the_mesh().face(r[k]).0,
            holes,
            outers,
        ) by {
            assert(d2.the_mesh().face(r[k]) == kept[k]);
            assert(!covers_any(kept[k].0, prot));
            assert forall|h: int|
                0 <= h < holes.len() && holes[h].len() <= kept[k].0.len() && #[trigger] within(holes[h], kept[k].0) implies matches_any(
                holes[h],
                outers,
            ) by {
                if !matches_any(holes[h], outers) {
                    holes.lemma_filter_contains(crate::resplit::matching_none(outers), h);
                    let c = choose|c: int| 0 <= c < prot.len() && prot[c] == holes[h];
                    assert(prot[c].len() <= kept[k].0.len() && within(prot[c], kept[k].0));
                    assert(false);
                }
            }
        }
    } else {
        assert(r.len() == 0);
    }
    assert(welded_graph(outers + holes + seq![new_loop], weld, reps@, edges@, ix));
}

/// Each loop of `flat(parts)` is a loop of one of the parts.
proof fn lemma_flat_member(parts: Seq<Seq<Seq<VertexId>>>, i: int)
    requires
        0 <= i < flat(parts).len(),
    ensures
        exists|x: int, y: int| 0 <= x < parts.len() && 0 <= y < parts[x].len() && #[trigger] parts[x][y] == flat(parts)[i],
    decreases parts.len(),
{
    if parts.len() > 0 {
        let rest = flat(parts.drop_last());
        if i < rest.len() {
            lemma_flat_member(parts.drop_last(), i);
            let (x, y) = choose|x: int, y: int|
                0 <= x < parts.drop_last().len() && 0 <= y < parts.drop_last()[x].len() && #[trigger] parts.drop_last()[x][y] == flat(parts.drop_last())[i];
            assert(parts[x] == parts.drop_last()[x]);
            assert(parts[x][y] == flat(parts)[i]);
        } else {
            let y = i - rest.len();
            assert(parts[parts.len() - 1][y] == flat(parts)[i]);
        }
    }
}

/// What `resplit` did with the drawn loop `new_loop`: a local resplit of
/// the target face when it exists (`sketched`), else a resplit of the
/// sketch faces of the loop's plane (`plane_resplit`).
pub open spec fn resplit_outcome<
    P: Copy,
    C: Fn(FaceId) -> bool,
    F: Fn(VertexId) -> bool,
    W: Fn(VertexId, VertexId) -> bool,
    D: Fn(&Vec<VertexId>, &Vec<(usize, usize)>) -> Vec<DetectedFace>,
    S: Fn(&Vec<Vec<VertexId>>) -> Vec<EdgeSplit>,
>(
    d0: Document<P>,
    d1: Document<P>,
    new_loop: Seq<VertexId>,
    target: Option<FaceId>,
    on_plane: C,
    fits: F,
    weld: W,
    detect: D,
    splits_of: S,
    r: Seq<FaceId>,
) -> bool {
    match target {
        Some(f) if d0.the_mesh().has_face(f) => exists|
            fit_ok: bool,
            cands: Seq<VertexId>,
            welded: Vec<Vec<VertexId>>,
            da: Document<P>,
            splits: Vec<EdgeSplit>,
            db: Document<P>,
        |
            #[trigger] sketched(d0, d1, f, seq![new_loop], fits, weld, detect, splits_of, fit_ok, cands, welded, da, splits, db, r),
        _ => exists|ids: Seq<FaceId>, da: Document<P>| #[trigger] plane_resplit(d0, d1, new_loop, on_plane, weld, detect, ids, da, r),
    }
}

/// `d1` is `d0` with one fresh vertex per position of `positions`, in
/// order, as the vertices `ids`; nothing else changed.
pub open spec fn vertices_added<P>(d0: Document<P>, d1: Document<P>, positions: Seq<P>, ids: Seq<VertexId>) -> bool {
    let m0 = d0.the_mesh();
    let m1 = d1.the_mesh();
    &&& d1.wf()
    &&& ids.len() == positions.len()
    &&& forall|k: int| 0 <= k < ids.len() ==> #[trigger] ids[k] == VertexId((m0.vertex_slots() + k) as usize) && m1.has_vertex(ids[k])
        && m1.pos(ids[k]) == positions[k]
    &&& m1.vertex_slots() == m0.vertex_slots() + ids.len()
    &&& forall|v: VertexId| m0.has_vertex(v) ==> #[trigger] m1.has_vertex(v) && m1.pos(v) == m0.pos(v)
    &&& forall|v: VertexId| #[trigger] m1.has_vertex(v) ==> m0.has_vertex(v) || ids.contains(v)
    &&& m1.same_faces(&m0)
    &&& (m0.wf() ==> m1.wf())
    &&& d1.solids() == d0.solids()
    &&& d1.same_groups(&d0)
    &&& d1.selected() == d0.selected()
    &&& d1.guide_list() == d0.guide_list()
}

impl<P: Copy> Document<P> {
    /// Adds the drawn loop `new_loop` to the document: onto the target
    /// face when there is one and it still exists (a local resplit of just
    /// that face, see `resplit_face_with_loops`), else onto every sketch
    /// face of its plane (see `resplit_plane`).
    pub fn resplit<
        C: Fn(FaceId) -> bool,
        F: Fn(VertexId) -> bool,
        W: Fn(VertexId, VertexId) -> bool,
        D: Fn(&Vec<VertexId>, &Vec<(usize, usize)>) -> Vec<DetectedFace>,
        S: Fn(&Vec<Vec<VertexId>>) -> Vec<EdgeSplit>,
    >(
        &mut self,
        new_loop: Vec<VertexId>,
        target: Option<FaceId>,
        on_plane: &C,
        fits: &F,
        weld: &W,
        detect: &D,
        splits_of: &S,
    ) -> (r: Vec<FaceId>)
        requires
            old(self).wf(),
            old(self).the_mesh().wf(),
            forall|k: int| 0 <= k < new_loop@.len() ==> old(self).the_mesh().has_vertex(#[trigger] new_loop@[k]),
            forall|f: FaceId| on_plane.requires((f,)),
            forall|v: VertexId| fits.requires((v,)),
            forall|a: VertexId, b: VertexId| weld.requires((a, b)),
            forall|p: &Vec<VertexId>, e: &Vec<(usize, usize)>| detect.requires((p, e)),
            forall|p: &Vec<VertexId>, e: &Vec<(usize, usize)>, out: Vec<DetectedFace>|
                detect.ensures((p, e), out) ==> points_in_range(detected_view(out@), p@.len()),
            forall|l: &Vec<Vec<VertexId>>| splits_of.requires((l,)),
            forall|l: &Vec<Vec<VertexId>>, out: Vec<EdgeSplit>| splits_of.ensures((l,), out) ==> splits_within(out@, rings_view(l@)),
        ensures
            final(self).wf(),
            resplit_outcome(*old(self), *final(self), new_loop@, target, *on_plane, *fits, *weld, *detect, *splits_of, r@),
    {
        if let Some(f) = target {
            if self.mesh_ref().contains_face(f) {
                let extra = vec![new_loop];
                proof {
                    assert(rings_view(extra@) =~= seq![extra@[0]@]);
                    assert(loops_exist(self.the_mesh(), rings_view(extra@)));
                }
                return self.resplit_face_with_loops(f, &extra, fits, weld, detect, splits_of);
            }
        }
        self.resplit_plane(&new_loop, on_plane, weld, detect)
    }
}

impl<P: Copy> Document<P> {
    /// Draws a closed loop through `positions` (the corners of a
    /// rectangle, circle, arc, polygon or n-gon, placed on their plane by
    /// the caller): nothing when there are fewer than three; otherwise one
    /// new vertex per position, and the loop through them goes to
    /// `resplit`.
    pub fn draw_loop<
        C: Fn(FaceId) -> bool,
        F: Fn(VertexId) -> bool,
        W: Fn(VertexId, VertexId) -> bool,
        D: Fn(&Vec<VertexId>, &Vec<(usize, usize)>) -> Vec<DetectedFace>,
        S: Fn(&Vec<Vec<VertexId>>) -> Vec<EdgeSplit>,
    >(
        &mut self,
        positions: &Vec<P>,
        target: Option<FaceId>,
        on_plane: &C,
        fits: &F,
        weld: &W,
        detect: &D,
        splits_of: &S,
    ) -> (r: Vec<FaceId>)
        requires
            old(self).wf(),
            old(self).the_mesh().wf(),
            old(self).the_mesh().vertex_slots() + positions@.len() < usize::MAX,
            forall|f: FaceId| on_plane.requires((f,)),
            forall|v: VertexId| fits.requires((v,)),
            forall|a: VertexId, b: VertexId| weld.requires((a, b)),
            forall|p: &Vec<VertexId>, e: &Vec<(usize, usize)>| detect.requires((p, e)),
            forall|p: &Vec<VertexId>, e: &Vec<(usize, usize)>, out: Vec<DetectedFace>|
                detect.ensures((p, e), out) ==> points_in_range(detected_view(out@), p@.len()),
            forall|l: &Vec<Vec<VertexId>>| splits_of.requires((l,)),
            forall|l: &Vec<Vec<VertexId>>, out: Vec<EdgeSplit>| splits_of.ensures((l,), out) ==> splits_within(out@, rings_view(l@)),
        ensures
            final(self).wf(),
            positions@.len() < 3 ==> r@.len() == 0 && left_alone(*old(self), *final(self)),
            positions@.len() >= 3 ==> exists|ids: Vec<VertexId>, d1: Document<P>|
                {
                    &&& #[trigger] vertices_added(*old(self), d1, positions@, ids@)
                    &&& resplit_outcome(d1, *final(self), ids@, target, *on_plane, *fits, *weld, *detect, *splits_of, r@)
                },
    {
        let ghost d0 = *self;
        if positions.len() < 3 {
            proof {
                lemma_left_alone_refl(d0);
            }
            return Vec::new();
        }
        let mut ids: Vec<VertexId> = Vec::new();
        let mut k: usize = 0;
        proof {
            assert(vertices_added(d0, *self, positions@.take(0), ids@));
        }
        while k < positions.len()
            invariant
                d0.wf(),
                d0.the_mesh().vertex_slots() + positions@.len() < usize::MAX,
                k <= positions@.len(),
                vertices_added(d0, *self, positions@.take(k as int), ids@),
            decreases positions@.len() - k,
        {
            let ghost db = *self;
            let ghost ib = ids@;
            let id = self.add_loaded_vertex(positions[k]);
            ids.push(id);
            proof {
                let m0 = d0.the_mesh();
                let mb = db.the_mesh();
                let m1 = self.the_mesh();
                assert(positions@.take(k as int + 1) =~= positions@.take(k as int).push(positions@[k as int]));
                assert forall|q: int| 0 <= q < ids@.len() implies #[trigger] ids@[q] == VertexId((m0.vertex_slots() + q) as usize)
                    && m1.has_vertex(ids@[q]) && m1.pos(ids@[q]) == positions@.take(k as int + 1)[q] by {
                    if q < ib.len() {
                        assert(ids@[q] == ib[q]);
                        assert(mb.has_vertex(ib[q]));
                        assert(ib[q] != id);
                    }
                }
                assert forall|v: VertexId| #[trigger] m1.has_vertex(v) implies m0.has_vertex(v) || ids@.contains(v) by {
                    if v != id {
                        assert(mb.has_vertex(v));
                        if ib.contains(v) {
                            let q = choose|q: int| 0 <= q < ib.len() && ib[q] == v;
                            assert(ids@[q] == v);
                        }
                    } else {
                        assert(ids@[ib.len() as int] == v);
                    }
                }
                assert forall|v: VertexId| m0.has_vertex(v) implies #[trigger] m1.has_vertex(v) && m1.pos(v) == m0.pos(v) by {
                    m0.lemma_ids_in_range();
                    assert(mb.has_vertex(v));
                    assert(v != id);
                }
                assert(m1.same_faces(&m0));
                assert forall|g| #[trigger] self.has_group(g) == d0.has_group(g) by {
                    assert(db.has_group(g) == d0.has_group(g));
                }
                assert forall|g| d0.has_group(g) implies #[trigger] self.group(g) == d0.group(g) by {
                    assert(db.group(g) == d0.group(g));
                }
                assert forall|f| #[trigger] self.group_of(f) == d0.group_of(f) by {
                    assert(db.group_of(f) == d0.group_of(f));
                }
            }
            k = k + 1;
        }
        let ghost d1 = *self;
        proof {
            assert(positions@.take(positions@.len() as int) =~= positions@);
            assert forall|q: int| 0 <= q < ids@.len() implies self.the_mesh().has_vertex(#[trigger] ids@[q]) by {}
        }
        self.resplit(ids, target, on_plane, fits, weld, detect, splits_of)
    }
}

impl<P: Copy> Document<P> {
    /// Insets face `face_id`: `inset` is its outer loop offset inward (the
    /// caller's offset of the face's outline, `None` when the offset is too
    /// large for the shape). Nothing happens when the face is absent or
    /// there is no inset; otherwise one new vertex per inset corner, and
    /// the face is resplit with that loop (see `resplit_face_with_loops`),
    /// giving an inner face and a frame around it.
    pub fn inset_face<
        F: Fn(VertexId) -> bool,
        W: Fn(VertexId, VertexId) -> bool,
        D: Fn(&Vec<VertexId>, &Vec<(usize, usize)>) -> Vec<DetectedFace>,
        S: Fn(&Vec<Vec<VertexId>>) -> Vec<EdgeSplit>,
    >(
        &mut self,
        face_id: FaceId,
        inset: &Option<Vec<P>>,
        fits: &F,
        weld: &W,
        detect: &D,
        splits_of: &S,
    ) -> (r: Vec<FaceId>)
        requires
            old(self).wf(),
            old(self).the_mesh().wf(),
            inset matches Some(pts) ==> old(self).the_mesh().vertex_slots() + pts@.len() < usize::MAX,
            forall|v: VertexId| fits.requires((v,)),
            forall|a: VertexId, b: VertexId| weld.requires((a, b)),
            forall|p: &Vec<VertexId>, e: &Vec<(usize, usize)>| detect.requires((p, e)),
            forall|p: &Vec<VertexId>, e: &Vec<(usize, usize)>, out: Vec<DetectedFace>|
                detect.ensures((p, e), out) ==> points_in_range(detected_view(out@), p@.len()),
            forall|l: &Vec<Vec<VertexId>>| splits_of.requires((l,)),
            forall|l: &Vec<Vec<VertexId>>, out: Vec<EdgeSplit>| splits_of.ensures((l,), out) ==> splits_within(out@, rings_view(l@)),
        ensures
            final(self).wf(),
            !old(self).the_mesh().has_face(face_id) || inset is None ==> r@.len() == 0 && left_alone(*old(self), *final(self)),
            old(self).the_mesh().has_face(face_id) && inset is Some ==> exists|ids: Vec<VertexId>, d1: Document<P>|
                {
                    &&& #[trigger] vertices_added(*old(self), d1, inset->0@, ids@)
                    &&& exists|fit_ok: bool, cands: Seq<VertexId>, welded: Vec<Vec<VertexId>>, da: Document<P>, splits: Vec<EdgeSplit>, db: Document<P>|
                        #[trigger] sketched(d1, *final(self), face_id, seq![ids@], *fits, *weld, *detect, *splits_of, fit_ok, cands, welded, da, splits, db, r@)
                },
    {
        let ghost d0 = *self;
        if !self.mesh_ref().contains_face(face_id) {
            proof {
                lemma_left_alone_refl(d0);
            }
            return Vec::new();
        }
        let pts = match inset {
            Some(p) => p,
            None => {
                proof {
                    lemma_left_alone_refl(d0);
                }
                return Vec::new();
            },
        };
        let mut ids: Vec<VertexId> = Vec::new();
        let mut k: usize = 0;
        proof {
            assert(vertices_added(d0, *self, pts@.take(0), ids@));
        }
        while k < pts.len()
            invariant
                d0.wf(),
                d0.the_mesh().vertex_slots() + pts@.len() < usize::MAX,
                k <= pts@.len(),
                vertices_added(d0, *self, pts@.take(k as int), ids@),
            decreases pts@.len() - k,
        {
            let ghost db = *self;
            let ghost ib = ids@;
            let id = self.add_loaded_vertex(pts[k]);
            ids.push(id);
            proof {
                let m0 = d0.the_mesh();
                let mb = db.the_mesh();
                let m1 = self.the_mesh();
                assert(pts@.take(k as int + 1) =~= pts@.take(k as int).push(pts@[k as int]));
                assert forall|q: int| 0 <= q < ids@.len() implies #[trigger] ids@[q] == VertexId((m0.vertex_slots() + q) as usize)
                    && m1.has_vertex(ids@[q]) && m1.pos(ids@[q]) == pts@.take(k as int + 1)[q] by {
                    if q < ib.len() {
                        assert(ids@[q] == ib[q]);
                        assert(mb.has_vertex(ib[q]));
                        assert(ib[q] != id);
                    }
                }
                assert forall|v: VertexId| #[trigger] m1.has_vertex(v) implies m0.has_vertex(v) || ids@.contains(v) by {
                    if v != id {
                        assert(mb.has_vertex(v));
                        if ib.contains(v) {
                            let q = choose|q: int| 0 <= q < ib.len() && ib[q] == v;
                            assert(ids@[q] == v);
                        }
                    } else {
                        assert(ids@[ib.len() as int] == v);
                    }
                }
                assert forall|v: VertexId| m0.has_vertex(v) implies #[trigger] m1.has_vertex(v) && m1.pos(v) == m0.pos(v) by {
                    m0.lemma_ids_in_range();
                    assert(mb.has_vertex(v));
                    assert(v != id);
                }
                assert(m1.same_faces(&m0));
                assert forall|g| #[trigger] self.has_group(g) == d0.has_group(g) by {
                    assert(db.has_group(g) == d0.has_group(g));
                }
                assert forall|g| d0.has_group(g) implies #[trigger] self.group(g) == d0.group(g) by {
                    assert(db.group(g) == d0.group(g));
                }
                assert forall|f| #[trigger] self.group_of(f) == d0.group_of(f) by {
                    assert(db.group_of(f) == d0.group_of(f));
                }
            }
            k = k + 1;
        }
        proof {
            assert(pts@.take(pts@.len() as int) =~= pts@);
        }
        let extra = vec![ids];
        proof {
            assert(rings_view(extra@) =~= seq![extra@[0]@]);
            assert(loops_exist(self.the_mesh(), rings_view(extra@)));
            assert(self.the_mesh().has_face(face_id));
        }
        self.resplit_face_with_loops(face_id, &extra, fits, weld, detect, splits_of)
    }
}

} // verus!
