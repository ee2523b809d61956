use vstd::prelude::*;

use crate::document::Document;
use crate::mesh::{face_has_vertex, FaceId, Mesh, VertexId};

verus! {

/// `v` is a vertex of one of the faces of `ids` that `m` has.
pub open spec fn touched_by<P>(m: Mesh<P>, ids: Seq<FaceId>, v: VertexId) -> bool {
    exists|k: int| 0 <= k < ids.len() && m.has_face(ids[k]) && #[trigger] face_has_vertex(m.face(ids[k]), v)
}

/// `d1` is `d0` with every vertex touched by the faces `ids` moved where
/// `map_pos` sends it (once, however many of those faces share it) and
/// every other vertex left in place; faces and all bookkeeping unchanged.
pub open spec fn transformed<P, F: Fn(P) -> P>(d0: Document<P>, d1: Document<P>, ids: Seq<FaceId>, map_pos: F) -> bool {
    let m0 = d0.the_mesh();
    let m1 = d1.the_mesh();
    &&& d1.wf()
    &&& m0.wf() ==> m1.wf()
    &&& m1.vertex_slots() == m0.vertex_slots()
    &&& forall|v: VertexId| #[trigger] m1.has_vertex(v) == m0.has_vertex(v)
    &&& forall|v: VertexId|
        m0.has_vertex(v) ==> if touched_by(m0, ids, v) {
            map_pos.ensures((m0.pos(v),), #[trigger] m1.pos(v))
        } else {
            m1.pos(v) == m0.pos(v)
        }
    &&& m1.same_faces(&m0)
    &&& d1.solids() == d0.solids()
    &&& d1.same_groups(&d0)
    &&& d1.selected() == d0.selected()
    &&& d1.guide_list() == d0.guide_list()
}

fn list_has_vertex(list: &Vec<VertexId>, v: VertexId) -> (r: bool)
    ensures
        r == list@.contains(v),
{
    let mut i: usize = 0;
    while i < list.len()
        invariant
            i <= list@.len(),
            forall|k: int| 0 <= k < i ==> list@[k] != v,
        decreases list@.len() - i,
    {
        if list[i] == v {
            proof {
                assert(list@[i as int] == v);
            }
            return true;
        }
        i = i + 1;
    }
    false
}

impl<P: Copy> Document<P> {
    /// Every vertex of the faces of `face_ids` that are present, each once.
    pub fn unique_vertices(&self, face_ids: &[FaceId]) -> (r: Vec<VertexId>)
        ensures
            r@.no_duplicates(),
            forall|v: VertexId| #[trigger] r@.contains(v) <==> touched_by(self.the_mesh(), face_ids@, v),
    {
        let m = self.mesh_ref();
        let mut out: Vec<VertexId> = Vec::new();
        let mut i: usize = 0;
        while i < face_ids.len()
            invariant
                *m == self.the_mesh(),
                i <= face_ids@.len(),
                out@.no_duplicates(),
                forall|v: VertexId| #[trigger] out@.contains(v) <==> touched_by(*m, face_ids@.take(i as int), v),
            decreases face_ids@.len() - i,
        {
            let f = face_ids[i];
            let ghost ids0 = face_ids@.take(i as int);
            let ghost ids1 = face_ids@.take(i as int + 1);
            proof {
                assert(ids1 =~= ids0.push(f));
            }
            if m.contains_face(f) {
                let list = m.face_vertex_list(f);
                let ghost ob = out@;
                let mut j: usize = 0;
                while j < list.len()
                    invariant
                        j <= list@.len(),
                        out@.no_duplicates(),
                        forall|v: VertexId| #[trigger] out@.contains(v) <==> (ob.contains(v) || list@.take(j as int).contains(v)),
                    decreases list@.len() - j,
                {
                    let v = list[j];
                    let ghost oj = out@;
                    proof {
                        assert(list@.take(j as int + 1) =~= list@.take(j as int).push(v));
                    }
                    if !list_has_vertex(&out, v) {
                        out.push(v);
                        proof {
                            assert forall|x: int, y: int| 0 <= x < y < out@.len() implies out@[x] != out@[y] by {
                                if y == oj.len() {
                                    assert(oj.contains(out@[x]));
                                }
                            }
                        }
                    }
                    proof {
                        assert forall|w: VertexId| #[trigger] out@.contains(w) <==> (ob.contains(w) || list@.take(j as int + 1).contains(w)) by {
                            let lt = list@.take(j as int);
                            let lt1 = list@.take(j as int + 1);
                            if lt1.contains(w) {
                                let q = choose|q: int| 0 <= q < lt1.len() && lt1[q] == w;
                                if q < j {
                                    assert(lt[q] == w);
                                }
                            }
                            if lt.contains(w) {
                                let q = choose|q: int| 0 <= q < lt.len() && lt[q] == w;
                                assert(lt1[q] == w);
                            }
                            if oj.contains(w) {
                                let q = choose|q: int| 0 <= q < oj.len() && oj[q] == w;
                                assert(out@[q] == w);
                            }
                            if out@.contains(w) && !oj.contains(w) {
                                let q = choose|q: int| 0 <= q < out@.len() && out@[q] == w;
                                assert(w == v);
                                assert(lt1[j as int] == w);
                            }
                            if w == v && !oj.contains(w) {
                                assert(out@[oj.len() as int] == w);
                            }
                        }
                    }
                    j = j + 1;
                }
                proof {
                    assert(list@.take(list@.len() as int) =~= list@);
                    assert forall|v: VertexId| #[trigger] out@.contains(v) <==> touched_by(*m, ids1, v) by {
                        if touched_by(*m, ids1, v) {
                            let k = choose|k: int| 0 <= k < ids1.len() && m.has_face(ids1[k]) && #[trigger] face_has_vertex(m.face(ids1[k]), v);
                            if k < i {
                                assert(ids0[k] == ids1[k]);
                                assert(touched_by(*m, ids0, v));
                            } else {
                                assert(list@.contains(v));
                            }
                        }
                        if ob.contains(v) {
                            let k = choose|k: int| 0 <= k < ids0.len() && m.has_face(ids0[k]) && #[trigger] face_has_vertex(m.face(ids0[k]), v);
                            assert(ids1[k] == ids0[k]);
                        }
                        if list@.contains(v) {
                            assert(face_has_vertex(m.face(ids1[i as int]), v));
                        }
                    }
                }
            } else {
                proof {
                    assert forall|v: VertexId| #[trigger] out@.contains(v) <==> touched_by(*m, ids1, v) by {
                        if touched_by(*m, ids1, v) {
                            let k = choose|k: int| 0 <= k < ids1.len() && m.has_face(ids1[k]) && #[trigger] face_has_vertex(m.face(ids1[k]), v);
                            assert(k < i);
                            assert(ids0[k] == ids1[k]);
                        }
                        if out@.contains(v) {
                            let k = choose|k: int| 0 <= k < ids0.len() && m.has_face(ids0[k]) && #[trigger] face_has_vertex(m.face(ids0[k]), v);
                            assert(ids1[k] == ids0[k]);
                        }
                    }
                }
            }
            i = i + 1;
        }
        proof {
            assert(face_ids@.take(face_ids@.len() as int) =~= face_ids@);
        }
        out
    }

    /// Moves every vertex of the faces `face_ids` that are present where
    /// `map_pos` sends it, each vertex once however many of those faces
    /// share it (see `transformed`). Vertices are shared within a solid,
    /// so transforming some of its faces also deforms the faces next to
    /// them.
    fn transform_faces<F: Fn(P) -> P>(&mut self, face_ids: &[FaceId], map_pos: &F)
        requires
            old(self).wf(),
            old(self).the_mesh().wf(),
            forall|p: P| map_pos.requires((p,)),
        ensures
            transformed(*old(self), *final(self), face_ids@, *map_pos),
    {
        let ghost d0 = *self;
        let ghost m0 = self.the_mesh();
        let moved = self.unique_vertices(face_ids);
        let mut i: usize = 0;
        while i < moved.len()
            invariant
                m0 == d0.the_mesh(),
                m0.wf(),
                forall|p: P| map_pos.requires((p,)),
                moved@.no_duplicates(),
                forall|v: VertexId| #[trigger] moved@.contains(v) <==> touched_by(m0, face_ids@, v),
                i <= moved@.len(),
                self.wf(),
                self.the_mesh().wf(),
                self.the_mesh().vertex_slots() == m0.vertex_slots(),
                forall|v: VertexId| #[trigger] self.the_mesh().has_vertex(v) == m0.has_vertex(v),
                forall|v: VertexId|
                    m0.has_vertex(v) ==> if moved@.take(i as int).contains(v) {
                        map_pos.ensures((m0.pos(v),), #[trigger] self.the_mesh().pos(v))
                    } else {
                        self.the_mesh().pos(v) == m0.pos(v)
                    },
                self.the_mesh().same_faces(&m0),
                self.solids() == d0.solids(),
                self.same_groups(&d0),
                self.selected() == d0.selected(),
                self.guide_list() == d0.guide_list(),
            decreases moved@.len() - i,
        {
            let v = moved[i];
            proof {
                assert(moved@.contains(v));
                let k = choose|k: int| 0 <= k < face_ids@.len() && m0.has_face(face_ids@[k]) && #[trigger] face_has_vertex(m0.face(face_ids@[k]), v);
                assert(m0.has_vertex(v));
                assert(moved@.take(i as int + 1) =~= moved@.take(i as int).push(v));
                assert(!moved@.take(i as int).contains(v)) by {
                    if moved@.take(i as int).contains(v) {
                        let q = choose|q: int| 0 <= q < i && #[trigger] moved@.take(i as int)[q] == v;
                        assert(moved@[q] == moved@[i as int]);
                    }
                }
            }
            let ghost mb = self.the_mesh();
            let p = self.mesh_ref().position(v);
            let q = map_pos(p);
            self.move_vertex(v, q);
            proof {
                let m1 = self.the_mesh();
                assert forall|w: VertexId|
                    m0.has_vertex(w) implies if moved@.take(i as int + 1).contains(w) {
                        map_pos.ensures((m0.pos(w),), #[trigger] m1.pos(w))
                    } else {
                        m1.pos(w) == m0.pos(w)
                    } by {
                    if w != v {
                        assert(m1.pos(w) == mb.pos(w));
                        if moved@.take(i as int + 1).contains(w) {
                            let q2 = choose|q2: int| 0 <= q2 < i + 1 && #[trigger] moved@.take(i as int + 1)[q2] == w;
                            assert(moved@.take(i as int)[q2] == w);
                        } else {
                            assert(!moved@.take(i as int).contains(w)) by {
                                if moved@.take(i as int).contains(w) {
                                    let q2 = choose|q2: int| 0 <= q2 < i && #[trigger] moved@.take(i as int)[q2] == w;
                                    assert(moved@.take(i as int + 1)[q2] == w);
                                }
                            }
                        }
                    } else {
                        assert(moved@.take(i as int + 1)[i as int] == v);
                    }
                }
                assert(m1.same_faces(&m0));
            }
            i = i + 1;
        }
        proof {
            assert(moved@.take(moved@.len() as int) =~= moved@);
        }
    }

    /// Moves the faces `face_ids` by `map_pos` (a translation, for the
    /// caller); see `transformed`.
    pub fn translate_faces<F: Fn(P) -> P>(&mut self, face_ids: &[FaceId], map_pos: &F)
        requires
            old(self).wf(),
            old(self).the_mesh().wf(),
            forall|p: P| map_pos.requires((p,)),
        ensures
            transformed(*old(self), *final(self), face_ids@, *map_pos),
    {
        self.transform_faces(face_ids, map_pos)
    }

    /// Rotates the faces `face_ids` by `map_pos` (a rotation about a pivot,
    /// for the caller); see `transformed`.
    pub fn rotate_faces<F: Fn(P) -> P>(&mut self, face_ids: &[FaceId], map_pos: &F)
        requires
            old(self).wf(),
            old(self).the_mesh().wf(),
            forall|p: P| map_pos.requires((p,)),
        ensures
            transformed(*old(self), *final(self), face_ids@, *map_pos),
    {
        self.transform_faces(face_ids, map_pos)
    }

    /// Scales the faces `face_ids` by `map_pos` (a per-axis scale about a
    /// pivot, for the caller); see `transformed`.
    pub fn scale_faces<F: Fn(P) -> P>(&mut self, face_ids: &[FaceId], map_pos: &F)
        requires
            old(self).wf(),
            old(self).the_mesh().wf(),
            forall|p: P| map_pos.requires((p,)),
        ensures
            transformed(*old(self), *final(self), face_ids@, *map_pos),
    {
        self.transform_faces(face_ids, map_pos)
    }
}

} // verus!
