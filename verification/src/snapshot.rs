use vstd::prelude::*;

use crate::document::{Document, GroupId, Guide};
use crate::mesh::{face_has_vertex, FaceId, Mesh, VertexId};
use crate::project::{
    copy_guides, extend_new, faces_in_order, groups_in_order, index_in, indexed, intern, intern_ring, lemma_distinct_vertices_bounded,
    lemma_extend_new_concat, lemma_index_stable, lemma_indexed_stable, lemma_rings_reading_take, rings_reading,
};

verus! {

/// One face as the viewer draws it: its triangles and boundary loops as
/// indices into the snapshot's vertices, and the group it is filed under.
#[derive(Debug)]
pub struct FaceSnapshot {
    pub id: FaceId,
    pub group_id: Option<GroupId>,
    pub triangles: Vec<[u32; 3]>,
    /// Outer boundary loop, as indices into `DocumentSnapshot::vertices`.
    pub outer: Vec<u32>,
    /// Hole boundary loops, same indexing.
    pub holes: Vec<Vec<u32>>,
}

/// A group as the viewer lists it.
#[derive(Debug)]
pub struct GroupSnapshot {
    pub id: GroupId,
    pub name: String,
}

/// The whole render and selection payload: every vertex a face uses, once,
/// the faces over them, the groups, the selection and the guides.
#[derive(Debug)]
pub struct DocumentSnapshot<P> {
    pub vertices: Vec<P>,
    pub faces: Vec<FaceSnapshot>,
    pub groups: Vec<GroupSnapshot>,
    pub selected_face_ids: Vec<FaceId>,
    pub guides: Vec<Guide<P>>,
}

/// Triangle `t` as indices into `order`.
pub open spec fn tri_indexed(t: [VertexId; 3], order: Seq<VertexId>) -> [u32; 3] {
    [index_in(order, t[0]), index_in(order, t[1]), index_in(order, t[2])]
}

/// Triangles `ts` as indices into `order`.
pub open spec fn tris_indexed(ts: Seq<[VertexId; 3]>, order: Seq<VertexId>) -> Seq<[u32; 3]> {
    ts.map_values(|t: [VertexId; 3]| tri_indexed(t, order))
}

/// `v` is a corner of triangle `t`.
pub open spec fn tri_has(t: [VertexId; 3], v: VertexId) -> bool {
    t[0] == v || t[1] == v || t[2] == v
}

/// `v` is a corner of one of the triangles `ts`.
pub open spec fn tris_have(ts: Seq<[VertexId; 3]>, v: VertexId) -> bool {
    exists|i: int| 0 <= i < ts.len() && tri_has(#[trigger] ts[i], v)
}

/// Every corner of every triangle of `ts` is a vertex of `m`.
pub open spec fn tris_exist<P>(m: Mesh<P>, ts: Seq<[VertexId; 3]>) -> bool {
    forall|i: int| 0 <= i < ts.len() ==> m.has_vertex((#[trigger] ts[i])[0]) && m.has_vertex(ts[i][1]) && m.has_vertex(ts[i][2])
}

/// The views of a list of index loops.
pub open spec fn rings_view_u32(v: Seq<Vec<u32>>) -> Seq<Seq<u32>> {
    v.map_values(|h: Vec<u32>| h@)
}

/// `v` is a vertex of face `f` of `m` or a corner of its triangles `ts`.
pub open spec fn uses_vertex<P>(m: Mesh<P>, f: FaceId, ts: Seq<[VertexId; 3]>, v: VertexId) -> bool {
    face_has_vertex(m.face(f), v) || tris_have(ts, v)
}

/// The corners of the triangles `ts`, triangle after triangle.
pub open spec fn corners_reading(ts: Seq<[VertexId; 3]>) -> Seq<VertexId>
    decreases ts.len(),
{
    if ts.len() == 0 {
        Seq::empty()
    } else {
        corners_reading(ts.drop_last()) + seq![ts.last()[0], ts.last()[1], ts.last()[2]]
    }
}

/// The vertices a snapshot meets in reading order: face after face, the
/// corners of its triangles `tris[k]`, then its outer loop, then its holes.
pub open spec fn snapshot_reading<P>(m: Mesh<P>, fids: Seq<FaceId>, tris: Seq<Seq<[VertexId; 3]>>) -> Seq<VertexId>
    decreases fids.len(),
{
    if fids.len() == 0 {
        Seq::empty()
    } else {
        snapshot_reading(m, fids.drop_last(), tris.drop_last()) + corners_reading(tris.last()) + m.face(fids.last()).0 + rings_reading(
            m.face(fids.last()).1,
        )
    }
}

/// The view of a face snapshot.
pub open spec fn face_snapshot_view(f: FaceSnapshot) -> (FaceId, Option<GroupId>, Seq<[u32; 3]>, Seq<u32>, Seq<Seq<u32>>) {
    (f.id, f.group_id, f.triangles@, f.outer@, rings_view_u32(f.holes@))
}

/// `s` is the snapshot of `d`: the faces in id order `fids`, face `k`
/// triangulated as `tris[k]`; every vertex they use listed once in
/// `order` (its position in `s.vertices`); each face with its group, its
/// triangles and its loops as indices into `order`; the groups in id order
/// `slots` with their names; the selection, each face once; the guides.
pub open spec fn snapshot_of<P>(
    d: Document<P>,
    s: DocumentSnapshot<P>,
    order: Seq<VertexId>,
    fids: Seq<FaceId>,
    tris: Seq<Seq<[VertexId; 3]>>,
    slots: Seq<GroupId>,
) -> bool {
    let m = d.the_mesh();
    &&& order.no_duplicates()
    &&& forall|v: VertexId|
        #[trigger] order.contains(v) <==> exists|k: int|
            0 <= k < fids.len() && #[trigger] uses_vertex(m, fids[k], tris[k], v)
    &&& order == extend_new(Seq::empty(), snapshot_reading(m, fids, tris))
    &&& s.vertices@ == order.map_values(|v: VertexId| m.pos(v))
    &&& faces_in_order(m, fids)
    &&& tris.len() == fids.len()
    &&& s.faces@.len() == fids.len()
    &&& forall|k: int|
        0 <= k < fids.len() ==> #[trigger] face_snapshot_view(s.faces@[k]) == (
            fids[k],
            d.group_of(fids[k]),
            tris_indexed(tris[k], order),
            indexed(m.face(fids[k]).0, order),
            m.face(fids[k]).1.map_values(|h: Seq<VertexId>| indexed(h, order)),
        )
    &&& groups_in_order(d, slots)
    &&& s.groups@.len() == slots.len()
    &&& forall|j: int| 0 <= j < slots.len() ==> (#[trigger] s.groups@[j]).id == slots[j] && s.groups@[j].name@ == d.group(slots[j]).0
    &&& s.selected_face_ids@.no_duplicates()
    &&& s.selected_face_ids@.to_set() == d.selected()
    &&& s.guides@ == d.guide_list()
}

/// Interns the corners of every triangle of `tris`, in order, and returns
/// the triangles as indices.
fn intern_tris<P>(mesh: &Mesh<P>, order: &mut Vec<VertexId>, tris: &Vec<[VertexId; 3]>) -> (r: Vec<[u32; 3]>)
    requires
        old(order)@.no_duplicates(),
        forall|k: int| 0 <= k < old(order)@.len() ==> mesh.has_vertex(#[trigger] old(order)@[k]),
        tris_exist(*mesh, tris@),
        mesh.vertex_slots() < u32::MAX,
    ensures
        final(order)@.no_duplicates(),
        forall|k: int| 0 <= k < final(order)@.len() ==> mesh.has_vertex(#[trigger] final(order)@[k]),
        forall|v: VertexId| #[trigger] final(order)@.contains(v) <==> (old(order)@.contains(v) || tris_have(tris@, v)),
        old(order)@.is_prefix_of(final(order)@),
        final(order)@ == extend_new(old(order)@, corners_reading(tris@)),
        r@ == tris_indexed(tris@, final(order)@),
{
    let ghost o0 = order@;
    let mut out: Vec<[u32; 3]> = Vec::new();
    let mut k: usize = 0;
    while k < tris.len()
        invariant
            k <= tris@.len(),
            order@.no_duplicates(),
            forall|q: int| 0 <= q < order@.len() ==> mesh.has_vertex(#[trigger] order@[q]),
            tris_exist(*mesh, tris@),
            mesh.vertex_slots() < u32::MAX,
            forall|v: VertexId| #[trigger] order@.contains(v) <==> (o0.contains(v) || tris_have(tris@.take(k as int), v)),
            o0.is_prefix_of(order@),
            order@ == extend_new(o0, corners_reading(tris@.take(k as int))),
            out@ == tris_indexed(tris@.take(k as int), order@),
        decreases tris@.len() - k,
    {
        let t = tris[k];
        let ghost ob = order@;
        proof {
            mesh.lemma_ids_in_range();
            lemma_distinct_vertices_bounded(order@, mesh.vertex_slots() as int);
        }
        let a = intern(order, t[0]);
        let ghost oa = order@;
        proof {
            mesh.lemma_ids_in_range();
            lemma_distinct_vertices_bounded(order@, mesh.vertex_slots() as int);
        }
        let b = intern(order, t[1]);
        let ghost obb = order@;
        proof {
            mesh.lemma_ids_in_range();
            lemma_distinct_vertices_bounded(order@, mesh.vertex_slots() as int);
        }
        let c = intern(order, t[2]);
        out.push([a, b, c]);
        proof {
            let three = seq![t[0], t[1], t[2]];
            assert(three.drop_last() =~= seq![t[0], t[1]]);
            assert(seq![t[0], t[1]].drop_last() =~= seq![t[0]]);
            assert(seq![t[0]].drop_last() =~= Seq::<VertexId>::empty());
            assert(seq![t[0]].last() == t[0]);
            assert(seq![t[0], t[1]].last() == t[1]);
            assert(three.last() == t[2]);
            assert(extend_new(ob, Seq::<VertexId>::empty()) == ob);
            assert(extend_new(ob, seq![t[0]]) == oa);
            assert(extend_new(ob, seq![t[0], t[1]]) == obb);
            assert(order@ == extend_new(ob, three));
            lemma_extend_new_concat(o0, corners_reading(tris@.take(k as int)), three);
            assert(tris@.take(k as int + 1).drop_last() =~= tris@.take(k as int));
            assert(tris@.take(k as int + 1).last() == t);
            assert(corners_reading(tris@.take(k as int)) + three == corners_reading(tris@.take(k as int + 1)));
            assert(oa.is_prefix_of(order@));
            assert(ob.is_prefix_of(order@));
            lemma_index_stable(oa, order@, t[0]);
            lemma_index_stable(obb, order@, t[1]);
            assert(tri_indexed(t, order@) == [a, b, c]);
            let tk = tris@.take(k as int);
            let tk1 = tris@.take(k as int + 1);
            assert(tk1 =~= tk.push(t));
            assert forall|q: int| 0 <= q < tk.len() implies #[trigger] tri_indexed(tk[q], ob) == tri_indexed(tk[q], order@) by {
                assert(tris_have(tk, tk[q][0]));
                assert(tris_have(tk, tk[q][1]));
                assert(tris_have(tk, tk[q][2]));
                lemma_index_stable(ob, order@, tk[q][0]);
                lemma_index_stable(ob, order@, tk[q][1]);
                lemma_index_stable(ob, order@, tk[q][2]);
            }
            assert(tris_indexed(tk, ob) =~= tris_indexed(tk, order@));
            assert(out@ =~= tris_indexed(tk1, order@));
            assert forall|v: VertexId| #[trigger] order@.contains(v) <==> (o0.contains(v) || tris_have(tk1, v)) by {
                if tris_have(tk1, v) {
                    let i = choose|i: int| 0 <= i < tk1.len() && tri_has(#[trigger] tk1[i], v);
                    if i < k {
                        assert(tk[i] == tk1[i]);
                        assert(tris_have(tk, v));
                    }
                }
                if tris_have(tk, v) {
                    let i = choose|i: int| 0 <= i < tk.len() && tri_has(#[trigger] tk[i], v);
                    assert(tk1[i] == tk[i]);
                }
                if ob.contains(v) {
                    let q = choose|q: int| 0 <= q < ob.len() && ob[q] == v;
                    assert(order@[q] == v);
                }
                if order@.contains(v) && !ob.contains(v) {
                    let q = choose|q: int| 0 <= q < order@.len() && order@[q] == v;
                    if !obb.contains(v) {
                        assert(v == t[2]);
                    } else if !oa.contains(v) {
                        let q2 = choose|q2: int| 0 <= q2 < obb.len() && obb[q2] == v;
                        assert(v == t[1]);
                    } else {
                        let q3 = choose|q3: int| 0 <= q3 < oa.len() && oa[q3] == v;
                        assert(v == t[0]);
                    }
                    assert(tri_has(tk1[k as int], v));
                }
                if tri_has(t, v) {
                    assert(oa[a as int] == t[0]);
                    assert(obb[b as int] == t[1]);
                    assert(order@[c as int] == t[2]);
                    if v == t[0] {
                        assert(order@[a as int] == v);
                    } else if v == t[1] {
                        assert(order@[b as int] == v);
                    }
                }
            }
        }
        k = k + 1;
    }
    proof {
        assert(tris@.take(tris@.len() as int) =~= tris@);
    }
    out
}

/// Indexing triangles through a longer list changes nothing when the
/// shorter list already held every corner.
proof fn lemma_tris_indexed_stable(a: Seq<VertexId>, b: Seq<VertexId>, ts: Seq<[VertexId; 3]>)
    requires
        a.is_prefix_of(b),
        b.no_duplicates(),
        forall|v: VertexId| tris_have(ts, v) ==> a.contains(v),
    ensures
        tris_indexed(ts, a) == tris_indexed(ts, b),
{
    assert forall|q: int| 0 <= q < ts.len() implies #[trigger] tri_indexed(ts[q], a) == tri_indexed(ts[q], b) by {
        assert(tris_have(ts, ts[q][0]));
        assert(tris_have(ts, ts[q][1]));
        assert(tris_have(ts, ts[q][2]));
        lemma_index_stable(a, b, ts[q][0]);
        lemma_index_stable(a, b, ts[q][1]);
        lemma_index_stable(a, b, ts[q][2]);
    }
    assert(tris_indexed(ts, a) =~= tris_indexed(ts, b));
}

/// The views of a list of triangulations.
pub open spec fn tris_views(tv: Seq<Vec<[VertexId; 3]>>) -> Seq<Seq<[VertexId; 3]>> {
    tv.map_values(|t: Vec<[VertexId; 3]>| t@)
}

impl<P: Copy> Document<P> {
    /// Builds the full render and selection payload: every face in id
    /// order, triangulated by `triangulate`, with its boundary loops kept
    /// apart from its triangles (the loops are what gets drawn as edges);
    /// the vertices the faces use, each once; the groups, the selection
    /// and the guides (see `snapshot_of`).
    pub fn snapshot<T: Fn(FaceId) -> Vec<[VertexId; 3]>>(&self, triangulate: &T) -> (s: DocumentSnapshot<P>)
        requires
            self.wf(),
            self.the_mesh().wf(),
            self.the_mesh().vertex_slots() < u32::MAX,
            forall|f: FaceId| triangulate.requires((f,)),
            forall|f: FaceId, t: Vec<[VertexId; 3]>| triangulate.ensures((f,), t) ==> tris_exist(self.the_mesh(), t@),
        ensures
            exists|order: Seq<VertexId>, fids: Seq<FaceId>, tv: Seq<Vec<[VertexId; 3]>>, slots: Seq<GroupId>|
                {
                    &&& snapshot_of(*self, s, order, fids, tris_views(tv), slots)
                    &&& forall|k: int| 0 <= k < fids.len() ==> triangulate.ensures((fids[k],), #[trigger] tv[k])
                },
    {
        let m = self.mesh_ref();
        let fids = m.face_ids();
        let mut all_tris: Vec<Vec<[VertexId; 3]>> = Vec::new();
        let mut j: usize = 0;
        while j < fids.len()
            invariant
                forall|f: FaceId| triangulate.requires((f,)),
                j <= fids@.len(),
                all_tris@.len() == j,
                forall|q: int| 0 <= q < j ==> triangulate.ensures((fids@[q],), #[trigger] all_tris@[q]),
            decreases fids@.len() - j,
        {
            let t = triangulate(fids[j]);
            all_tris.push(t);
            j = j + 1;
        }
        let mut order: Vec<VertexId> = Vec::new();
        let mut faces: Vec<FaceSnapshot> = Vec::new();
        let ghost mut tv: Seq<Vec<[VertexId; 3]>> = Seq::empty();
        let mut k: usize = 0;
        proof {
            assert(fids@.take(0) =~= Seq::<FaceId>::empty());
        }
        while k < fids.len()
            invariant
                *m == self.the_mesh(),
                self.wf(),
                m.wf(),
                m.vertex_slots() < u32::MAX,
                forall|f: FaceId, t: Vec<[VertexId; 3]>| triangulate.ensures((f,), t) ==> tris_exist(self.the_mesh(), t@),
                all_tris@.len() == fids@.len(),
                forall|q: int| 0 <= q < fids@.len() ==> triangulate.ensures((fids@[q],), #[trigger] all_tris@[q]),
                faces_in_order(*m, fids@),
                k <= fids@.len(),
                order@.no_duplicates(),
                forall|q: int| 0 <= q < order@.len() ==> m.has_vertex(#[trigger] order@[q]),
                tv.len() == k,
                forall|q: int| 0 <= q < k ==> triangulate.ensures((fids@[q],), #[trigger] tv[q]),
                forall|v: VertexId|
                    #[trigger] order@.contains(v) <==> exists|q: int|
                        0 <= q < k && #[trigger] uses_vertex(*m, fids@[q], tris_views(tv)[q], v),
                order@ == extend_new(Seq::empty(), snapshot_reading(*m, fids@.take(k as int), tris_views(tv))),
                faces@.len() == k,
                forall|q: int|
                    0 <= q < k ==> #[trigger] face_snapshot_view(faces@[q]) == (
                        fids@[q],
                        self.group_of(fids@[q]),
                        tris_indexed(tris_views(tv)[q], order@),
                        indexed(m.face(fids@[q]).0, order@),
                        m.face(fids@[q]).1.map_values(|h: Seq<VertexId>| indexed(h, order@)),
                    ),
            decreases fids@.len() - k,
        {
            let ghost o0 = order@;
            let ghost tv0 = tv;
            assert(forall|v: VertexId| #[trigger] o0.contains(v) <==> exists|q: int| 0 <= q < k && #[trigger] uses_vertex(*m, fids@[q], tris_views(tv0)[q], v));
            let f = fids[k];
            let t = &all_tris[k];
            let face = m.get_face(f).unwrap();
            proof {
                assert(m.has_face(fids@[k as int]));
                crate::mesh::lemma_wf_face_rings(*m, f);
            }
            proof {
                assert(triangulate.ensures((fids@[k as int],), all_tris@[k as int]));
            }
            let tri_idx = intern_tris(m, &mut order, t);
            let ghost ot = order@;
            let outer = intern_ring(m, &mut order, &face.outer);
            proof {
                lemma_extend_new_concat(o0, corners_reading(t@), face@.0);
                assert(face@.1.take(0) =~= Seq::<Seq<VertexId>>::empty());
                assert(corners_reading(t@) + face@.0 + rings_reading(face@.1.take(0)) =~= corners_reading(t@) + face@.0);
            }
            let mut holes: Vec<Vec<u32>> = Vec::new();
            let mut h: usize = 0;
            while h < face.holes.len()
                invariant
                    face@ == m.face(f),
                    m.vertex_slots() < u32::MAX,
                    crate::mesh::rings_exist(*m, m.face(f).0, m.face(f).1),
                    h <= face.holes@.len(),
                    ot.is_prefix_of(order@),
                    order@.no_duplicates(),
                    forall|q: int| 0 <= q < order@.len() ==> m.has_vertex(#[trigger] order@[q]),
                    forall|v: VertexId|
                        #[trigger] order@.contains(v) <==> (ot.contains(v) || face@.0.contains(v) || exists|q: int|
                            0 <= q < h && #[trigger] face@.1[q].contains(v)),
                    outer@ == indexed(face@.0, order@),
                    order@ == extend_new(o0, corners_reading(t@) + face@.0 + rings_reading(face@.1.take(h as int))),
                    holes@.len() == h,
                    forall|q: int| 0 <= q < h ==> (#[trigger] holes@[q])@ == indexed(face@.1[q], order@),
                decreases face.holes@.len() - h,
            {
                proof {
                    assert(face@.1[h as int] == face.holes@[h as int]@);
                    assert forall|q: int| 0 <= q < face.holes@[h as int]@.len() implies m.has_vertex(#[trigger] face.holes@[h as int]@[q]) by {
                        assert(m.has_vertex(m.face(f).1[h as int][q]));
                    }
                }
                let ghost ob = order@;
                let idx = intern_ring(m, &mut order, &face.holes[h]);
                holes.push(idx);
                proof {
                    lemma_rings_reading_take(face@.1, h as int);
                    lemma_extend_new_concat(o0, corners_reading(t@) + face@.0 + rings_reading(face@.1.take(h as int)), face@.1[h as int]);
                    assert(corners_reading(t@) + face@.0 + rings_reading(face@.1.take(h as int)) + face@.1[h as int] =~= corners_reading(t@)
                        + face@.0 + rings_reading(face@.1.take(h as int + 1)));
                    assert forall|q: int| 0 <= q < h + 1 implies (#[trigger] holes@[q])@ == indexed(face@.1[q], order@) by {
                        if q < h {
                            assert forall|t2: int| 0 <= t2 < face@.1[q].len() implies ob.contains(#[trigger] face@.1[q][t2]) by {
                                assert(face@.1[q].contains(face@.1[q][t2]));
                            }
                            lemma_indexed_stable(ob, order@, face@.1[q]);
                        }
                    }
                    assert forall|t2: int| 0 <= t2 < face@.0.len() implies ob.contains(#[trigger] face@.0[t2]) by {
                        assert(face@.0.contains(face@.0[t2]));
                    }
                    lemma_indexed_stable(ob, order@, face@.0);
                    assert forall|v: VertexId|
                        #[trigger] order@.contains(v) <==> (ot.contains(v) || face@.0.contains(v) || exists|q: int|
                            0 <= q < h + 1 && #[trigger] face@.1[q].contains(v)) by {
                        if order@.contains(v) && !ob.contains(v) {
                            assert(face@.1[h as int].contains(v));
                        }
                        if exists|q: int| 0 <= q < h + 1 && #[trigger] face@.1[q].contains(v) {
                            let q = choose|q: int| 0 <= q < h + 1 && #[trigger] face@.1[q].contains(v);
                            if q == h {
                                assert(face.holes@[h as int]@.contains(v));
                            }
                        }
                    }
                }
                h = h + 1;
            }
            let gid = self.group_of_face(f);
            let ghost fb = faces@;
            faces.push(FaceSnapshot { id: f, group_id: gid, triangles: tri_idx, outer, holes });
            proof {
                tv = tv.push(*t);
                assert(tris_views(tv)[k as int] == t@);
                assert(face@.1.take(face@.1.len() as int) =~= face@.1);
                assert(fids@.take(k as int + 1).drop_last() =~= fids@.take(k as int));
                assert(fids@.take(k as int + 1).last() == f);
                assert(tris_views(tv).drop_last() =~= tris_views(tv0));
                assert(tris_views(tv).last() == t@);
                lemma_extend_new_concat(
                    Seq::empty(),
                    snapshot_reading(*m, fids@.take(k as int), tris_views(tv0)),
                    corners_reading(t@) + face@.0 + rings_reading(face@.1),
                );
                assert(snapshot_reading(*m, fids@.take(k as int), tris_views(tv0)) + (corners_reading(t@) + face@.0 + rings_reading(face@.1))
                    =~= snapshot_reading(*m, fids@.take(k as int + 1), tris_views(tv)));
                assert(face@.1.len() == face.holes@.len());
                lemma_tris_indexed_stable(ot, order@, t@);
                assert(tris_views(tv) =~= tris_views(tv0).push(t@));
                assert forall|q: int|
                    0 <= q < k + 1 implies #[trigger] face_snapshot_view(faces@[q]) == (
                        fids@[q],
                        self.group_of(fids@[q]),
                        tris_indexed(tris_views(tv)[q], order@),
                        indexed(m.face(fids@[q]).0, order@),
                        m.face(fids@[q]).1.map_values(|hh: Seq<VertexId>| indexed(hh, order@)),
                    ) by {
                    if q < k {
                        assert(faces@[q] == fb[q]);
                        let fq = m.face(fids@[q]);
                        assert forall|t2: int| 0 <= t2 < fq.0.len() implies o0.contains(#[trigger] fq.0[t2]) by {
                            assert(fq.0.contains(fq.0[t2]));
                            assert(face_has_vertex(fq, fq.0[t2]));
                            assert(uses_vertex(*m, fids@[q], tris_views(tv0)[q], fq.0[t2]));
                        }
                        lemma_indexed_stable(o0, order@, fq.0);
                        assert forall|t2: int| 0 <= t2 < fq.1.len() implies #[trigger] indexed(fq.1[t2], o0) == indexed(fq.1[t2], order@) by {
                            assert forall|t3: int| 0 <= t3 < fq.1[t2].len() implies o0.contains(#[trigger] fq.1[t2][t3]) by {
                                assert(fq.1[t2].contains(fq.1[t2][t3]));
                                assert(face_has_vertex(fq, fq.1[t2][t3]));
                                assert(uses_vertex(*m, fids@[q], tris_views(tv0)[q], fq.1[t2][t3]));
                            }
                            lemma_indexed_stable(o0, order@, fq.1[t2]);
                        }
                        assert(m.face(fids@[q]).1.map_values(|hh: Seq<VertexId>| indexed(hh, o0)) =~= m.face(fids@[q]).1.map_values(|hh: Seq<VertexId>| indexed(hh, order@)));
                        assert forall|v: VertexId| tris_have(tris_views(tv)[q], v) implies o0.contains(v) by {
                            assert(tris_views(tv)[q] == tris_views(tv0)[q]);
                            assert(uses_vertex(*m, fids@[q], tris_views(tv0)[q], v));
                        }
                        lemma_tris_indexed_stable(o0, order@, tris_views(tv)[q]);
                    } else {
                        assert(rings_view_u32(holes@) =~= m.face(f).1.map_values(|hh: Seq<VertexId>| indexed(hh, order@)));
                    }
                }
                assert forall|v: VertexId|
                    #[trigger] order@.contains(v) <==> exists|q: int|
                        0 <= q < k + 1 && #[trigger] uses_vertex(*m, fids@[q], tris_views(tv)[q], v) by {
                    if order@.contains(v) && !o0.contains(v) {
                        if ot.contains(v) {
                            assert(tris_have(tris_views(tv)[k as int], v));
                        } else {
                            assert(face_has_vertex(m.face(fids@[k as int]), v)) by {
                                if !face@.0.contains(v) {
                                    let q = choose|q: int| 0 <= q < face@.1.len() && #[trigger] face@.1[q].contains(v);
                                }
                            }
                        }
                        assert(uses_vertex(*m, fids@[k as int], tris_views(tv)[k as int], v));
                    }
                    if o0.contains(v) {
                        let q = choose|q: int| 0 <= q < k && #[trigger] uses_vertex(*m, fids@[q], tris_views(tv0)[q], v);
                        assert(tris_views(tv)[q] == tris_views(tv0)[q]);
                        assert(uses_vertex(*m, fids@[q], tris_views(tv)[q], v));
                    }
                    assert forall|q: int| 0 <= q < k + 1 && #[trigger] uses_vertex(*m, fids@[q], tris_views(tv)[q], v) implies order@.contains(v) by {
                        if q == k {
                            if face_has_vertex(face@, v) && !face@.0.contains(v) {
                                let t2 = choose|t2: int| 0 <= t2 < face@.1.len() && #[trigger] face@.1[t2].contains(v);
                            }
                            if tris_have(t@, v) {
                                assert(ot.contains(v));
                            }
                        } else {
                            assert(tris_views(tv)[q] == tris_views(tv0)[q]);
                            assert(uses_vertex(*m, fids@[q], tris_views(tv0)[q], v));
                            assert(o0.contains(v));
                        }
                    }
                }
            }
            k = k + 1;
        }
        // vertices
        let mut vertices: Vec<P> = Vec::new();
        let mut i: usize = 0;
        while i < order.len()
            invariant
                *m == self.the_mesh(),
                i <= order@.len(),
                forall|q: int| 0 <= q < order@.len() ==> m.has_vertex(#[trigger] order@[q]),
                vertices@ == order@.take(i as int).map_values(|v: VertexId| m.pos(v)),
            decreases order@.len() - i,
        {
            let p = m.position(order[i]);
            vertices.push(p);
            proof {
                assert(vertices@ =~= order@.take(i as int + 1).map_values(|v: VertexId| m.pos(v)));
            }
            i = i + 1;
        }
        proof {
            assert(order@.take(order@.len() as int) =~= order@);
        }
        // groups
        let mut groups: Vec<GroupSnapshot> = Vec::new();
        let ghost mut slots: Seq<GroupId> = Seq::empty();
        let n = self.group_count();
        let mut g: usize = 0;
        while g < n
            invariant
                n == self.group_slots(),
                g <= n,
                groups@.len() == slots.len(),
                forall|i: int| 0 <= i < slots.len() ==> self.has_group(#[trigger] slots[i]) && slots[i].0 < g,
                forall|x: GroupId| x.0 < g && self.has_group(x) ==> slots.contains(x),
                forall|i: int, j: int| 0 <= i < j < slots.len() ==> (#[trigger] slots[i]).0 < (#[trigger] slots[j]).0,
                forall|j: int| 0 <= j < slots.len() ==> (#[trigger] groups@[j]).id == slots[j] && groups@[j].name@ == self.group(slots[j]).0,
            decreases n - g,
        {
            let gid = GroupId(g);
            match self.get_group(gid) {
                Some(grp) => {
                    let ghost gb = groups@;
                    let ghost sb = slots;
                    groups.push(GroupSnapshot { id: gid, name: grp.name.clone() });
                    proof {
                        slots = slots.push(gid);
                        assert forall|x: GroupId| x.0 < g + 1 && self.has_group(x) implies slots.contains(x) by {
                            if x.0 == g {
                                assert(x == gid);
                                assert(slots[slots.len() - 1] == gid);
                            } else {
                                assert(sb.contains(x));
                                let q = choose|q: int| 0 <= q < sb.len() && sb[q] == x;
                                assert(slots[q] == x);
                            }
                        }
                        assert forall|j: int| 0 <= j < slots.len() implies (#[trigger] groups@[j]).id == slots[j] && groups@[j].name@ == self.group(slots[j]).0 by {
                            if j < gb.len() {
                                assert(groups@[j] == gb[j]);
                                assert(slots[j] == sb[j]);
                            }
                        }
                    }
                },
                None => {
                    proof {
                        assert forall|x: GroupId| x.0 < g + 1 && self.has_group(x) implies slots.contains(x) by {
                            if x.0 == g {
                                assert(x == gid);
                            }
                        }
                    }
                },
            }
            g = g + 1;
        }
        proof {
            assert forall|x: GroupId| self.has_group(x) implies slots.contains(x) by {
                self.lemma_group_ids_in_range(x);
            }
        }
        let selected = crate::mesh::copy_face_ids(self.selected_ids());
        let s = DocumentSnapshot { vertices, faces, groups, selected_face_ids: selected, guides: copy_guides(self.guides_ref()) };
        proof {
            assert(fids@.take(fids@.len() as int) =~= fids@);
            assert(snapshot_of(*self, s, order@, fids@, tris_views(tv), slots));
        }
        s
    }
}

} // verus!
