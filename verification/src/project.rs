use vstd::prelude::*;

use crate::document::{Document, Guide, GroupId};
use crate::selection::Selection;
use crate::mesh::{face_has_vertex, rings_view, FaceId, Mesh, VertexId};

verus! {

/// A face of a project file: its loops as indices into the file's
/// vertices, and whether it is a solid face.
#[derive(Debug)]
pub struct ProjectFace {
    pub outer: Vec<u32>,
    pub holes: Vec<Vec<u32>>,
    pub solid: bool,
}

/// A group of a project file: its name and its members as indices into the
/// file's faces.
#[derive(Debug)]
pub struct ProjectGroup {
    pub name: String,
    pub face_indices: Vec<u32>,
}

/// A saved document in a flat, index-based form: vertex positions, faces
/// by vertex index, groups by face index, and the guides.
#[derive(Debug)]
pub struct ProjectFile<P> {
    pub vertices: Vec<P>,
    pub faces: Vec<ProjectFace>,
    pub groups: Vec<ProjectGroup>,
    pub guides: Vec<Guide<P>>,
}

/// The index of `v` in `order`, as a `u32`.
pub open spec fn index_in(order: Seq<VertexId>, v: VertexId) -> u32 {
    order.index_of(v) as u32
}

/// The loop `l` as indices into `order`.
pub open spec fn indexed(l: Seq<VertexId>, order: Seq<VertexId>) -> Seq<u32> {
    l.map_values(|v: VertexId| index_in(order, v))
}

/// `o` followed by each vertex of `s` that is not yet there, in the order
/// of first sight.
pub open spec fn extend_new(o: Seq<VertexId>, s: Seq<VertexId>) -> Seq<VertexId>
    decreases s.len(),
{
    if s.len() == 0 {
        o
    } else {
        let o1 = extend_new(o, s.drop_last());
        if o1.contains(s.last()) {
            o1
        } else {
            o1.push(s.last())
        }
    }
}

/// The vertices of the rings `rs`, ring after ring.
pub open spec fn rings_reading(rs: Seq<Seq<VertexId>>) -> Seq<VertexId>
    decreases rs.len(),
{
    if rs.len() == 0 {
        Seq::empty()
    } else {
        rings_reading(rs.drop_last()) + rs.last()
    }
}

/// The vertices of the faces `fids` of `m` in reading order: face after
/// face, each its outer loop and then its holes.
pub open spec fn faces_reading<P>(m: Mesh<P>, fids: Seq<FaceId>) -> Seq<VertexId>
    decreases fids.len(),
{
    if fids.len() == 0 {
        Seq::empty()
    } else {
        faces_reading(m, fids.drop_last()) + m.face(fids.last()).0 + rings_reading(m.face(fids.last()).1)
    }
}

pub(crate) proof fn lemma_extend_new_concat(o: Seq<VertexId>, s1: Seq<VertexId>, s2: Seq<VertexId>)
    ensures
        extend_new(extend_new(o, s1), s2) == extend_new(o, s1 + s2),
    decreases s2.len(),
{
    if s2.len() == 0 {
        assert(s1 + s2 =~= s1);
    } else {
        lemma_extend_new_concat(o, s1, s2.drop_last());
        assert((s1 + s2).drop_last() =~= s1 + s2.drop_last());
        assert((s1 + s2).last() == s2.last());
    }
}

pub(crate) proof fn lemma_rings_reading_take(rs: Seq<Seq<VertexId>>, h: int)
    requires
        0 <= h < rs.len(),
    ensures
        rings_reading(rs.take(h + 1)) == rings_reading(rs.take(h)) + rs[h],
{
    assert(rs.take(h + 1).drop_last() =~= rs.take(h));
}

/// The view of a saved face: outer indices, hole indices, solid flag.
pub open spec fn project_face_view(f: ProjectFace) -> (Seq<u32>, Seq<Seq<u32>>, bool) {
    (f.outer@, f.holes@.map_values(|h: Vec<u32>| h@), f.solid)
}

/// `order` lists each vertex at most once.
pub(crate) fn intern(order: &mut Vec<VertexId>, v: VertexId) -> (r: u32)
    requires
        old(order)@.no_duplicates(),
        old(order)@.len() < u32::MAX,
    ensures
        final(order)@.no_duplicates(),
        final(order)@ == if old(order)@.contains(v) {
            old(order)@
        } else {
            old(order)@.push(v)
        },
        final(order)@[r as int] == v,
        r as int == final(order)@.index_of(v),
        r < final(order)@.len(),
{
    let mut i: usize = 0;
    while i < order.len()
        invariant
            i <= order@.len(),
            order@.no_duplicates(),
            order@.len() < u32::MAX,
            order@ == old(order)@,
            forall|k: int| 0 <= k < i ==> order@[k] != v,
        decreases order@.len() - i,
    {
        if order[i] == v {
            proof {
                let c = order@.index_of(v);
                assert(order@.contains(v));
                assert(order@[c] == v);
                if c != i {
                    assert(order@[c] == order@[i as int]);
                }
            }
            return i as u32;
        }
        i = i + 1;
    }
    let ghost ob = order@;
    order.push(v);
    proof {
        assert(!ob.contains(v));
        assert forall|x: int, y: int| 0 <= x < y < order@.len() implies order@[x] != order@[y] by {
            if y == ob.len() {
                assert(ob.contains(order@[x]));
            }
        }
        let c = order@.index_of(v);
        assert(order@.contains(v)) by {
            assert(order@[ob.len() as int] == v);
        }
        if c != ob.len() {
            assert(order@[c] == order@[ob.len() as int]);
        }
    }
    (order.len() - 1) as u32
}

pub(crate) proof fn lemma_distinct_vertices_bounded(list: Seq<VertexId>, bound: int)
    requires
        bound >= 0,
        list.no_duplicates(),
        forall|x: int| 0 <= x < list.len() ==> (#[trigger] list[x]).0 < bound,
    ensures
        list.len() <= bound,
{
    if list.len() > 0 {
        let seq_ids = list.map_values(|v: VertexId| v.0 as int);
        assert(seq_ids.no_duplicates()) by {
            assert forall|x: int, y: int| 0 <= x < seq_ids.len() && 0 <= y < seq_ids.len() && x != y implies seq_ids[x] != seq_ids[y] by {
                assert(list[x] != list[y]);
            }
        }
        seq_ids.unique_seq_to_set();
        let range = vstd::set_lib::set_int_range(0, bound);
        vstd::set_lib::lemma_int_range(0, bound);
        assert forall|i: int| seq_ids.to_set().contains(i) implies range.contains(i) by {
            let x = choose|x: int| 0 <= x < seq_ids.len() && seq_ids[x] == i;
            assert(list[x].0 < bound);
        }
        vstd::set_lib::lemma_len_subset(seq_ids.to_set(), range);
    }
}

/// Interns every vertex of `ring`, in order, and returns their indices.
pub(crate) fn intern_ring<P>(mesh: &Mesh<P>, order: &mut Vec<VertexId>, ring: &Vec<VertexId>) -> (r: Vec<u32>)
    requires
        old(order)@.no_duplicates(),
        forall|k: int| 0 <= k < old(order)@.len() ==> mesh.has_vertex(#[trigger] old(order)@[k]),
        forall|k: int| 0 <= k < ring@.len() ==> mesh.has_vertex(#[trigger] ring@[k]),
        mesh.vertex_slots() < u32::MAX,
    ensures
        final(order)@.no_duplicates(),
        forall|k: int| 0 <= k < final(order)@.len() ==> mesh.has_vertex(#[trigger] final(order)@[k]),
        forall|v: VertexId| #[trigger] final(order)@.contains(v) <==> (old(order)@.contains(v) || ring@.contains(v)),
        old(order)@.is_prefix_of(final(order)@),
        final(order)@ == extend_new(old(order)@, ring@),
        r@ == indexed(ring@, final(order)@),
{
    let ghost o0 = order@;
    let mut out: Vec<u32> = Vec::new();
    let mut k: usize = 0;
    while k < ring.len()
        invariant
            k <= ring@.len(),
            order@.no_duplicates(),
            forall|q: int| 0 <= q < order@.len() ==> mesh.has_vertex(#[trigger] order@[q]),
            forall|q: int| 0 <= q < ring@.len() ==> mesh.has_vertex(#[trigger] ring@[q]),
            mesh.vertex_slots() < u32::MAX,
            forall|v: VertexId| #[trigger] order@.contains(v) <==> (o0.contains(v) || ring@.take(k as int).contains(v)),
            o0.is_prefix_of(order@),
            order@ == extend_new(o0, ring@.take(k as int)),
            out@.len() == k,
            forall|q: int| 0 <= q < k ==> order@[(#[trigger] out@[q]) as int] == ring@[q] && out@[q] < order@.len(),
        decreases ring@.len() - k,
    {
        proof {
            mesh.lemma_ids_in_range();
            lemma_distinct_vertices_bounded(order@, mesh.vertex_slots() as int);
        }
        let ghost ob = order@;
        let i = intern(order, ring[k]);
        out.push(i);
        proof {
            assert forall|v: VertexId| #[trigger] order@.contains(v) <==> (o0.contains(v) || ring@.take(k as int + 1).contains(v)) by {
                if ring@.take(k as int + 1).contains(v) {
                    let q = choose|q: int| 0 <= q < ring@.take(k as int + 1).len() && #[trigger] ring@.take(k as int + 1)[q] == v;
                    if q < k {
                        assert(ring@.take(k as int)[q] == v);
                    }
                }
                if ring@.take(k as int).contains(v) {
                    let q = choose|q: int| 0 <= q < ring@.take(k as int).len() && #[trigger] ring@.take(k as int)[q] == v;
                    assert(ring@.take(k as int + 1)[q] == v);
                }
                if v == ring@[k as int] {
                    assert(ring@.take(k as int + 1)[k as int] == v);
                }
                if ob.contains(v) {
                    let q = choose|q: int| 0 <= q < ob.len() && ob[q] == v;
                    assert(order@[q] == v);
                }
                if order@.contains(v) && !ob.contains(v) {
                    let q = choose|q: int| 0 <= q < order@.len() && order@[q] == v;
                    assert(q == ob.len());
                }
            }
            assert forall|q: int| 0 <= q < k + 1 implies order@[(#[trigger] out@[q]) as int] == ring@[q] && out@[q] < order@.len() by {
                if q < k {
                    assert(ob.is_prefix_of(order@));
                }
            }
            assert(o0.is_prefix_of(order@)) by {
                assert(ob.is_prefix_of(order@));
            }
            assert(ring@.take(k as int + 1).drop_last() =~= ring@.take(k as int));
            assert(ring@.take(k as int + 1).last() == ring@[k as int]);
        }
        k = k + 1;
    }
    proof {
        assert(ring@.take(ring@.len() as int) =~= ring@);
        assert forall|q: int| 0 <= q < ring@.len() implies out@[q] == indexed(ring@, order@)[q] by {
            let c = order@.index_of(ring@[q]);
            assert(order@.contains(ring@[q])) by {
                assert(order@[out@[q] as int] == ring@[q]);
            }
            assert(order@[c] == ring@[q]);
            if c != out@[q] as int {
                assert(order@[c] == order@[out@[q] as int]);
            }
        }
        assert(out@ =~= indexed(ring@, order@));
    }
    out
}

/// Where the faces of `members` that are in `fids` sit in it, in order.
pub open spec fn face_positions(members: Seq<FaceId>, fids: Seq<FaceId>) -> Seq<u32> {
    members.filter(|f: FaceId| fids.contains(f)).map_values(|f: FaceId| fids.index_of(f) as u32)
}

/// The view of a saved group: name and member positions.
pub open spec fn project_group_view(g: ProjectGroup) -> (Seq<char>, Seq<u32>) {
    (g.name@, g.face_indices@)
}

/// `fids` lists the faces of `m`, in increasing id order.
pub open spec fn faces_in_order<P>(m: Mesh<P>, fids: Seq<FaceId>) -> bool {
    &&& forall|i: int| 0 <= i < fids.len() ==> m.has_face(#[trigger] fids[i])
    &&& forall|f: FaceId| m.has_face(f) ==> fids.contains(f)
    &&& forall|i: int, j: int| 0 <= i < j < fids.len() ==> (#[trigger] fids[i]).0 < (#[trigger] fids[j]).0
}

/// `slots` lists the groups of `d`, in increasing id order.
pub open spec fn groups_in_order<P>(d: Document<P>, slots: Seq<GroupId>) -> bool {
    &&& forall|i: int| 0 <= i < slots.len() ==> d.has_group(#[trigger] slots[i])
    &&& forall|g: GroupId| d.has_group(g) ==> slots.contains(g)
    &&& forall|i: int, j: int| 0 <= i < j < slots.len() ==> (#[trigger] slots[i]).0 < (#[trigger] slots[j]).0
}

/// `pf` is `d` saved: the vertices of its faces, listed once each in
/// `order` (their positions), the faces in id order `fids` with their
/// loops as indices into `order` and their solid flag, the groups in id
/// order `slots` with their members present as positions in `fids`, and
/// the guides.
pub open spec fn saved_as<P>(d: Document<P>, pf: ProjectFile<P>, order: Seq<VertexId>, fids: Seq<FaceId>, slots: Seq<GroupId>) -> bool {
    let m = d.the_mesh();
    &&& order.no_duplicates()
    &&& forall|v: VertexId| #[trigger] order.contains(v) <==> exists|k: int| 0 <= k < fids.len() && #[trigger] face_has_vertex(m.face(fids[k]), v)
    &&& order == extend_new(Seq::empty(), faces_reading(m, fids))
    &&& pf.vertices@ == order.map_values(|v: VertexId| m.pos(v))
    &&& faces_in_order(m, fids)
    &&& pf.faces@.len() == fids.len()
    &&& forall|k: int|
        0 <= k < fids.len() ==> #[trigger] project_face_view(pf.faces@[k]) == (
            indexed(m.face(fids[k]).0, order),
            m.face(fids[k]).1.map_values(|h: Seq<VertexId>| indexed(h, order)),
            d.solids().contains(fids[k]),
        )
    &&& groups_in_order(d, slots)
    &&& pf.groups@.len() == slots.len()
    &&& forall|j: int|
        0 <= j < slots.len() ==> #[trigger] project_group_view(pf.groups@[j]) == (
            d.group(slots[j]).0,
            face_positions(d.group(slots[j]).1, fids),
        )
    &&& pf.guides@ == d.guide_list()
}

pub(crate) fn copy_guides<P: Copy>(guides: &Vec<Guide<P>>) -> (r: Vec<Guide<P>>)
    ensures
        r@ == guides@,
{
    let mut out: Vec<Guide<P>> = Vec::new();
    let mut i: usize = 0;
    while i < guides.len()
        invariant
            i <= guides@.len(),
            out@ == guides@.take(i as int),
        decreases guides@.len() - i,
    {
        out.push(guides[i]);
        proof {
            assert(out@ =~= guides@.take(i as int + 1));
        }
        i = i + 1;
    }
    proof {
        assert(guides@.take(guides@.len() as int) =~= guides@);
    }
    out
}

fn position_in(fids: &Vec<FaceId>, f: FaceId) -> (r: Option<usize>)
    requires
        forall|i: int, j: int| 0 <= i < j < fids@.len() ==> (#[trigger] fids@[i]).0 < (#[trigger] fids@[j]).0,
    ensures
        match r {
            Some(i) => fids@.contains(f) && i as int == fids@.index_of(f) && i < fids@.len(),
            None => !fids@.contains(f),
        },
{
    let mut i: usize = 0;
    while i < fids.len()
        invariant
            i <= fids@.len(),
            forall|a: int, b: int| 0 <= a < b < fids@.len() ==> (#[trigger] fids@[a]).0 < (#[trigger] fids@[b]).0,
            forall|k: int| 0 <= k < i ==> fids@[k] != f,
        decreases fids@.len() - i,
    {
        if fids[i] == f {
            proof {
                assert(fids@.contains(f));
                let c = fids@.index_of(f);
                if c != i {
                    if c < i {
                        assert(fids@[c].0 < fids@[i as int].0);
                    } else {
                        assert(fids@[i as int].0 < fids@[c].0);
                    }
                }
            }
            return Some(i);
        }
        i = i + 1;
    }
    None
}

impl<P: Copy> Document<P> {
    /// Saves this document in the flat, index-based project form (see
    /// `saved_as`).
    pub fn to_project_file(&self) -> (pf: ProjectFile<P>)
        requires
            self.the_mesh().wf(),
            self.the_mesh().vertex_slots() < u32::MAX,
            self.the_mesh().face_slots() < u32::MAX,
        ensures
            exists|order: Seq<VertexId>, fids: Seq<FaceId>, slots: Seq<GroupId>| saved_as(*self, pf, order, fids, slots),
    {
        let m = self.mesh_ref();
        let fids = m.face_ids();
        let mut order: Vec<VertexId> = Vec::new();
        let mut faces: Vec<ProjectFace> = Vec::new();
        let mut k: usize = 0;
        proof {
            assert(fids@.take(0) =~= Seq::<FaceId>::empty());
        }
        while k < fids.len()
            invariant
                *m == self.the_mesh(),
                m.wf(),
                m.vertex_slots() < u32::MAX,
                faces_in_order(*m, fids@),
                k <= fids@.len(),
                order@.no_duplicates(),
                forall|q: int| 0 <= q < order@.len() ==> m.has_vertex(#[trigger] order@[q]),
                forall|v: VertexId| #[trigger] order@.contains(v) <==> exists|q: int| 0 <= q < k && #[trigger] face_has_vertex(m.face(fids@[q]), v),
                order@ == extend_new(Seq::empty(), faces_reading(*m, fids@.take(k as int))),
                faces@.len() == k,
                forall|q: int|
                    0 <= q < k ==> #[trigger] project_face_view(faces@[q]) == (
                        indexed(m.face(fids@[q]).0, order@),
                        m.face(fids@[q]).1.map_values(|h: Seq<VertexId>| indexed(h, order@)),
                        self.solids().contains(fids@[q]),
                    ),
            decreases fids@.len() - k,
        {
            let f = fids[k];
            let face = m.get_face(f).unwrap();
            proof {
                assert(m.has_face(fids@[k as int]));
                crate::mesh::lemma_wf_face_rings(*m, f);
            }
            let ghost o0 = order@;
            let outer = intern_ring(m, &mut order, &face.outer);
            proof {
                assert(face@.1.take(0) =~= Seq::<Seq<VertexId>>::empty());
                assert(face@.0 + rings_reading(face@.1.take(0)) =~= face@.0);
            }
            let mut holes: Vec<Vec<u32>> = Vec::new();
            let mut h: usize = 0;
            while h < face.holes.len()
                invariant
                    face@ == m.face(f),
                    m.vertex_slots() < u32::MAX,
                    crate::mesh::rings_exist(*m, m.face(f).0, m.face(f).1),
                    h <= face.holes@.len(),
                    o0.is_prefix_of(order@),
                    order@.no_duplicates(),
                    forall|q: int| 0 <= q < order@.len() ==> m.has_vertex(#[trigger] order@[q]),
                    forall|v: VertexId| #[trigger] order@.contains(v) <==> (o0.contains(v) || face@.0.contains(v) || exists|q: int| 0 <= q < h && #[trigger] face@.1[q].contains(v)),
                    outer@ == indexed(face@.0, order@),
                    order@ == extend_new(o0, face@.0 + rings_reading(face@.1.take(h as int))),
                    holes@.len() == h,
                    forall|q: int| 0 <= q < h ==> (#[trigger] holes@[q])@ == indexed(face@.1[q], order@),
                decreases face.holes@.len() - h,
            {
                proof {
                    assert(face@.1[h as int] == face.holes@[h as int]@);
                    assert forall|q: int| 0 <= q < face.holes@[h as int]@.len() implies m.has_vertex(#[trigger] face.holes@[h as int]@[q]) by {
                        assert(m.has_vertex(m.face(f).1[h as int][q]));
                    }
                }
                let ghost ob = order@;
                let idx = intern_ring(m, &mut order, &face.holes[h]);
                holes.push(idx);
                proof {
                    lemma_rings_reading_take(face@.1, h as int);
                    lemma_extend_new_concat(o0, face@.0 + rings_reading(face@.1.take(h as int)), face@.1[h as int]);
                    assert(face@.0 + rings_reading(face@.1.take(h as int)) + face@.1[h as int] =~= face@.0 + rings_reading(face@.1.take(h as int + 1)));
                    assert forall|q: int| 0 <= q < h + 1 implies (#[trigger] holes@[q])@ == indexed(face@.1[q], order@) by {
                        if q < h {
                            assert(indexed(face@.1[q], ob) =~= indexed(face@.1[q], order@)) by {
                                assert forall|t: int| 0 <= t < face@.1[q].len() implies indexed(face@.1[q], ob)[t] == indexed(face@.1[q], order@)[t] by {
                                    assert(face@.1[q].contains(face@.1[q][t]));
                                    assert(ob.contains(face@.1[q][t]));
                                    lemma_index_stable(ob, order@, face@.1[q][t]);
                                }
                            }
                        }
                    }
                    assert(indexed(face@.0, ob) =~= indexed(face@.0, order@)) by {
                        assert forall|t: int| 0 <= t < face@.0.len() implies indexed(face@.0, ob)[t] == indexed(face@.0, order@)[t] by {
                            assert(face@.0.contains(face@.0[t]));
                            lemma_index_stable(ob, order@, face@.0[t]);
                        }
                    }
                    assert forall|v: VertexId| #[trigger] order@.contains(v) <==> (o0.contains(v) || face@.0.contains(v) || exists|q: int| 0 <= q < h + 1 && #[trigger] face@.1[q].contains(v)) by {
                        if order@.contains(v) && !ob.contains(v) {
                            assert(face@.1[h as int].contains(v));
                        }
                        if exists|q: int| 0 <= q < h + 1 && #[trigger] face@.1[q].contains(v) {
                            let q = choose|q: int| 0 <= q < h + 1 && #[trigger] face@.1[q].contains(v);
                            if q == h {
                                assert(face.holes@[h as int]@.contains(v));
                            }
                        }
                    }
                }
                h = h + 1;
            }
            let solid = self.is_solid(f);
            let ghost fb = faces@;
            faces.push(ProjectFace { outer, holes, solid });
            proof {
                assert(face@.1.take(face@.1.len() as int) =~= face@.1);
                assert(fids@.take(k as int + 1).drop_last() =~= fids@.take(k as int));
                assert(fids@.take(k as int + 1).last() == f);
                lemma_extend_new_concat(Seq::empty(), faces_reading(*m, fids@.take(k as int)), face@.0 + rings_reading(face@.1));
                assert(faces_reading(*m, fids@.take(k as int)) + (face@.0 + rings_reading(face@.1)) =~= faces_reading(*m, fids@.take(k as int + 1)));
                assert(face@.1.len() == face.holes@.len());
                let pv = project_face_view(faces@[k as int]);
                assert(pv.1 =~= m.face(f).1.map_values(|hh: Seq<VertexId>| indexed(hh, order@)));
                assert forall|q: int|
                    0 <= q < k + 1 implies #[trigger] project_face_view(faces@[q]) == (
                        indexed(m.face(fids@[q]).0, order@),
                        m.face(fids@[q]).1.map_values(|hh: Seq<VertexId>| indexed(hh, order@)),
                        self.solids().contains(fids@[q]),
                    ) by {
                    if q < k {
                        assert(faces@[q] == fb[q]);
                        let fq = m.face(fids@[q]);
                        assert forall|t: int| 0 <= t < fq.0.len() implies o0.contains(#[trigger] fq.0[t]) by {
                            assert(fq.0.contains(fq.0[t]));
                            assert(face_has_vertex(fq, fq.0[t]));
                        }
                        lemma_indexed_stable(o0, order@, fq.0);
                        assert forall|t: int| 0 <= t < fq.1.len() implies #[trigger] indexed(fq.1[t], o0) == indexed(fq.1[t], order@) by {
                            assert forall|t2: int| 0 <= t2 < fq.1[t].len() implies o0.contains(#[trigger] fq.1[t][t2]) by {
                                assert(fq.1[t].contains(fq.1[t][t2]));
                                assert(face_has_vertex(fq, fq.1[t][t2]));
                            }
                            lemma_indexed_stable(o0, order@, fq.1[t]);
                        }
                        assert(m.face(fids@[q]).1.map_values(|hh: Seq<VertexId>| indexed(hh, o0)) =~= m.face(fids@[q]).1.map_values(|hh: Seq<VertexId>| indexed(hh, order@)));
                    }
                }
                assert forall|v: VertexId| #[trigger] order@.contains(v) <==> exists|q: int| 0 <= q < k + 1 && #[trigger] face_has_vertex(m.face(fids@[q]), v) by {
                    if order@.contains(v) && !o0.contains(v) {
                        assert(face_has_vertex(m.face(fids@[k as int]), v));
                    }
                    if exists|q: int| 0 <= q < k + 1 && #[trigger] face_has_vertex(m.face(fids@[q]), v) {
                        let q = choose|q: int| 0 <= q < k + 1 && #[trigger] face_has_vertex(m.face(fids@[q]), v);
                        if q == k {
                            if !face@.0.contains(v) {
                                let t = choose|t: int| 0 <= t < face@.1.len() && #[trigger] face@.1[t].contains(v);
                            }
                        }
                    }
                }
            }
            k = k + 1;
        }
        proof {
            assert(fids@.take(fids@.len() as int) =~= fids@);
        }
        // vertices
        let mut vertices: Vec<P> = Vec::new();
        let mut i: usize = 0;
        while i < order.len()
            invariant
                *m == self.the_mesh(),
                i <= order@.len(),
                forall|q: int| 0 <= q < order@.len() ==> m.has_vertex(#[trigger] order@[q]),
                vertices@ == order@.take(i as int).map_values(|v: VertexId| m.pos(v)),
            decreases order@.len() - i,
        {
            let p = m.position(order[i]);
            vertices.push(p);
            proof {
                assert(vertices@ =~= order@.take(i as int + 1).map_values(|v: VertexId| m.pos(v)));
            }
            i = i + 1;
        }
        proof {
            assert(order@.take(order@.len() as int) =~= order@);
        }
        // groups
        proof {
            m.lemma_ids_in_range();
            crate::mesh::lemma_distinct_indices_bounded(fids@, m.face_slots() as int);
        }
        let mut groups: Vec<ProjectGroup> = Vec::new();
        let ghost mut slots: Seq<GroupId> = Seq::empty();
        let n = self.group_count();
        let mut g: usize = 0;
        while g < n
            invariant
                *m == self.the_mesh(),
                n == self.group_slots(),
                faces_in_order(*m, fids@),
                fids@.len() < u32::MAX,
                g <= n,
                groups@.len() == slots.len(),
                forall|i: int| 0 <= i < slots.len() ==> self.has_group(#[trigger] slots[i]) && slots[i].0 < g,
                forall|x: GroupId| x.0 < g && self.has_group(x) ==> slots.contains(x),
                forall|i: int, j: int| 0 <= i < j < slots.len() ==> (#[trigger] slots[i]).0 < (#[trigger] slots[j]).0,
                forall|j: int|
                    0 <= j < slots.len() ==> #[trigger] project_group_view(groups@[j]) == (
                        self.group(slots[j]).0,
                        face_positions(self.group(slots[j]).1, fids@),
                    ),
            decreases n - g,
        {
            let gid = GroupId(g);
            match self.get_group(gid) {
                Some(grp) => {
                    let mut idx: Vec<u32> = Vec::new();
                    let mut t: usize = 0;
                    let ghost keep = |f: FaceId| fids@.contains(f);
                    while t < grp.face_ids.len()
                        invariant
                            faces_in_order(*m, fids@),
                            fids@.len() < u32::MAX,
                            keep == (|f: FaceId| fids@.contains(f)),
                            t <= grp.face_ids@.len(),
                            idx@ == grp.face_ids@.take(t as int).filter(keep).map_values(|f: FaceId| fids@.index_of(f) as u32),
                        decreases grp.face_ids@.len() - t,
                    {
                        proof {
                            reveal(Seq::filter);
                            assert(grp.face_ids@.take(t as int + 1).drop_last() =~= grp.face_ids@.take(t as int));
                            assert(grp.face_ids@.take(t as int + 1).last() == grp.face_ids@[t as int]);
                        }
                        let ghost ib = idx@;
                        match position_in(&fids, grp.face_ids[t]) {
                            Some(pos) => {
                                idx.push(pos as u32);
                                proof {
                                    let fl = grp.face_ids@.take(t as int).filter(keep);
                                    assert(grp.face_ids@.take(t as int + 1).filter(keep) == fl.push(grp.face_ids@[t as int]));
                                    assert(idx@ =~= fl.push(grp.face_ids@[t as int]).map_values(|f: FaceId| fids@.index_of(f) as u32));
                                }
                            },
                            None => {},
                        }
                        t = t + 1;
                    }
                    proof {
                        assert(grp.face_ids@.take(grp.face_ids@.len() as int) =~= grp.face_ids@);
                    }
                    let ghost gb = groups@;
                    let ghost sb = slots;
                    groups.push(ProjectGroup { name: grp.name.clone(), face_indices: idx });
                    proof {
                        slots = slots.push(gid);
                        assert(slots.drop_last() == sb);
                        assert forall|x: GroupId| x.0 < g + 1 && self.has_group(x) implies slots.contains(x) by {
                            if x.0 == g {
                                assert(x == gid);
                                assert(slots[slots.len() - 1] == gid);
                            } else {
                                assert(sb.contains(x));
                                let q = choose|q: int| 0 <= q < sb.len() && sb[q] == x;
                                assert(slots[q] == x);
                            }
                        }
                        assert forall|j: int|
                            0 <= j < slots.len() implies #[trigger] project_group_view(groups@[j]) == (
                                self.group(slots[j]).0,
                                face_positions(self.group(slots[j]).1, fids@),
                            ) by {
                            if j < gb.len() {
                                assert(groups@[j] == gb[j]);
                                assert(slots[j] == slots.drop_last()[j]);
                            }
                        }
                    }
                },
                None => {
                    proof {
                        assert forall|x: GroupId| x.0 < g + 1 && self.has_group(x) implies slots.contains(x) by {
                            if x.0 == g {
                                assert(x == gid);
                            }
                        }
                    }
                },
            }
            g = g + 1;
        }
        proof {
            assert forall|x: GroupId| self.has_group(x) implies slots.contains(x) by {
                self.lemma_group_ids_in_range(x);
            }
        }
        let pf = ProjectFile { vertices, faces, groups, guides: copy_guides(self.guides_ref()) };
        proof {
            assert(saved_as(*self, pf, order@, fids@, slots));
        }
        pf
    }
}

pub(crate) proof fn lemma_index_stable(a: Seq<VertexId>, b: Seq<VertexId>, v: VertexId)
    requires
        a.is_prefix_of(b),
        b.no_duplicates(),
        a.contains(v),
    ensures
        a.index_of(v) == b.index_of(v),
{
    let i = a.index_of(v);
    assert(a[i] == v);
    assert(b[i] == v);
    assert(b.contains(v));
    let j = b.index_of(v);
    assert(b[j] == v);
    if i != j {
        assert(b[i] == b[j]);
    }
}

pub(crate) proof fn lemma_indexed_stable(a: Seq<VertexId>, b: Seq<VertexId>, l: Seq<VertexId>)
    requires
        a.is_prefix_of(b),
        b.no_duplicates(),
        forall|t: int| 0 <= t < l.len() ==> a.contains(#[trigger] l[t]),
    ensures
        indexed(l, a) == indexed(l, b),
{
    assert forall|t: int| 0 <= t < l.len() implies indexed(l, a)[t] == indexed(l, b)[t] by {
        lemma_index_stable(a, b, l[t]);
    }
    assert(indexed(l, a) =~= indexed(l, b));
}

/// How many entries of `s` hold.
pub open spec fn count_true(s: Seq<bool>) -> nat
    decreases s.len(),
{
    if s.len() == 0 {
        0
    } else {
        count_true(s.drop_last()) + if s.last() {
            1nat
        } else {
            0nat
        }
    }
}

/// The vertex made for file vertex `i`, given which file vertices are
/// usable (`ok`): usable vertices get fresh ids in file order.
pub open spec fn loaded_vertex(ok: Seq<bool>, i: int) -> VertexId {
    VertexId(count_true(ok.take(i)) as usize)
}

/// The loop `l` of file indices, resolved to vertices; `None` unless every
/// index names a usable vertex.
pub open spec fn resolved(ok: Seq<bool>, l: Seq<u32>) -> Option<Seq<VertexId>> {
    if forall|k: int| 0 <= k < l.len() ==> (#[trigger] l[k] as int) < ok.len() && ok[l[k] as int] {
        Some(l.map_values(|i: u32| loaded_vertex(ok, i as int)))
    } else {
        None
    }
}

/// The loop `l` resolves to a ring of at least three vertices (fewer
/// enclose no area).
pub open spec fn usable_ring(ok: Seq<bool>, l: Seq<u32>) -> bool {
    resolved(ok, l) matches Some(r) && r.len() >= 3
}

/// The hole loops of `hs` that resolve to usable rings, resolved.
pub open spec fn loaded_holes(ok: Seq<bool>, hs: Seq<Seq<u32>>) -> Seq<Seq<VertexId>>
    decreases hs.len(),
{
    if hs.len() == 0 {
        Seq::empty()
    } else {
        let rest = loaded_holes(ok, hs.drop_last());
        if usable_ring(ok, hs.last()) {
            rest.push(resolved(ok, hs.last()).unwrap())
        } else {
            rest
        }
    }
}

/// The view of the faces of a project file.
pub open spec fn file_faces(fs: Seq<ProjectFace>) -> Seq<(Seq<u32>, Seq<Seq<u32>>, bool)> {
    fs.map_values(|f: ProjectFace| project_face_view(f))
}

/// How many of the first `k` file faces become faces (their outer loop is
/// a usable ring).
pub open spec fn made_before(ok: Seq<bool>, fs: Seq<(Seq<u32>, Seq<Seq<u32>>, bool)>, k: int) -> nat
    decreases k,
{
    if k <= 0 {
        0
    } else {
        made_before(ok, fs, k - 1) + if usable_ring(ok, fs[k - 1].0) {
            1nat
        } else {
            0nat
        }
    }
}

/// The face made for file face `k`: faces get fresh ids in file order.
pub open spec fn loaded_face(ok: Seq<bool>, fs: Seq<(Seq<u32>, Seq<Seq<u32>>, bool)>, k: int) -> FaceId {
    FaceId(made_before(ok, fs, k) as usize)
}

/// The members of a file group with face indices `ix`: the faces made for
/// them, in order; an index naming no made face is left out.
pub open spec fn loaded_members(ok: Seq<bool>, fs: Seq<(Seq<u32>, Seq<Seq<u32>>, bool)>, ix: Seq<u32>) -> Seq<FaceId>
    decreases ix.len(),
{
    if ix.len() == 0 {
        Seq::empty()
    } else {
        let rest = loaded_members(ok, fs, ix.drop_last());
        let i = ix.last() as int;
        if i < fs.len() && usable_ring(ok, fs[i].0) {
            rest.push(loaded_face(ok, fs, i))
        } else {
            rest
        }
    }
}

/// The view of the groups of a project file.
pub open spec fn file_groups(gs: Seq<ProjectGroup>) -> Seq<(Seq<char>, Seq<u32>)> {
    gs.map_values(|g: ProjectGroup| project_group_view(g))
}

/// Name and members of the file groups that keep at least one member, in
/// file order.
pub open spec fn loaded_groups(
    ok: Seq<bool>,
    fs: Seq<(Seq<u32>, Seq<Seq<u32>>, bool)>,
    gs: Seq<(Seq<char>, Seq<u32>)>,
) -> Seq<(Seq<char>, Seq<FaceId>)>
    decreases gs.len(),
{
    if gs.len() == 0 {
        Seq::empty()
    } else {
        let rest = loaded_groups(ok, fs, gs.drop_last());
        let ms = loaded_members(ok, fs, gs.last().1);
        if ms.len() > 0 {
            rest.push((gs.last().0, ms))
        } else {
            rest
        }
    }
}

/// A list after the `i`-th of `gl` holds `f`.
pub open spec fn in_later(gl: Seq<(Seq<char>, Seq<FaceId>)>, i: int, f: FaceId) -> bool {
    exists|j: int| i < j < gl.len() && #[trigger] gl[j].1.contains(f)
}

/// Holds of the faces no list after the `i`-th of `gl` holds.
pub open spec fn not_later(gl: Seq<(Seq<char>, Seq<FaceId>)>, i: int) -> spec_fn(FaceId) -> bool {
    |f: FaceId| !in_later(gl, i, f)
}

/// The group of the last list of `gl` that holds `f`.
pub open spec fn last_holding(gl: Seq<(Seq<char>, Seq<FaceId>)>, f: FaceId) -> Option<GroupId>
    decreases gl.len(),
{
    if gl.len() == 0 {
        None
    } else if gl.last().1.contains(f) {
        Some(GroupId((gl.len() - 1) as usize))
    } else {
        last_holding(gl.drop_last(), f)
    }
}

/// The groups of `d` are those of grouping the lists `gl` one after the
/// other: list `i` is group `i`, keeping the faces no later list took,
/// and a face is filed under the last list that holds it.
pub open spec fn grouped_as<P>(d: Document<P>, gl: Seq<(Seq<char>, Seq<FaceId>)>) -> bool {
    &&& d.group_slots() == gl.len()
    &&& forall|g: GroupId| g.0 < gl.len() ==> #[trigger] d.has_group(g)
    &&& forall|g: GroupId|
        g.0 < gl.len() ==> #[trigger] d.group(g) == (gl[g.0 as int].0, gl[g.0 as int].1.filter(not_later(gl, g.0 as int)))
    &&& forall|f: FaceId| #[trigger] d.group_of(f) == last_holding(gl, f)
}

/// The guides of `gs` whose two ends are usable (`gok`), in order.
pub open spec fn kept_guides<P>(gs: Seq<Guide<P>>, gok: Seq<bool>) -> Seq<Guide<P>>
    decreases gs.len(),
{
    if gs.len() == 0 {
        Seq::empty()
    } else {
        let rest = kept_guides(gs.drop_last(), gok.take(gs.len() - 1));
        if gok[gs.len() - 1] {
            rest.push(gs.last())
        } else {
            rest
        }
    }
}

/// `d` is what loading `pf` makes, given which file vertices are usable
/// (`ok`) and which guides have usable ends (`gok`).
pub open spec fn loaded_from<P>(d: Document<P>, pf: ProjectFile<P>, ok: Seq<bool>, gok: Seq<bool>) -> bool {
    let vs = pf.vertices@;
    let fs = file_faces(pf.faces@);
    let m = d.the_mesh();
    &&& m.vertex_slots() == count_true(ok)
    &&& forall|i: int| 0 <= i < vs.len() && ok[i] ==> m.has_vertex(#[trigger] loaded_vertex(ok, i)) && m.pos(loaded_vertex(ok, i)) == vs[i]
    &&& forall|v: VertexId| #[trigger] m.has_vertex(v) <==> v.0 < count_true(ok)
    &&& m.face_slots() == made_before(ok, fs, fs.len() as int)
    &&& forall|k: int|
        0 <= k < fs.len() && usable_ring(ok, fs[k].0) ==> m.has_face(#[trigger] loaded_face(ok, fs, k)) && m.face(loaded_face(ok, fs, k)) == (
            resolved(ok, fs[k].0).unwrap(),
            loaded_holes(ok, fs[k].1),
        )
    &&& forall|f: FaceId| #[trigger] m.has_face(f) <==> f.0 < made_before(ok, fs, fs.len() as int)
    &&& forall|f: FaceId|
        #[trigger] d.solids().contains(f) <==> exists|k: int|
            0 <= k < fs.len() && usable_ring(ok, fs[k].0) && fs[k].2 && #[trigger] loaded_face(ok, fs, k) == f
    &&& d.selected() == Set::<FaceId>::empty()
    &&& grouped_as(d, loaded_groups(ok, fs, file_groups(pf.groups@)))
    &&& d.guide_list() == kept_guides(pf.guides@, gok)
}

/// The view of a loaded vertex table: what each file vertex became.
pub open spec fn vertex_table_ok(vids: Seq<Option<VertexId>>, ok: Seq<bool>) -> bool {
    &&& vids.len() == ok.len()
    &&& forall|i: int| 0 <= i < ok.len() ==> #[trigger] vids[i] == if ok[i] {
        Some(loaded_vertex(ok, i))
    } else {
        None
    }
}

fn resolve_loop(vids: &Vec<Option<VertexId>>, l: &Vec<u32>, Ghost(ok): Ghost<Seq<bool>>) -> (r: Option<Vec<VertexId>>)
    requires
        vertex_table_ok(vids@, ok),
    ensures
        match r {
            Some(v) => resolved(ok, l@) == Some(v@),
            None => resolved(ok, l@) is None,
        },
{
    let mut out: Vec<VertexId> = Vec::new();
    let mut k: usize = 0;
    while k < l.len()
        invariant
            vertex_table_ok(vids@, ok),
            k <= l@.len(),
            forall|q: int| 0 <= q < k ==> (#[trigger] l@[q] as int) < ok.len() && ok[l@[q] as int],
            out@ == l@.take(k as int).map_values(|i: u32| loaded_vertex(ok, i as int)),
        decreases l@.len() - k,
    {
        let i = l[k] as usize;
        if i >= vids.len() {
            return None;
        }
        match vids[i] {
            Some(v) => {
                out.push(v);
                proof {
                    assert(ok[i as int]);
                    assert(out@ =~= l@.take(k as int + 1).map_values(|i: u32| loaded_vertex(ok, i as int)));
                }
            },
            None => {
                proof {
                    assert(!ok[l@[k as int] as int]);
                }
                return None;
            },
        }
        k = k + 1;
    }
    proof {
        assert(l@.take(l@.len() as int) =~= l@);
    }
    Some(out)
}

proof fn lemma_count_true_push(s: Seq<bool>, b: bool)
    ensures
        count_true(s.push(b)) == count_true(s) + if b {
            1nat
        } else {
            0nat
        },
{
    assert(s.push(b).drop_last() =~= s);
}

proof fn lemma_count_true_take(s: Seq<bool>, i: int)
    requires
        0 <= i <= s.len(),
    ensures
        count_true(s.take(i)) <= count_true(s),
        count_true(s.take(i)) <= i,
    decreases s.len() - i,
{
    lemma_count_true_le_len(s.take(i));
    if i < s.len() {
        lemma_count_true_take(s, i + 1);
        assert(s.take(i + 1).drop_last() =~= s.take(i));
    } else {
        assert(s.take(i) =~= s);
        lemma_count_true_le_len(s);
    }
}

proof fn lemma_count_true_le_len(s: Seq<bool>)
    ensures
        count_true(s) <= s.len(),
    decreases s.len(),
{
    if s.len() > 0 {
        lemma_count_true_le_len(s.drop_last());
    }
}

/// The vertex table after loading the first `i` file vertices.
proof fn lemma_vertex_table_push(vids: Seq<Option<VertexId>>, ok: Seq<bool>, b: bool, entry: Option<VertexId>)
    requires
        vertex_table_ok(vids, ok),
        entry == if b {
            Some(VertexId(count_true(ok) as usize))
        } else {
            None
        },
    ensures
        vertex_table_ok(vids.push(entry), ok.push(b)),
{
    let ok2 = ok.push(b);
    assert forall|i: int| 0 <= i < ok2.len() implies #[trigger] vids.push(entry)[i] == if ok2[i] {
        Some(loaded_vertex(ok2, i))
    } else {
        None
    } by {
        if i < ok.len() {
            assert(ok2.take(i) =~= ok.take(i));
        } else {
            assert(ok2.take(i) =~= ok);
        }
    }
}

impl<P: Copy> Document<P> {
    /// Rebuilds a document from a loaded project file. Every index in the
    /// file is untrusted: a vertex whose position is not `usable` is left
    /// out; a face whose outer loop names a missing vertex, or has fewer
    /// than three, is dropped, as is each such hole; group members naming
    /// no made face are dropped, and a group left empty is skipped; a guide
    /// with an unusable end is dropped (see `loaded_from`).
    pub fn from_project_file<U: Fn(P) -> bool>(project: &ProjectFile<P>, usable: &U) -> (d: Document<P>)
        requires
            forall|p: P| usable.requires((p,)),
        ensures
            d.wf(),
            d.the_mesh().wf(),
            exists|ok: Seq<bool>, ga: Seq<bool>, gb: Seq<bool>|
                {
                    &&& ok.len() == project.vertices@.len()
                    &&& forall|i: int| 0 <= i < ok.len() ==> #[trigger] usable.ensures((project.vertices@[i],), ok[i])
                    &&& ga.len() == project.guides@.len()
                    &&& gb.len() == project.guides@.len()
                    &&& forall|i: int| 0 <= i < ga.len() ==> #[trigger] usable.ensures((project.guides@[i].a,), ga[i])
                    &&& forall|i: int| 0 <= i < gb.len() ==> #[trigger] usable.ensures((project.guides@[i].b,), gb[i])
                    &&& loaded_from(d, *project, ok, both(ga, gb))
                },
    {
        let mut doc: Document<P> = Document::new();
        proof {
            doc.the_mesh().lemma_ids_in_range();
        }
        // vertices
        let ghost mut ok: Seq<bool> = Seq::empty();
        let mut vids: Vec<Option<VertexId>> = Vec::new();
        let mut i: usize = 0;
        while i < project.vertices.len()
            invariant
                forall|p: P| usable.requires((p,)),
                i <= project.vertices@.len(),
                ok.len() == i,
                doc.wf(),
                doc.the_mesh().wf(),
                vertex_table_ok(vids@, ok),
                forall|q: int| 0 <= q < i ==> #[trigger] usable.ensures((project.vertices@[q],), ok[q]),
                doc.the_mesh().vertex_slots() == count_true(ok),
                forall|q: int| 0 <= q < i && ok[q] ==> doc.the_mesh().has_vertex(#[trigger] loaded_vertex(ok, q)) && doc.the_mesh().pos(loaded_vertex(ok, q)) == project.vertices@[q],
                forall|v: VertexId| #[trigger] doc.the_mesh().has_vertex(v) <==> v.0 < count_true(ok),
                doc.the_mesh().face_slots() == 0,
                forall|f: FaceId| !doc.the_mesh().has_face(f),
                doc.solids() == Set::<FaceId>::empty(),
                doc.selected() == Set::<FaceId>::empty(),
                doc.group_slots() == 0,
                forall|g: GroupId| !doc.has_group(g),
                forall|f: FaceId| doc.group_of(f) is None,
                doc.guide_list().len() == 0,
            decreases project.vertices@.len() - i,
        {
            let p = project.vertices[i];
            let b = usable(p);
            let ghost before = doc;
            proof {
                lemma_count_true_le_len(ok);
            }
            let entry = if b {
                let id = doc.add_loaded_vertex(p);
                Some(id)
            } else {
                None
            };
            proof {
                lemma_vertex_table_push(vids@, ok, b, entry);
            }
            vids.push(entry);
            proof {
                let ok2 = ok.push(b);
                lemma_count_true_push(ok, b);
                assert forall|q: int| 0 <= q < i + 1 && ok2[q] implies doc.the_mesh().has_vertex(#[trigger] loaded_vertex(ok2, q)) && doc.the_mesh().pos(loaded_vertex(ok2, q)) == project.vertices@[q] by {
                    if q < i {
                        assert(ok2.take(q) =~= ok.take(q));
                        lemma_count_true_take(ok, q);
                        assert(loaded_vertex(ok, q).0 < count_true(ok)) by {
                            assert(before.the_mesh().has_vertex(loaded_vertex(ok, q)));
                        }
                    } else {
                        assert(ok2.take(q) =~= ok);
                    }
                }
                assert forall|q: int| 0 <= q < i + 1 implies #[trigger] usable.ensures((project.vertices@[q],), ok2[q]) by {
                    if q < i {
                        assert(ok2[q] == ok[q]);
                    }
                }
                ok = ok2;
            }
            i = i + 1;
        }
        let ghost fs = file_faces(project.faces@);
        // faces
        let mut fids: Vec<Option<FaceId>> = Vec::new();
        let mut k: usize = 0;
        while k < project.faces.len()
            invariant
                fs == file_faces(project.faces@),
                ok.len() == project.vertices@.len(),
                vertex_table_ok(vids@, ok),
                k <= fs.len(),
                doc.wf(),
                doc.the_mesh().wf(),
                doc.the_mesh().vertex_slots() == count_true(ok),
                forall|q: int| 0 <= q < ok.len() && ok[q] ==> doc.the_mesh().has_vertex(#[trigger] loaded_vertex(ok, q)) && doc.the_mesh().pos(loaded_vertex(ok, q)) == project.vertices@[q],
                forall|v: VertexId| #[trigger] doc.the_mesh().has_vertex(v) <==> v.0 < count_true(ok),
                doc.the_mesh().face_slots() == made_before(ok, fs, k as int),
                made_before(ok, fs, k as int) <= k,
                forall|q: int|
                    0 <= q < k && usable_ring(ok, fs[q].0) ==> doc.the_mesh().has_face(#[trigger] loaded_face(ok, fs, q)) && doc.the_mesh().face(
                        loaded_face(ok, fs, q),
                    ) == (resolved(ok, fs[q].0).unwrap(), loaded_holes(ok, fs[q].1)),
                forall|f: FaceId| #[trigger] doc.the_mesh().has_face(f) <==> f.0 < made_before(ok, fs, k as int),
                forall|f: FaceId|
                    #[trigger] doc.solids().contains(f) <==> exists|q: int|
                        0 <= q < k && usable_ring(ok, fs[q].0) && fs[q].2 && #[trigger] loaded_face(ok, fs, q) == f,
                fids@.len() == k,
                forall|q: int| 0 <= q < k ==> #[trigger] fids@[q] == if usable_ring(ok, fs[q].0) {
                    Some(loaded_face(ok, fs, q))
                } else {
                    None
                },
                doc.selected() == Set::<FaceId>::empty(),
                doc.group_slots() == 0,
                forall|g: GroupId| !doc.has_group(g),
                forall|f: FaceId| doc.group_of(f) is None,
                doc.guide_list().len() == 0,
            decreases fs.len() - k,
        {
            let pf = &project.faces[k];
            proof {
                assert(fs[k as int] == project_face_view(*pf));
            }
            let ghost before = doc;
            match resolve_loop(&vids, &pf.outer, Ghost(ok)) {
                Some(outer) => {
                    if outer.len() >= 3 {
                        let mut holes: Vec<Vec<VertexId>> = Vec::new();
                        let mut h: usize = 0;
                        while h < pf.holes.len()
                            invariant
                                vertex_table_ok(vids@, ok),
                                h <= pf.holes@.len(),
                                rings_view(holes@) == loaded_holes(ok, pf.holes@.take(h as int).map_values(|x: Vec<u32>| x@)),
                            decreases pf.holes@.len() - h,
                        {
                            let ghost hv = pf.holes@.take(h as int + 1).map_values(|x: Vec<u32>| x@);
                            proof {
                                assert(hv.drop_last() =~= pf.holes@.take(h as int).map_values(|x: Vec<u32>| x@));
                                assert(hv.last() == pf.holes@[h as int]@);
                            }
                            match resolve_loop(&vids, &pf.holes[h], Ghost(ok)) {
                                Some(ring) => {
                                    if ring.len() >= 3 {
                                        let ghost hb = holes@;
                                        let ghost rg = ring@;
                                        holes.push(ring);
                                        proof {
                                            assert(rings_view(holes@) =~= rings_view(hb).push(rg));
                                        }
                                    }
                                },
                                None => {},
                            }
                            h = h + 1;
                        }
                        proof {
                            assert(pf.holes@.take(pf.holes@.len() as int) =~= pf.holes@);
                            assert(fs[k as int].1 == pf.holes@.map_values(|x: Vec<u32>| x@));
                            assert forall|v: VertexId| #[trigger] face_has_vertex((outer@, rings_view(holes@)), v) implies doc.the_mesh().has_vertex(v) by {
                                if outer@.contains(v) {
                                    lemma_loaded_outer_vertex(ok, fs[k as int].0, v);
                                } else {
                                    let hh = choose|hh: int| 0 <= hh < rings_view(holes@).len() && #[trigger] rings_view(holes@)[hh].contains(v);
                                    lemma_loaded_hole_vertex(ok, fs[k as int].1, hh, v);
                                }
                                let idx = choose|idx: int| 0 <= idx < ok.len() && ok[idx] && #[trigger] loaded_vertex(ok, idx) == v;
                            }
                        }
                        let id = doc.add_loaded_face(outer, holes, pf.solid);
                        fids.push(Some(id));
                    } else {
                        fids.push(None);
                    }
                },
                None => {
                    fids.push(None);
                },
            }
            proof {
                lemma_made_before_step(ok, fs, k as int);
                assert forall|q: int|
                    0 <= q < k + 1 && usable_ring(ok, fs[q].0) implies doc.the_mesh().has_face(#[trigger] loaded_face(ok, fs, q)) && doc.the_mesh().face(
                        loaded_face(ok, fs, q),
                    ) == (resolved(ok, fs[q].0).unwrap(), loaded_holes(ok, fs[q].1)) by {
                    if q < k {
                        lemma_made_before_mono(ok, fs, q, k as int);
                        assert(before.the_mesh().has_face(loaded_face(ok, fs, q)));
                    }
                }
                assert forall|f: FaceId|
                    #[trigger] doc.solids().contains(f) <==> exists|q: int|
                        0 <= q < k + 1 && usable_ring(ok, fs[q].0) && fs[q].2 && #[trigger] loaded_face(ok, fs, q) == f by {
                    if doc.solids().contains(f) && !before.solids().contains(f) {
                        assert(loaded_face(ok, fs, k as int) == f);
                    }
                    if exists|q: int| 0 <= q < k + 1 && usable_ring(ok, fs[q].0) && fs[q].2 && #[trigger] loaded_face(ok, fs, q) == f {
                        let q = choose|q: int| 0 <= q < k + 1 && usable_ring(ok, fs[q].0) && fs[q].2 && #[trigger] loaded_face(ok, fs, q) == f;
                        if q < k {
                            assert(before.solids().contains(f));
                        }
                    }
                }
                assert forall|q: int| 0 <= q < k + 1 implies #[trigger] fids@[q] == if usable_ring(ok, fs[q].0) {
                    Some(loaded_face(ok, fs, q))
                } else {
                    None
                } by {}
            }
            k = k + 1;
        }
        proof {
            assert(fs.len() == project.faces@.len());
        }
        // groups
        let ghost gs = file_groups(project.groups@);
        let ghost dm = doc;
        proof {
            assert(grouped_as(doc, loaded_groups(ok, fs, gs.take(0)))) by {
                assert(loaded_groups(ok, fs, gs.take(0)) =~= Seq::<(Seq<char>, Seq<FaceId>)>::empty());
            }
        }
        let mut j: usize = 0;
        proof {
            assert(gs.take(0) =~= Seq::<(Seq<char>, Seq<u32>)>::empty());
        }
        while j < project.groups.len()
            invariant
                fs == file_faces(project.faces@),
                gs == file_groups(project.groups@),
                fs.len() == fids@.len(),
                j <= gs.len(),
                forall|q: int| 0 <= q < fs.len() ==> #[trigger] fids@[q] == if usable_ring(ok, fs[q].0) {
                    Some(loaded_face(ok, fs, q))
                } else {
                    None
                },
                doc.wf(),
                doc.the_mesh() == dm.the_mesh(),
                doc.solids() == dm.solids(),
                doc.selected() == dm.selected(),
                doc.guide_list() == dm.guide_list(),
                grouped_as(doc, loaded_groups(ok, fs, gs.take(j as int))),
                loaded_groups(ok, fs, gs.take(j as int)).len() <= j,
            decreases gs.len() - j,
        {
            let grp = &project.groups[j];
            let ghost gl = loaded_groups(ok, fs, gs.take(j as int));
            proof {
                assert(gs[j as int] == project_group_view(*grp));
                assert(gs.take(j as int + 1).drop_last() =~= gs.take(j as int));
                assert(gs.take(j as int + 1).last() == gs[j as int]);
            }
            let mut members: Vec<FaceId> = Vec::new();
            let mut t: usize = 0;
            while t < grp.face_indices.len()
                invariant
                    fs.len() == fids@.len(),
                    forall|q: int| 0 <= q < fs.len() ==> #[trigger] fids@[q] == if usable_ring(ok, fs[q].0) {
                        Some(loaded_face(ok, fs, q))
                    } else {
                        None
                    },
                    t <= grp.face_indices@.len(),
                    members@ == loaded_members(ok, fs, grp.face_indices@.take(t as int)),
                decreases grp.face_indices@.len() - t,
            {
                let ix = grp.face_indices[t] as usize;
                proof {
                    assert(grp.face_indices@.take(t as int + 1).drop_last() =~= grp.face_indices@.take(t as int));
                    assert(grp.face_indices@.take(t as int + 1).last() == grp.face_indices@[t as int]);
                }
                if ix < fids.len() {
                    match fids[ix] {
                        Some(f) => {
                            members.push(f);
                        },
                        None => {},
                    }
                }
                t = t + 1;
            }
            proof {
                assert(grp.face_indices@.take(grp.face_indices@.len() as int) =~= grp.face_indices@);
            }
            let ghost d0 = doc;
            if members.len() > 0 {
                let name = grp.name.clone();
                let ghost nm = name@;
                let gid = doc.group_faces(members.as_slice(), name);
                proof {
                    lemma_grouped_step(d0, doc, gl, nm, members@, gid);
                    assert(nm == grp.name@);
                    assert(loaded_groups(ok, fs, gs.take(j as int + 1)) == gl.push((grp.name@, members@)));
                }
            } else {
                proof {
                    assert(loaded_groups(ok, fs, gs.take(j as int + 1)) == gl);
                }
            }
            j = j + 1;
        }
        proof {
            assert(gs.take(gs.len() as int) =~= gs);
        }
        // guides
        let mut guides: Vec<Guide<P>> = Vec::new();
        let ghost mut ga: Seq<bool> = Seq::empty();
        let ghost mut gb: Seq<bool> = Seq::empty();
        let mut q: usize = 0;
        while q < project.guides.len()
            invariant
                forall|p: P| usable.requires((p,)),
                q <= project.guides@.len(),
                ga.len() == q,
                gb.len() == q,
                forall|i: int| 0 <= i < q ==> #[trigger] usable.ensures((project.guides@[i].a,), ga[i]),
                forall|i: int| 0 <= i < q ==> #[trigger] usable.ensures((project.guides@[i].b,), gb[i]),
                guides@ == kept_guides(project.guides@.take(q as int), both(ga, gb)),
            decreases project.guides@.len() - q,
        {
            let g = project.guides[q];
            let ua = usable(g.a);
            let ub = usable(g.b);
            proof {
                assert(usable.ensures((g.a,), ua));
                assert(usable.ensures((g.b,), ub));
                assert(g == project.guides@[q as int]);
                let ga2 = ga.push(ua);
                let gb2 = gb.push(ub);
                let pre = project.guides@.take(q as int + 1);
                assert(pre.drop_last() =~= project.guides@.take(q as int));
                assert(both(ga2, gb2).take(q as int) =~= both(ga, gb));
                assert(pre.last() == g);
                assert forall|i: int| 0 <= i < q + 1 implies #[trigger] usable.ensures((project.guides@[i].a,), ga2[i]) by {
                    if i < q {
                        assert(ga2[i] == ga[i]);
                        assert(usable.ensures((project.guides@[i].a,), ga[i]));
                    } else {
                        assert(ga2[i] == ua);
                        assert(project.guides@[i].a == g.a);
                    }
                }
                assert forall|i: int| 0 <= i < q + 1 implies #[trigger] usable.ensures((project.guides@[i].b,), gb2[i]) by {
                    if i < q {
                        assert(gb2[i] == gb[i]);
                        assert(usable.ensures((project.guides@[i].b,), gb[i]));
                    } else {
                        assert(gb2[i] == ub);
                        assert(project.guides@[i].b == g.b);
                    }
                }
                ga = ga2;
                gb = gb2;
            }
            if ua && ub {
                guides.push(g);
            }
            q = q + 1;
        }
        proof {
            assert(project.guides@.take(project.guides@.len() as int) =~= project.guides@);
        }
        let ghost dg = doc;
        doc.set_guides(guides);
        proof {
            assert(loaded_from(doc, *project, ok, both(ga, gb)));
        }
        doc
    }
}

/// Both flags hold, entry by entry.
pub open spec fn both(a: Seq<bool>, b: Seq<bool>) -> Seq<bool> {
    Seq::new(a.len(), |i: int| a[i] && b[i])
}

proof fn lemma_loaded_hole_vertex(ok: Seq<bool>, holes: Seq<Seq<u32>>, h: int, v: VertexId)
    requires
        0 <= h < loaded_holes(ok, holes).len(),
        loaded_holes(ok, holes)[h].contains(v),
    ensures
        exists|idx: int| 0 <= idx < ok.len() && ok[idx] && #[trigger] loaded_vertex(ok, idx) == v,
    decreases holes.len(),
{
    let lh = loaded_holes(ok, holes);
    let rest = loaded_holes(ok, holes.drop_last());
    if h < rest.len() {
        assert(lh[h] == rest[h]);
        lemma_loaded_hole_vertex(ok, holes.drop_last(), h, v);
    } else {
        let last = holes.last();
        let r = resolved(ok, last).unwrap();
        assert(lh[h] == r);
        let t = choose|t: int| 0 <= t < r.len() && r[t] == v;
        assert((last[t] as int) < ok.len() && ok[last[t] as int]);
        assert(loaded_vertex(ok, last[t] as int) == v);
    }
}

proof fn lemma_loaded_outer_vertex(ok: Seq<bool>, outer: Seq<u32>, v: VertexId)
    requires
        resolved(ok, outer) is Some,
        resolved(ok, outer).unwrap().contains(v),
    ensures
        exists|idx: int| 0 <= idx < ok.len() && ok[idx] && #[trigger] loaded_vertex(ok, idx) == v,
{
    let o = resolved(ok, outer).unwrap();
    let t = choose|t: int| 0 <= t < o.len() && o[t] == v;
    assert((outer[t] as int) < ok.len() && ok[outer[t] as int]);
    assert(loaded_vertex(ok, outer[t] as int) == v);
}

proof fn lemma_made_before_step(ok: Seq<bool>, fs: Seq<(Seq<u32>, Seq<Seq<u32>>, bool)>, k: int)
    requires
        0 <= k,
    ensures
        made_before(ok, fs, k + 1) == made_before(ok, fs, k) + if usable_ring(ok, fs[k].0) {
            1nat
        } else {
            0nat
        },
{
}

proof fn lemma_made_before_mono(ok: Seq<bool>, fs: Seq<(Seq<u32>, Seq<Seq<u32>>, bool)>, q: int, k: int)
    requires
        0 <= q < k,
        usable_ring(ok, fs[q].0),
    ensures
        made_before(ok, fs, q) < made_before(ok, fs, k),
    decreases k - q,
{
    if q + 1 < k {
        lemma_made_before_mono(ok, fs, q, k - 1);
    }
}

proof fn lemma_last_holding(gl: Seq<(Seq<char>, Seq<FaceId>)>, i: int, x: FaceId)
    requires
        0 <= i < gl.len(),
        gl[i].1.contains(x),
        !in_later(gl, i, x),
    ensures
        last_holding(gl, x) == Some(GroupId(i as usize)),
    decreases gl.len(),
{
    if i < gl.len() - 1 {
        assert(!gl.last().1.contains(x)) by {
            if gl.last().1.contains(x) {
                assert(gl[gl.len() - 1].1.contains(x));
            }
        }
        let d = gl.drop_last();
        assert(d[i] == gl[i]);
        assert(!in_later(d, i, x)) by {
            if in_later(d, i, x) {
                let j = choose|j: int| i < j < d.len() && #[trigger] d[j].1.contains(x);
                assert(gl[j] == d[j]);
            }
        }
        lemma_last_holding(d, i, x);
    }
}

proof fn lemma_filter_twice_on(s: Seq<FaceId>, p: spec_fn(FaceId) -> bool, q: spec_fn(FaceId) -> bool, r: spec_fn(FaceId) -> bool)
    requires
        forall|k: int| 0 <= k < s.len() ==> #[trigger] r(s[k]) == (p(s[k]) && q(s[k])),
    ensures
        s.filter(p).filter(q) == s.filter(r),
    decreases s.len(),
{
    reveal(Seq::filter);
    if s.len() > 0 {
        let d = s.drop_last();
        assert forall|k: int| 0 <= k < d.len() implies #[trigger] r(d[k]) == (p(d[k]) && q(d[k])) by {
            assert(d[k] == s[k]);
        }
        lemma_filter_twice_on(d, p, q, r);
        assert(r(s[s.len() - 1]) == (p(s[s.len() - 1]) && q(s[s.len() - 1])));
        let sp = s.filter(p);
        if p(s.last()) {
            assert(sp.drop_last() =~= d.filter(p));
            assert(sp.last() == s.last());
        } else {
            assert(sp == d.filter(p));
        }
    }
}

proof fn lemma_filter_true(s: Seq<FaceId>, p: spec_fn(FaceId) -> bool)
    requires
        forall|x: FaceId| #[trigger] p(x),
    ensures
        s.filter(p) == s,
    decreases s.len(),
{
    reveal(Seq::filter);
    if s.len() > 0 {
        lemma_filter_true(s.drop_last(), p);
        assert(s.drop_last().push(s.last()) =~= s);
    }
}

proof fn lemma_grouped_step<P>(
    d0: Document<P>,
    d1: Document<P>,
    gl: Seq<(Seq<char>, Seq<FaceId>)>,
    name: Seq<char>,
    ms: Seq<FaceId>,
    gid: GroupId,
)
    requires
        grouped_as(d0, gl),
        gid.0 == d0.group_slots(),
        d1.group_slots() == d0.group_slots() + 1,
        d1.has_group(gid),
        d1.group(gid) == (name, ms),
        forall|g: GroupId| g != gid ==> #[trigger] d1.has_group(g) == d0.has_group(g),
        forall|g: GroupId| g != gid && d0.has_group(g) ==> #[trigger] d1.group(g) == (d0.group(g).0, d0.members_kept(g, ms)),
        forall|f: FaceId| #[trigger] d1.group_of(f) == if ms.contains(f) {
            Some(gid)
        } else {
            d0.group_of(f)
        },
    ensures
        grouped_as(d1, gl.push((name, ms))),
{
    let gl2 = gl.push((name, ms));
    let n = gl.len() as int;
    assert forall|gi: GroupId| gi.0 < gl2.len() implies #[trigger] d1.has_group(gi) by {
        if gi.0 < n {
            assert(d0.has_group(gi));
        }
    }
    assert forall|gi: GroupId|
        gi.0 < gl2.len() implies #[trigger] d1.group(gi) == (gl2[gi.0 as int].0, gl2[gi.0 as int].1.filter(not_later(gl2, gi.0 as int))) by {
        let i = gi.0 as int;
        if i < n {
            assert(gi != gid);
            assert(d0.group(gi) == (gl[i].0, gl[i].1.filter(not_later(gl, i))));
            assert(d0.has_group(gi));
            assert(gl2[i] == gl[i]);
            let s = gl[i].1;
            assert forall|k: int| 0 <= k < s.len() implies #[trigger] not_later(gl2, i)(s[k]) == (not_later(gl, i)(s[k]) && d0.stays_in(gi, ms)(s[k])) by {
                let x = s[k];
                assert(s.contains(x));
                if in_later(gl, i, x) {
                    let j = choose|j: int| i < j < gl.len() && #[trigger] gl[j].1.contains(x);
                    assert(gl2[j] == gl[j]);
                } else {
                    lemma_last_holding(gl, i, x);
                    assert(d0.group_of(x) == Some(gi));
                    if ms.contains(x) {
                        assert(gl2[n].1.contains(x));
                    } else {
                        if in_later(gl2, i, x) {
                            let j = choose|j: int| i < j < gl2.len() && #[trigger] gl2[j].1.contains(x);
                            if j < n {
                                assert(gl[j] == gl2[j]);
                            }
                        }
                    }
                }
            }
            lemma_filter_twice_on(s, not_later(gl, i), d0.stays_in(gi, ms), not_later(gl2, i));
        } else {
            assert(gi == gid);
            assert forall|x: FaceId| #[trigger] not_later(gl2, i)(x) by {}
            lemma_filter_true(ms, not_later(gl2, i));
        }
    }
    assert forall|f: FaceId| #[trigger] d1.group_of(f) == last_holding(gl2, f) by {
        assert(gl2.drop_last() =~= gl);
    }
    assert(d1.group_slots() == gl2.len());
}

/// Every loop of every face of `m` - outer loop and holes - has at least
/// three vertices.
pub open spec fn rings_nondegenerate<P>(m: Mesh<P>) -> bool {
    forall|f: FaceId|
        m.has_face(f) ==> m.face(f).0.len() >= 3 && forall|h: int| 0 <= h < m.face(f).1.len() ==> #[trigger] m.face(f).1[h].len() >= 3
}

/// The vertex that reloading gives vertex `v`, saved at its place in `order`.
pub open spec fn renumbered(order: Seq<VertexId>, v: VertexId) -> VertexId {
    VertexId(order.index_of(v) as usize)
}

/// The loop `l`, renumbered as reloading does.
pub open spec fn renumbered_loop(order: Seq<VertexId>, l: Seq<VertexId>) -> Seq<VertexId> {
    l.map_values(|v: VertexId| renumbered(order, v))
}

proof fn lemma_count_true_all(s: Seq<bool>, i: int)
    requires
        0 <= i <= s.len(),
        forall|k: int| 0 <= k < s.len() ==> s[k],
    ensures
        count_true(s.take(i)) == i,
    decreases i,
{
    if i > 0 {
        lemma_count_true_all(s, i - 1);
        assert(s.take(i).drop_last() =~= s.take(i - 1));
    }
}

proof fn lemma_resolved_all(ok: Seq<bool>, order: Seq<VertexId>, l: Seq<VertexId>)
    requires
        forall|k: int| 0 <= k < ok.len() ==> ok[k],
        ok.len() == order.len(),
        order.len() < u32::MAX,
        forall|t: int| 0 <= t < l.len() ==> order.contains(#[trigger] l[t]),
    ensures
        resolved(ok, indexed(l, order)) == Some(renumbered_loop(order, l)),
{
    let il = indexed(l, order);
    assert forall|k: int| 0 <= k < il.len() implies (#[trigger] il[k] as int) < ok.len() && ok[il[k] as int] by {
        assert(order.contains(l[k]));
        let c = order.index_of(l[k]);
        assert(0 <= c < order.len());
    }
    let m = il.map_values(|i: u32| loaded_vertex(ok, i as int));
    assert forall|k: int| 0 <= k < l.len() implies m[k] == renumbered_loop(order, l)[k] by {
        assert(order.contains(l[k]));
        let c = order.index_of(l[k]);
        assert(il[k] as int == c);
        lemma_count_true_all(ok, c);
    }
    assert(m =~= renumbered_loop(order, l));
}

proof fn lemma_loaded_holes_all(ok: Seq<bool>, order: Seq<VertexId>, hs: Seq<Seq<VertexId>>)
    requires
        forall|k: int| 0 <= k < ok.len() ==> ok[k],
        ok.len() == order.len(),
        order.len() < u32::MAX,
        forall|h: int, t: int| 0 <= h < hs.len() && 0 <= t < hs[h].len() ==> order.contains(#[trigger] hs[h][t]),
        forall|h: int| 0 <= h < hs.len() ==> #[trigger] hs[h].len() >= 3,
    ensures
        loaded_holes(ok, hs.map_values(|h: Seq<VertexId>| indexed(h, order))) == hs.map_values(|h: Seq<VertexId>| renumbered_loop(order, h)),
    decreases hs.len(),
{
    let ih = hs.map_values(|h: Seq<VertexId>| indexed(h, order));
    if hs.len() > 0 {
        let rest = hs.drop_last();
        assert forall|h: int, t: int| 0 <= h < rest.len() && 0 <= t < rest[h].len() implies order.contains(#[trigger] rest[h][t]) by {
            assert(rest[h] == hs[h]);
        }
        assert forall|h: int| 0 <= h < rest.len() implies #[trigger] rest[h].len() >= 3 by {
            assert(rest[h] == hs[h]);
        }
        lemma_loaded_holes_all(ok, order, rest);
        assert(ih.drop_last() =~= rest.map_values(|h: Seq<VertexId>| indexed(h, order)));
        let last = hs.last();
        assert forall|t: int| 0 <= t < last.len() implies order.contains(#[trigger] last[t]) by {
            assert(last == hs[hs.len() - 1]);
        }
        lemma_resolved_all(ok, order, last);
        assert(ih.last() == indexed(last, order));
        assert(last.len() >= 3) by {
            assert(last == hs[hs.len() - 1]);
        }
        assert(usable_ring(ok, ih.last()));
        assert(hs.map_values(|h: Seq<VertexId>| renumbered_loop(order, h)) =~= rest.map_values(|h: Seq<VertexId>| renumbered_loop(order, h)).push(
            renumbered_loop(order, last),
        ));
    } else {
        assert(ih =~= Seq::<Seq<u32>>::empty());
        assert(hs.map_values(|h: Seq<VertexId>| renumbered_loop(order, h)) =~= Seq::<Seq<VertexId>>::empty());
    }
}

proof fn lemma_made_before_all(ok: Seq<bool>, fs: Seq<(Seq<u32>, Seq<Seq<u32>>, bool)>, k: int)
    requires
        0 <= k <= fs.len(),
        forall|q: int| 0 <= q < fs.len() ==> usable_ring(ok, #[trigger] fs[q].0),
    ensures
        made_before(ok, fs, k) == k,
    decreases k,
{
    if k > 0 {
        lemma_made_before_all(ok, fs, k - 1);
        assert(usable_ring(ok, fs[k - 1].0));
    }
}

/// The faces of `members` present among `fids`, renumbered as reloading
/// does: a face's new id is its place in `fids`.
pub open spec fn renumbered_members(members: Seq<FaceId>, fids: Seq<FaceId>) -> Seq<FaceId> {
    members.filter(|f: FaceId| fids.contains(f)).map_values(|f: FaceId| FaceId(fids.index_of(f) as usize))
}

/// The groups `slots` of `d` as reloading lists them: each group's name
/// and its renumbered present members, leaving out the groups with none.
pub open spec fn reloaded_groups<P>(d: Document<P>, fids: Seq<FaceId>, slots: Seq<GroupId>) -> Seq<(Seq<char>, Seq<FaceId>)>
    decreases slots.len(),
{
    if slots.len() == 0 {
        Seq::empty()
    } else {
        let rest = reloaded_groups(d, fids, slots.drop_last());
        let g = d.group(slots.last());
        let ms = renumbered_members(g.1, fids);
        if ms.len() > 0 {
            rest.push((g.0, ms))
        } else {
            rest
        }
    }
}

proof fn lemma_loaded_members_all(ok: Seq<bool>, fs: Seq<(Seq<u32>, Seq<Seq<u32>>, bool)>, ix: Seq<u32>)
    requires
        forall|q: int| 0 <= q < fs.len() ==> usable_ring(ok, #[trigger] fs[q].0),
        forall|t: int| 0 <= t < ix.len() ==> (#[trigger] ix[t] as int) < fs.len(),
    ensures
        loaded_members(ok, fs, ix) == ix.map_values(|i: u32| FaceId(i as usize)),
    decreases ix.len(),
{
    if ix.len() > 0 {
        let rest = ix.drop_last();
        assert forall|t: int| 0 <= t < rest.len() implies (#[trigger] rest[t] as int) < fs.len() by {
            assert(rest[t] == ix[t]);
        }
        lemma_loaded_members_all(ok, fs, rest);
        let i = ix.last() as int;
        assert(ix[ix.len() - 1] == ix.last());
        assert(usable_ring(ok, fs[i].0));
        lemma_made_before_all(ok, fs, i);
        assert(ix.map_values(|i: u32| FaceId(i as usize)) =~= rest.map_values(|i: u32| FaceId(i as usize)).push(FaceId(i as usize)));
    } else {
        assert(ix.map_values(|i: u32| FaceId(i as usize)) =~= Seq::<FaceId>::empty());
    }
}

proof fn lemma_positions_renumbered(members: Seq<FaceId>, fids: Seq<FaceId>)
    requires
        fids.len() < u32::MAX,
    ensures
        forall|t: int| 0 <= t < face_positions(members, fids).len() ==> (#[trigger] face_positions(members, fids)[t] as int) < fids.len(),
        face_positions(members, fids).map_values(|i: u32| FaceId(i as usize)) == renumbered_members(members, fids),
{
    broadcast use vstd::seq_lib::group_filter_ensures;
    let kept = members.filter(|f: FaceId| fids.contains(f));
    let pos = face_positions(members, fids);
    assert forall|t: int| 0 <= t < pos.len() implies (#[trigger] pos[t] as int) < fids.len() && FaceId(pos[t] as usize) == FaceId(
        fids.index_of(kept[t]) as usize,
    ) by {
        assert(kept.contains(kept[t]));
        assert(fids.contains(kept[t]));
        let c = fids.index_of(kept[t]);
        assert(0 <= c < fids.len());
    }
    assert(pos.map_values(|i: u32| FaceId(i as usize)) =~= renumbered_members(members, fids));
}

proof fn lemma_groups_reloaded<P>(
    d: Document<P>,
    pf: ProjectFile<P>,
    order: Seq<VertexId>,
    fids: Seq<FaceId>,
    slots: Seq<GroupId>,
    ok: Seq<bool>,
    n: int,
)
    requires
        saved_as(d, pf, order, fids, slots),
        fids.len() < u32::MAX,
        forall|q: int| 0 <= q < file_faces(pf.faces@).len() ==> usable_ring(ok, #[trigger] file_faces(pf.faces@)[q].0),
        0 <= n <= slots.len(),
    ensures
        loaded_groups(ok, file_faces(pf.faces@), file_groups(pf.groups@.take(n))) == reloaded_groups(d, fids, slots.take(n)),
    decreases n,
{
    let fs = file_faces(pf.faces@);
    if n == 0 {
        assert(file_groups(pf.groups@.take(0)) =~= Seq::<(Seq<char>, Seq<u32>)>::empty());
        assert(slots.take(0) =~= Seq::<GroupId>::empty());
    } else {
        lemma_groups_reloaded(d, pf, order, fids, slots, ok, n - 1);
        let gs = file_groups(pf.groups@.take(n));
        assert(gs.drop_last() =~= file_groups(pf.groups@.take(n - 1)));
        assert(slots.take(n).drop_last() =~= slots.take(n - 1));
        assert(gs.last() == project_group_view(pf.groups@[n - 1]));
        assert(slots.take(n).last() == slots[n - 1]);
        let g = d.group(slots[n - 1]);
        assert(gs.last() == (g.0, face_positions(g.1, fids)));
        lemma_positions_renumbered(g.1, fids);
        assert(fs.len() == fids.len());
        lemma_loaded_members_all(ok, fs, face_positions(g.1, fids));
    }
}

/// Saving a document and loading the file back, with every saved position
/// usable, gives back the same geometry renumbered: the vertices the faces
/// use, in the order they were saved, at the same positions; the faces in
/// id order with the same loops through that renumbering and the same
/// standing as solid faces; the groups, in id order, with their names and
/// their renumbered members, as grouping them afresh gives (a group left
/// with no member is not restored); and the same guides. (A face with a
/// loop of fewer than three vertices is not restored, so such documents
/// are left out.)
pub proof fn lemma_save_load_round_trip<P>(
    d: Document<P>,
    pf: ProjectFile<P>,
    order: Seq<VertexId>,
    fids: Seq<FaceId>,
    slots: Seq<GroupId>,
    d2: Document<P>,
    ok: Seq<bool>,
    gok: Seq<bool>,
)
    requires
        d.the_mesh().wf(),
        d.the_mesh().vertex_slots() < u32::MAX,
        d.the_mesh().face_slots() < u32::MAX,
        rings_nondegenerate(d.the_mesh()),
        saved_as(d, pf, order, fids, slots),
        ok.len() == pf.vertices@.len(),
        forall|i: int| 0 <= i < ok.len() ==> ok[i],
        gok.len() == pf.guides@.len(),
        forall|i: int| 0 <= i < gok.len() ==> gok[i],
        loaded_from(d2, pf, ok, gok),
    ensures
        d2.the_mesh().vertex_slots() == order.len(),
        forall|i: int| 0 <= i < order.len() ==> d2.the_mesh().has_vertex(VertexId(i as usize)) && d2.the_mesh().pos(VertexId(i as usize)) == d.the_mesh().pos(#[trigger] order[i]),
        d2.the_mesh().face_slots() == fids.len(),
        forall|k: int|
            0 <= k < fids.len() ==> d2.the_mesh().has_face(FaceId(k as usize)) && d2.the_mesh().face(FaceId(k as usize)) == (
                renumbered_loop(order, d.the_mesh().face(#[trigger] fids[k]).0),
                d.the_mesh().face(fids[k]).1.map_values(|h: Seq<VertexId>| renumbered_loop(order, h)),
            ),
        forall|k: int| 0 <= k < fids.len() ==> (d2.solids().contains(FaceId(k as usize)) <==> d.solids().contains(#[trigger] fids[k])),
        grouped_as(d2, reloaded_groups(d, fids, slots)),
        d2.guide_list() == d.guide_list(),
{
    let m = d.the_mesh();
    let m2 = d2.the_mesh();
    let fs = file_faces(pf.faces@);
    assert(order.len() < u32::MAX) by {
        assert forall|x: int| 0 <= x < order.len() implies (#[trigger] order[x]).0 < m.vertex_slots() by {
            assert(order.contains(order[x]));
            let k = choose|k: int| 0 <= k < fids.len() && #[trigger] face_has_vertex(m.face(fids[k]), order[x]);
            assert(m.has_vertex(order[x]));
            m.lemma_ids_in_range();
        }
        lemma_distinct_vertices_bounded(order, m.vertex_slots() as int);
    }
    assert(ok.len() == order.len());
    lemma_count_true_all(ok, ok.len() as int);
    assert(ok.take(ok.len() as int) =~= ok);
    assert forall|i: int| 0 <= i < order.len() implies m2.has_vertex(VertexId(i as usize)) && m2.pos(VertexId(i as usize)) == m.pos(#[trigger] order[i]) by {
        lemma_count_true_all(ok, i);
        assert(loaded_vertex(ok, i) == VertexId(i as usize));
        assert(pf.vertices@[i] == m.pos(order[i]));
    }
    // each face's loops resolve
    assert forall|k: int| 0 <= k < fs.len() implies usable_ring(ok, #[trigger] fs[k].0) by {
        assert(fs[k] == project_face_view(pf.faces@[k]));
        let fk = m.face(fids[k]);
        assert(m.has_face(fids[k]));
        assert forall|t: int| 0 <= t < fk.0.len() implies order.contains(#[trigger] fk.0[t]) by {
            assert(fk.0.contains(fk.0[t]));
            assert(face_has_vertex(fk, fk.0[t]));
        }
        lemma_resolved_all(ok, order, fk.0);
    }
    lemma_made_before_all(ok, fs, fs.len() as int);
    assert forall|k: int|
        0 <= k < fids.len() implies m2.has_face(FaceId(k as usize)) && m2.face(FaceId(k as usize)) == (
            renumbered_loop(order, m.face(#[trigger] fids[k]).0),
            m.face(fids[k]).1.map_values(|h: Seq<VertexId>| renumbered_loop(order, h)),
        ) by {
        assert(fs[k] == project_face_view(pf.faces@[k]));
        let fk = m.face(fids[k]);
        assert(m.has_face(fids[k]));
        assert forall|t: int| 0 <= t < fk.0.len() implies order.contains(#[trigger] fk.0[t]) by {
            assert(fk.0.contains(fk.0[t]));
            assert(face_has_vertex(fk, fk.0[t]));
        }
        lemma_resolved_all(ok, order, fk.0);
        assert forall|h: int, t: int| 0 <= h < fk.1.len() && 0 <= t < fk.1[h].len() implies order.contains(#[trigger] fk.1[h][t]) by {
            assert(fk.1[h].contains(fk.1[h][t]));
            assert(face_has_vertex(fk, fk.1[h][t]));
        }
        lemma_loaded_holes_all(ok, order, fk.1);
        lemma_made_before_all(ok, fs, k);
        assert(usable_ring(ok, fs[k].0));
        assert(loaded_face(ok, fs, k) == FaceId(k as usize));
    }
    assert forall|k: int| 0 <= k < fids.len() implies (d2.solids().contains(FaceId(k as usize)) <==> d.solids().contains(#[trigger] fids[k])) by {
        lemma_made_before_all(ok, fs, k);
        assert(loaded_face(ok, fs, k) == FaceId(k as usize));
        assert(fs[k] == project_face_view(pf.faces@[k]));
        if d2.solids().contains(FaceId(k as usize)) {
            let q = choose|q: int| 0 <= q < fs.len() && usable_ring(ok, fs[q].0) && fs[q].2 && #[trigger] loaded_face(ok, fs, q) == FaceId(k as usize);
            lemma_made_before_all(ok, fs, q);
            m.lemma_ids_in_range();
            m.lemma_slots_bounded();
            crate::mesh::lemma_distinct_indices_bounded(fids, m.face_slots() as int);
            assert(q == k);
        }
    }
    // groups
    m.lemma_ids_in_range();
    m.lemma_slots_bounded();
    crate::mesh::lemma_distinct_indices_bounded(fids, m.face_slots() as int);
    lemma_groups_reloaded(d, pf, order, fids, slots, ok, slots.len() as int);
    assert(pf.groups@.take(slots.len() as int) =~= pf.groups@);
    assert(slots.take(slots.len() as int) =~= slots);
    // guides
    lemma_kept_guides_all(pf.guides@, gok);
}

proof fn lemma_kept_guides_all<P>(gs: Seq<Guide<P>>, gok: Seq<bool>)
    requires
        gok.len() == gs.len(),
        forall|i: int| 0 <= i < gok.len() ==> gok[i],
    ensures
        kept_guides(gs, gok) == gs,
    decreases gs.len(),
{
    if gs.len() > 0 {
        lemma_kept_guides_all(gs.drop_last(), gok.take(gs.len() - 1));
        assert(gs.drop_last().push(gs.last()) =~= gs);
    } else {
        assert(gs =~= Seq::<Guide<P>>::empty());
    }
}

} // verus!
