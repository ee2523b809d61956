use vstd::prelude::*;

verus! {

/// Identifies a vertex of a `Mesh`. Ids are never reused: once a vertex is
/// gone its id resolves to nothing, however many vertices are added later.
#[derive(Clone, Copy, PartialEq, Eq, Structural, Debug, Hash)]
pub struct VertexId(pub usize);

/// Identifies a face of a `Mesh`; like `VertexId`, never reused.
#[derive(Clone, Copy, PartialEq, Eq, Structural, Debug, Hash)]
pub struct FaceId(pub usize);

/// A mesh vertex: just its position, of whatever point type the caller uses.
#[derive(Clone, Copy, Debug)]
pub struct Vertex<P> {
    pub position: P,
}

/// A planar polygon face, possibly with holes. `outer` is an ordered vertex
/// ring wound counter-clockwise as seen from the face's front side; each loop
/// in `holes` is wound the opposite way. The face's normal is not stored: it
/// is a function of the current positions of `outer` (Newell's method),
/// computed by whoever holds the geometry.
#[derive(Debug)]
pub struct Face {
    pub outer: Vec<VertexId>,
    pub holes: Vec<Vec<VertexId>>,
}

/// The view of a list of vertex loops.
pub open spec fn rings_view(v: Seq<Vec<VertexId>>) -> Seq<Seq<VertexId>> {
    v.map_values(|l: Vec<VertexId>| l@)
}

impl View for Face {
    type V = (Seq<VertexId>, Seq<Seq<VertexId>>);

    open spec fn view(&self) -> (Seq<VertexId>, Seq<Seq<VertexId>>) {
        (self.outer@, rings_view(self.holes@))
    }
}

/// Copies a vertex loop.
pub fn copy_ring(ring: &Vec<VertexId>) -> (r: Vec<VertexId>)
    ensures
        r@ == ring@,
{
    let mut out: Vec<VertexId> = Vec::new();
    let mut i: usize = 0;
    while i < ring.len()
        invariant
            i <= ring@.len(),
            out@ == ring@.subrange(0, i as int),
        decreases ring@.len() - i,
    {
        out.push(ring[i]);
        proof {
            assert(out@ =~= ring@.subrange(0, i as int + 1));
        }
        i = i + 1;
    }
    proof {
        assert(out@ =~= ring@);
    }
    out
}

/// Copies a list of face ids.
pub fn copy_face_ids(ids: &Vec<FaceId>) -> (r: Vec<FaceId>)
    ensures
        r@ == ids@,
{
    vstd::slice::slice_to_vec(ids.as_slice())
}

/// Copies a list of vertex loops.
pub fn copy_rings(rings: &Vec<Vec<VertexId>>) -> (r: Vec<Vec<VertexId>>)
    ensures
        rings_view(r@) == rings_view(rings@),
{
    let mut out: Vec<Vec<VertexId>> = Vec::new();
    let mut i: usize = 0;
    while i < rings.len()
        invariant
            i <= rings@.len(),
            out@.len() == i,
            rings_view(out@) == rings_view(rings@).subrange(0, i as int),
        decreases rings@.len() - i,
    {
        let ghost before = out@;
        let c = copy_ring(&rings[i]);
        out.push(c);
        proof {
            assert forall|k: int| 0 <= k < i + 1 implies #[trigger] rings_view(out@)[k] == rings_view(rings@)[k] by {
                if k < i {
                    assert(out@[k] == before[k]);
                    assert(rings_view(before)[k] == rings_view(rings@).subrange(0, i as int)[k]);
                }
            }
            assert(rings_view(out@) =~= rings_view(rings@).subrange(0, i as int + 1));
        }
        i = i + 1;
    }
    proof {
        assert(rings_view(out@) =~= rings_view(rings@));
    }
    out
}

impl Clone for Face {
    fn clone(&self) -> (r: Face)
        ensures
            r@ == self@,
    {
        Face { outer: copy_ring(&self.outer), holes: copy_rings(&self.holes) }
    }
}

/// `v` is one of the vertices of the face with loops `f` (outer or a hole).
pub open spec fn face_has_vertex(f: (Seq<VertexId>, Seq<Seq<VertexId>>), v: VertexId) -> bool {
    f.0.contains(v) || exists|h: int| 0 <= h < f.1.len() && #[trigger] f.1[h].contains(v)
}

/// Every vertex that the rings `outer` and `holes` mention exists in `mesh`.
pub open spec fn rings_exist<P>(mesh: Mesh<P>, outer: Seq<VertexId>, holes: Seq<Seq<VertexId>>) -> bool {
    &&& forall|i: int| 0 <= i < outer.len() ==> mesh.has_vertex(#[trigger] outer[i])
    &&& forall|h: int, i: int| 0 <= h < holes.len() && 0 <= i < holes[h].len() ==> mesh.has_vertex(#[trigger] holes[h][i])
}

/// Rings whose vertices exist keep existing in a mesh that has every vertex
/// of `prior`.
pub proof fn lemma_rings_exist_carry<P>(prior: Mesh<P>, later: Mesh<P>, outer: Seq<VertexId>, holes: Seq<Seq<VertexId>>)
    requires
        rings_exist(prior, outer, holes),
        forall|v: VertexId| prior.has_vertex(v) ==> #[trigger] later.has_vertex(v),
    ensures
        rings_exist(later, outer, holes),
{
    assert forall|i: int| 0 <= i < outer.len() implies later.has_vertex(#[trigger] outer[i]) by {
        assert(prior.has_vertex(outer[i]));
    }
    assert forall|h: int, i: int| 0 <= h < holes.len() && 0 <= i < holes[h].len() implies later.has_vertex(#[trigger] holes[h][i]) by {
        assert(prior.has_vertex(holes[h][i]));
    }
}

/// In a well-formed mesh the rings of every face exist.
pub proof fn lemma_wf_face_rings<P>(mesh: Mesh<P>, f: FaceId)
    requires
        mesh.wf(),
        mesh.has_face(f),
    ensures
        rings_exist(mesh, mesh.face(f).0, mesh.face(f).1),
{
    let (outer, holes) = mesh.face(f);
    assert forall|i: int| 0 <= i < outer.len() implies mesh.has_vertex(#[trigger] outer[i]) by {
        assert(outer.contains(outer[i]));
        assert(face_has_vertex(mesh.face(f), outer[i]));
    }
    assert forall|h: int, i: int| 0 <= h < holes.len() && 0 <= i < holes[h].len() implies mesh.has_vertex(#[trigger] holes[h][i]) by {
        assert(holes[h].contains(holes[h][i]));
        assert(face_has_vertex(mesh.face(f), holes[h][i]));
    }
}

/// Rings whose vertices exist form loops whose vertices exist.
pub proof fn lemma_rings_exist_loops<P>(mesh: Mesh<P>, outer: Seq<VertexId>, holes: Seq<Seq<VertexId>>)
    requires
        rings_exist(mesh, outer, holes),
    ensures
        mesh.loops_exist((outer, holes)),
{
    assert forall|v: VertexId| #[trigger] face_has_vertex((outer, holes), v) implies mesh.has_vertex(v) by {
        if outer.contains(v) {
            let i = choose|i: int| 0 <= i < outer.len() && outer[i] == v;
            assert(mesh.has_vertex(outer[i]));
        } else {
            let h = choose|h: int| 0 <= h < holes.len() && #[trigger] holes[h].contains(v);
            let i = choose|i: int| 0 <= i < holes[h].len() && holes[h][i] == v;
            assert(mesh.has_vertex(holes[h][i]));
        }
    }
}

/// The mesh: one pool of vertices plus independent polygon faces. Faces do
/// not share topology (no half-edge twins) - each face owns its own loops of
/// vertex ids, and faces of one solid share vertex ids at their corners.
pub struct Mesh<P> {
    vertices: Vec<Option<Vertex<P>>>,
    faces: Vec<Option<Face>>,
}

/// The position in a vertex slot, if the slot holds a vertex.
pub open spec fn slot_position<P>(s: Option<Vertex<P>>) -> Option<P> {
    match s {
        Some(v) => Some(v.position),
        None => None,
    }
}

/// The loops in a face slot, if the slot holds a face.
pub open spec fn slot_loops(s: Option<Face>) -> Option<(Seq<VertexId>, Seq<Seq<VertexId>>)> {
    match s {
        Some(f) => Some(f@),
        None => None,
    }
}

impl<P> View for Mesh<P> {
    /// Every vertex slot (its position, if any) and every face slot (its
    /// loops, if any).
    type V = (Seq<Option<P>>, Seq<Option<(Seq<VertexId>, Seq<Seq<VertexId>>)>>);

    closed spec fn view(&self) -> (Seq<Option<P>>, Seq<Option<(Seq<VertexId>, Seq<Seq<VertexId>>)>>) {
        (self.vertices@.map_values(|s: Option<Vertex<P>>| slot_position(s)), self.faces@.map_values(|s: Option<Face>| slot_loops(s)))
    }
}

impl<P: Copy> Clone for Mesh<P> {
    fn clone(&self) -> (r: Mesh<P>)
        ensures
            r@ == self@,
    {
        let mut vertices: Vec<Option<Vertex<P>>> = Vec::new();
        let mut i: usize = 0;
        while i < self.vertices.len()
            invariant
                i <= self.vertices@.len(),
                vertices@ == self.vertices@.take(i as int),
            decreases self.vertices@.len() - i,
        {
            let slot = match &self.vertices[i] {
                Some(v) => Some(Vertex { position: v.position }),
                None => None,
            };
            vertices.push(slot);
            proof {
                assert(vertices@ =~= self.vertices@.take(i as int + 1));
            }
            i = i + 1;
        }
        let mut faces: Vec<Option<Face>> = Vec::new();
        let mut j: usize = 0;
        while j < self.faces.len()
            invariant
                j <= self.faces@.len(),
                faces@.len() == j,
                forall|k: int| 0 <= k < j ==> #[trigger] slot_loops(faces@[k]) == slot_loops(self.faces@[k]),
            decreases self.faces@.len() - j,
        {
            let slot = match &self.faces[j] {
                Some(f) => Some(f.clone()),
                None => None,
            };
            faces.push(slot);
            j = j + 1;
        }
        let r = Mesh { vertices, faces };
        proof {
            assert(self.vertices@.take(self.vertices@.len() as int) =~= self.vertices@);
            assert(r@.0 =~= self@.0);
            assert(r@.1 =~= self@.1);
        }
        r
    }
}

impl<P> Mesh<P> {
    pub closed spec fn has_vertex(&self, v: VertexId) -> bool {
        v.0 < self.vertices@.len() && self.vertices@[v.0 as int] is Some
    }

    pub closed spec fn pos(&self, v: VertexId) -> P {
        self.vertices@[v.0 as int].unwrap().position
    }

    pub proof fn lemma_ids_in_range(&self)
        ensures
            forall|v: VertexId| #[trigger] self.has_vertex(v) ==> v.0 < self.vertex_slots(),
            forall|f: FaceId| #[trigger] self.has_face(f) ==> f.0 < self.face_slots(),
    {
    }

    pub proof fn lemma_slots_bounded(&self)
        ensures
            self.vertex_slots() <= usize::MAX,
            self.face_slots() <= usize::MAX,
    {
        assert(self.vertices.len() == self.vertices@.len());
        assert(self.faces.len() == self.faces@.len());
    }

    pub closed spec fn vertex_slots(&self) -> nat {
        self.vertices@.len()
    }

    pub closed spec fn has_face(&self, f: FaceId) -> bool {
        f.0 < self.faces@.len() && self.faces@[f.0 as int] is Some
    }

    /// The loops of face `f` (meaningful when `has_face(f)`).
    pub closed spec fn face(&self, f: FaceId) -> (Seq<VertexId>, Seq<Seq<VertexId>>) {
        self.faces@[f.0 as int].unwrap()@
    }

    pub closed spec fn face_slots(&self) -> nat {
        self.faces@.len()
    }

    /// Every face only references vertices that exist.
    /// Two meshes with the same view have the same vertices, positions
    /// and faces.
    pub proof fn lemma_same_view(&self, other: &Mesh<P>)
        requires
            self@ == other@,
        ensures
            self.same_vertices(other),
            self.same_faces(other),
            self.wf() == other.wf(),
    {
        assert(self.vertices@.len() == self@.0.len());
        assert(other.vertices@.len() == other@.0.len());
        assert(self.faces@.len() == self@.1.len());
        assert(other.faces@.len() == other@.1.len());
        assert forall|v: VertexId| #[trigger] self.has_vertex(v) == other.has_vertex(v) by {
            if v.0 < self.vertices@.len() {
                assert(self@.0[v.0 as int] == other@.0[v.0 as int]);
            }
        }
        assert forall|v: VertexId| other.has_vertex(v) implies #[trigger] self.pos(v) == other.pos(v) by {
            assert(self@.0[v.0 as int] == other@.0[v.0 as int]);
        }
        assert forall|g: FaceId| #[trigger] self.has_face(g) == other.has_face(g) by {
            if g.0 < self.faces@.len() {
                assert(self@.1[g.0 as int] == other@.1[g.0 as int]);
            }
        }
        assert forall|g: FaceId| other.has_face(g) implies #[trigger] self.face(g) == other.face(g) by {
            assert(self@.1[g.0 as int] == other@.1[g.0 as int]);
        }
        if self.wf() {
            assert forall|f: FaceId, v: VertexId| other.has_face(f) && #[trigger] face_has_vertex(other.face(f), v) implies #[trigger] other.has_vertex(v) by {
                assert(self.has_face(f) && self.face(f) == other.face(f));
                assert(self.has_vertex(v));
            }
        }
        if other.wf() {
            assert forall|f: FaceId, v: VertexId| self.has_face(f) && #[trigger] face_has_vertex(self.face(f), v) implies #[trigger] self.has_vertex(v) by {
                assert(other.has_face(f) && self.face(f) == other.face(f));
                assert(other.has_vertex(v));
            }
        }
    }

    pub open spec fn wf(&self) -> bool {
        forall|f: FaceId, v: VertexId| self.has_face(f) && #[trigger] face_has_vertex(self.face(f), v) ==> #[trigger] self.has_vertex(v)
    }

    /// Every vertex the loops `f` mention exists.
    pub open spec fn loops_exist(&self, f: (Seq<VertexId>, Seq<Seq<VertexId>>)) -> bool {
        forall|v: VertexId| #[trigger] face_has_vertex(f, v) ==> self.has_vertex(v)
    }

    /// Face `f` has the same loops here as in `other`.
    pub open spec fn same_face_as(&self, other: &Mesh<P>, f: FaceId) -> bool {
        self.face(f) == other.face(f)
    }

    proof fn lemma_wf_carry(prior: &Mesh<P>, later: &Mesh<P>, fresh: Option<FaceId>)
        requires
            prior.wf(),
            forall|v: VertexId| prior.has_vertex(v) ==> #[trigger] later.has_vertex(v),
            forall|f: FaceId| #[trigger] later.has_face(f) && Some(f) != fresh ==> prior.has_face(f) && later.same_face_as(prior, f),
            forall|id: FaceId| fresh == Some(id) ==> #[trigger] later.loops_exist(later.face(id)),
        ensures
            later.wf(),
    {
        assert forall|f: FaceId, v: VertexId| later.has_face(f) && #[trigger] face_has_vertex(later.face(f), v) implies #[trigger] later.has_vertex(v) by {
            if Some(f) != fresh {
                assert(prior.has_face(f) && later.same_face_as(prior, f));
                assert(face_has_vertex(prior.face(f), v));
                assert(prior.has_vertex(v));
            } else {
                assert(later.loops_exist(later.face(f)));
            }
        }
    }

    /// The ids of the faces present, as a set.
    pub open spec fn face_set(&self) -> Set<FaceId> {
        Set::new(|f: FaceId| self.has_face(f))
    }

    /// Faces `f` and `g` share at least one vertex.
    pub open spec fn touches(&self, f: FaceId, g: FaceId) -> bool {
        exists|v: VertexId| face_has_vertex(self.face(f), v) && face_has_vertex(self.face(g), v)
    }

    /// Everything but the face `f` is as in `other`.
    pub open spec fn same_faces_except(&self, other: &Mesh<P>, f: FaceId) -> bool {
        &&& forall|g: FaceId| g != f ==> (#[trigger] self.has_face(g) == other.has_face(g))
        &&& forall|g: FaceId| g != f && other.has_face(g) ==> #[trigger] self.face(g) == other.face(g)
    }

    pub open spec fn same_vertices(&self, other: &Mesh<P>) -> bool {
        &&& self.vertex_slots() == other.vertex_slots()
        &&& forall|v: VertexId| #[trigger] self.has_vertex(v) == other.has_vertex(v)
        &&& forall|v: VertexId| other.has_vertex(v) ==> #[trigger] self.pos(v) == other.pos(v)
    }

    pub open spec fn same_faces(&self, other: &Mesh<P>) -> bool {
        &&& self.face_slots() == other.face_slots()
        &&& forall|g: FaceId| #[trigger] self.has_face(g) == other.has_face(g)
        &&& forall|g: FaceId| other.has_face(g) ==> #[trigger] self.face(g) == other.face(g)
    }

    pub fn new() -> (m: Mesh<P>)
        ensures
            m.wf(),
            m.vertex_slots() == 0,
            m.face_slots() == 0,
            forall|v: VertexId| !m.has_vertex(v),
            forall|f: FaceId| !m.has_face(f),
    {
        Mesh { vertices: Vec::new(), faces: Vec::new() }
    }

    /// Adds a vertex at `position`, under a fresh id.
    pub fn add_vertex(&mut self, position: P) -> (id: VertexId)
        requires
            old(self).vertex_slots() < usize::MAX,
        ensures
            id.0 == old(self).vertex_slots(),
            final(self).vertex_slots() == old(self).vertex_slots() + 1,
            final(self).has_vertex(id),
            final(self).pos(id) == position,
            old(self).wf() ==> final(self).wf(),
            forall|v: VertexId| v != id ==> (#[trigger] final(self).has_vertex(v) == old(self).has_vertex(v)),
            forall|v: VertexId| v != id && old(self).has_vertex(v) ==> #[trigger] final(self).pos(v) == old(self).pos(v),
            final(self).same_faces(old(self)),
    {
        let id = VertexId(self.vertices.len());
        let ghost before = *self;
        self.vertices.push(Some(Vertex { position }));
        proof {
            if before.wf() {
                assert forall|v: VertexId| before.has_vertex(v) implies #[trigger] self.has_vertex(v) by {
                    assert(self.vertices@[v.0 as int] == before.vertices@[v.0 as int]);
                }
                Self::lemma_wf_carry(&before, self, None);
            }
        }
        id
    }

    /// Adds a face with the given loops, under a fresh id.
    pub fn add_face(&mut self, outer: Vec<VertexId>, holes: Vec<Vec<VertexId>>) -> (id: FaceId)
        requires
            old(self).face_slots() < usize::MAX,
            old(self).loops_exist((outer@, rings_view(holes@))),
        ensures
            old(self).wf() ==> final(self).wf(),
            id.0 == old(self).face_slots(),
            final(self).face_slots() == old(self).face_slots() + 1,
            final(self).has_face(id),
            final(self).face(id) == (outer@, rings_view(holes@)),
            final(self).same_faces_except(old(self), id),
            !old(self).has_face(id),
            final(self).same_vertices(old(self)),
    {
        let id = FaceId(self.faces.len());
        let ghost before = *self;
        let ghost outer_v = outer@;
        let ghost holes_v = rings_view(holes@);
        self.faces.push(Some(Face { outer, holes }));
        proof {
            assert forall|g: FaceId| g != id implies #[trigger] self.has_face(g) == before.has_face(g) by {
                if g.0 < before.faces@.len() {
                    assert(self.faces@[g.0 as int] == before.faces@[g.0 as int]);
                }
            }
            assert forall|g: FaceId| g != id && before.has_face(g) implies #[trigger] self.face(g) == before.face(g) by {
                assert(self.faces@[g.0 as int] == before.faces@[g.0 as int]);
            }
            if before.wf() {
                assert forall|g: FaceId| #[trigger] self.has_face(g) && Some(g) != Some(id) implies before.has_face(g) && self.same_face_as(&before, g) by {
                    assert(self.faces@[g.0 as int] == before.faces@[g.0 as int]);
                }
                assert(self.face(id) == (outer_v, holes_v));
                Self::lemma_wf_carry(&before, self, Some(id));
            }
        }
        id
    }

    /// Removes face `id` if present; a no-op otherwise.
    pub fn remove_face(&mut self, id: FaceId)
        ensures
            old(self).wf() ==> final(self).wf(),
            !final(self).has_face(id),
            final(self).face_slots() == old(self).face_slots(),
            final(self).same_faces_except(old(self), id),
            final(self).same_vertices(old(self)),
    {
        let ghost before = *self;
        if id.0 < self.faces.len() {
            self.faces.set(id.0, None);
        }
        proof {
            if before.wf() {
                assert forall|g: FaceId| #[trigger] self.has_face(g) && Some(g) != None::<FaceId> implies before.has_face(g) && self.same_face_as(&before, g) by {
                    assert(self.faces@[g.0 as int] == before.faces@[g.0 as int]);
                }
                Self::lemma_wf_carry(&before, self, None);
            }
        }
    }

    pub fn contains_face(&self, id: FaceId) -> (r: bool)
        ensures
            r == self.has_face(id),
    {
        id.0 < self.faces.len() && self.faces[id.0].is_some()
    }

    pub fn contains_vertex(&self, id: VertexId) -> (r: bool)
        ensures
            r == self.has_vertex(id),
    {
        id.0 < self.vertices.len() && self.vertices[id.0].is_some()
    }

    /// The face `id`, if present.
    pub fn get_face(&self, id: FaceId) -> (r: Option<&Face>)
        ensures
            match r {
                Some(f) => self.has_face(id) && f@ == self.face(id),
                None => !self.has_face(id),
            },
    {
        if id.0 < self.faces.len() {
            match &self.faces[id.0] {
                Some(f) => Some(f),
                None => None,
            }
        } else {
            None
        }
    }

    /// Replaces the loops of the existing face `id`.
    pub fn set_face_loops(&mut self, id: FaceId, outer: Vec<VertexId>, holes: Vec<Vec<VertexId>>)
        requires
            old(self).has_face(id),
            old(self).loops_exist((outer@, rings_view(holes@))),
        ensures
            old(self).wf() ==> final(self).wf(),
            final(self).has_face(id),
            final(self).face(id) == (outer@, rings_view(holes@)),
            final(self).face_slots() == old(self).face_slots(),
            final(self).same_faces_except(old(self), id),
            final(self).same_vertices(old(self)),
    {
        let ghost before = *self;
        let ghost outer_v = outer@;
        let ghost holes_v = rings_view(holes@);
        self.faces.set(id.0, Some(Face { outer, holes }));
        proof {
            assert(self.face(id) == (outer_v, holes_v));
            if before.wf() {
                assert forall|g: FaceId| #[trigger] self.has_face(g) && Some(g) != Some(id) implies before.has_face(g) && self.same_face_as(&before, g) by {
                    assert(self.faces@[g.0 as int] == before.faces@[g.0 as int]);
                }
                Self::lemma_wf_carry(&before, self, Some(id));
            }
        }
    }

    /// How many vertex ids have been handed out.
    pub fn vertex_count(&self) -> (n: usize)
        ensures
            n == self.vertex_slots(),
    {
        self.vertices.len()
    }

    /// How many face ids have been handed out.
    pub fn face_count(&self) -> (n: usize)
        ensures
            n == self.face_slots(),
    {
        self.faces.len()
    }

    /// The ids of every face present, in increasing id order.
    pub fn face_ids(&self) -> (r: Vec<FaceId>)
        ensures
            forall|i: int| 0 <= i < r@.len() ==> self.has_face(#[trigger] r@[i]),
            forall|f: FaceId| self.has_face(f) ==> r@.contains(f),
            forall|i: int, j: int| 0 <= i < j < r@.len() ==> (#[trigger] r@[i]).0 < (#[trigger] r@[j]).0,
    {
        let mut out: Vec<FaceId> = Vec::new();
        let mut i: usize = 0;
        while i < self.faces.len()
            invariant
                i <= self.faces@.len(),
                forall|k: int| 0 <= k < out@.len() ==> self.has_face(#[trigger] out@[k]) && out@[k].0 < i,
                forall|f: FaceId| f.0 < i && self.has_face(f) ==> out@.contains(f),
                forall|k: int, j: int| 0 <= k < j < out@.len() ==> (#[trigger] out@[k]).0 < (#[trigger] out@[j]).0,
            decreases self.faces@.len() - i,
        {
            if self.faces[i].is_some() {
                let ghost before = out@;
                out.push(FaceId(i));
                proof {
                    assert forall|f: FaceId| f.0 < i + 1 && self.has_face(f) implies out@.contains(f) by {
                        if f.0 == i {
                            assert(f == FaceId(i));
                            assert(out@[out@.len() - 1] == f);
                        } else {
                            assert(before.contains(f));
                            let k = choose|k: int| 0 <= k < before.len() && before[k] == f;
                            assert(out@[k] == f);
                        }
                    }
                }
            }
            i = i + 1;
        }
        out
    }
}

impl<P: Copy> Mesh<P> {
    /// Position of the existing vertex `id`.
    pub fn position(&self, id: VertexId) -> (p: P)
        requires
            self.has_vertex(id),
        ensures
            p == self.pos(id),
    {
        let slot = &self.vertices[id.0];
        slot.as_ref().unwrap().position
    }

    /// Moves the existing vertex `id` to `p`.
    pub fn set_position(&mut self, id: VertexId, p: P)
        requires
            old(self).has_vertex(id),
        ensures
            final(self).vertex_slots() == old(self).vertex_slots(),
            forall|v: VertexId| #[trigger] final(self).has_vertex(v) == old(self).has_vertex(v),
            final(self).pos(id) == p,
            forall|v: VertexId| v != id && old(self).has_vertex(v) ==> #[trigger] final(self).pos(v) == old(self).pos(v),
            final(self).same_faces(old(self)),
            old(self).wf() ==> final(self).wf(),
    {
        let ghost before = *self;
        self.vertices.set(id.0, Some(Vertex { position: p }));
        proof {
            if before.wf() {
                assert forall|v: VertexId| before.has_vertex(v) implies #[trigger] self.has_vertex(v) by {
                    if v.0 != id.0 {
                        assert(self.vertices@[v.0 as int] == before.vertices@[v.0 as int]);
                    }
                }
                Self::lemma_wf_carry(&before, self, None);
            }
        }
    }
}

/// Whether `ring` holds `v`.
pub fn ring_contains(ring: &Vec<VertexId>, v: VertexId) -> (r: bool)
    ensures
        r == ring@.contains(v),
{
    let mut i: usize = 0;
    while i < ring.len()
        invariant
            i <= ring@.len(),
            forall|k: int| 0 <= k < i ==> ring@[k] != v,
        decreases ring@.len() - i,
    {
        if ring[i] == v {
            return true;
        }
        i = i + 1;
    }
    false
}

impl<P> Mesh<P> {
    /// A chain of faces of `s`, consecutive ones sharing a vertex.
    pub open spec fn is_chain(&self, s: Set<FaceId>, path: Seq<FaceId>) -> bool {
        &&& path.len() >= 1
        &&& forall|i: int| 0 <= i < path.len() ==> s.contains(#[trigger] path[i])
        &&& forall|i: int| 0 <= i < path.len() - 1 ==> #[trigger] self.touches(path[i], path[i + 1])
    }

    /// `g` can be reached from `f` through faces of `s` that share vertices.
    pub open spec fn linked(&self, s: Set<FaceId>, f: FaceId, g: FaceId) -> bool {
        exists|path: Seq<FaceId>| #[trigger] self.is_chain(s, path) && path[0] == f && path.last() == g
    }

    /// `comps` splits the faces of `ids` into groups that are connected
    /// through shared vertices and share no vertex with each other: the
    /// connected components of `ids`, each face listed once.
    pub open spec fn is_component_split(&self, ids: Seq<FaceId>, comps: Seq<Seq<FaceId>>) -> bool {
        let s = ids.to_set();
        &&& forall|k: int| 0 <= k < comps.len() ==> #[trigger] comps[k].len() > 0
        &&& forall|k: int, i: int|
            0 <= k < comps.len() && 0 <= i < comps[k].len() ==> s.contains(#[trigger] comps[k][i])
        &&& forall|f: FaceId| s.contains(f) ==> exists|k: int, i: int|
            0 <= k < comps.len() && 0 <= i < comps[k].len() && #[trigger] comps[k][i] == f
        &&& forall|k1: int, i1: int, k2: int, i2: int|
            0 <= k1 < comps.len() && 0 <= i1 < comps[k1].len() && 0 <= k2 < comps.len() && 0 <= i2
                < comps[k2].len() && #[trigger] comps[k1][i1] == #[trigger] comps[k2][i2] ==> k1 == k2 && i1
                == i2
        &&& forall|k1: int, i1: int, k2: int, i2: int|
            0 <= k1 < comps.len() && 0 <= i1 < comps[k1].len() && 0 <= k2 < comps.len() && 0 <= i2
                < comps[k2].len() && k1 != k2 ==> !self.touches(#[trigger] comps[k1][i1], #[trigger] comps[k2][i2])
        &&& forall|k: int, i: int|
            0 <= k < comps.len() && 0 <= i < comps[k].len() ==> self.linked(s, comps[k][0], #[trigger] comps[k][i])
    }

    pub proof fn lemma_linked_refl(&self, s: Set<FaceId>, f: FaceId)
        requires
            s.contains(f),
        ensures
            self.linked(s, f, f),
    {
        let path = seq![f];
        assert(self.is_chain(s, path));
    }

    pub proof fn lemma_linked_extend(&self, s: Set<FaceId>, f: FaceId, x: FaceId, g: FaceId)
        requires
            self.linked(s, f, x),
            s.contains(g),
            self.touches(x, g),
        ensures
            self.linked(s, f, g),
    {
        let path = choose|path: Seq<FaceId>| #[trigger] self.is_chain(s, path) && path[0] == f && path.last() == x;
        let p2 = path.push(g);
        assert forall|i: int| 0 <= i < p2.len() - 1 implies #[trigger] self.touches(p2[i], p2[i + 1]) by {
            if i < path.len() - 1 {
                assert(p2[i] == path[i] && p2[i + 1] == path[i + 1]);
            } else {
                assert(p2[i] == x && p2[i + 1] == g);
            }
        }
        assert(self.is_chain(s, p2));
    }

    pub proof fn lemma_touches_symmetric(&self, f: FaceId, g: FaceId)
        requires
            self.touches(f, g),
        ensures
            self.touches(g, f),
    {
        let v = choose|v: VertexId| face_has_vertex(self.face(f), v) && face_has_vertex(self.face(g), v);
        assert(face_has_vertex(self.face(g), v) && face_has_vertex(self.face(f), v));
    }

    pub proof fn lemma_linked_symmetric(&self, s: Set<FaceId>, f: FaceId, g: FaceId)
        requires
            self.linked(s, f, g),
        ensures
            self.linked(s, g, f),
    {
        let path = choose|path: Seq<FaceId>| #[trigger] self.is_chain(s, path) && path[0] == f && path.last() == g;
        let rev = path.reverse();
        assert forall|i: int| 0 <= i < rev.len() - 1 implies #[trigger] self.touches(rev[i], rev[i + 1]) by {
            let n = path.len() as int;
            assert(rev[i] == path[n - 1 - i]);
            assert(rev[i + 1] == path[n - 2 - i]);
            assert(self.touches(path[n - 2 - i], path[(n - 2 - i) + 1]));
            self.lemma_touches_symmetric(path[n - 2 - i], path[n - 1 - i]);
        }
        assert forall|i: int| 0 <= i < rev.len() implies s.contains(#[trigger] rev[i]) by {
            assert(rev[i] == path[path.len() - 1 - i]);
        }
        assert(self.is_chain(s, rev));
    }

    pub proof fn lemma_linked_trans(&self, s: Set<FaceId>, f: FaceId, x: FaceId, g: FaceId)
        requires
            self.linked(s, f, x),
            self.linked(s, x, g),
        ensures
            self.linked(s, f, g),
    {
        let p1 = choose|path: Seq<FaceId>| #[trigger] self.is_chain(s, path) && path[0] == f && path.last() == x;
        let p2 = choose|path: Seq<FaceId>| #[trigger] self.is_chain(s, path) && path[0] == x && path.last() == g;
        let p = p1 + p2.drop_first();
        assert forall|i: int| 0 <= i < p.len() implies s.contains(#[trigger] p[i]) by {
            if i < p1.len() {
                assert(p[i] == p1[i]);
            } else {
                assert(p[i] == p2[i - p1.len() + 1]);
            }
        }
        assert forall|i: int| 0 <= i < p.len() - 1 implies #[trigger] self.touches(p[i], p[i + 1]) by {
            if i < p1.len() - 1 {
                assert(p[i] == p1[i] && p[i + 1] == p1[i + 1]);
            } else if i == p1.len() - 1 {
                assert(p[i] == x);
                assert(p[i + 1] == p2[1]);
                assert(self.touches(p2[0int], p2[0int + 1]));
            } else {
                assert(p[i] == p2[i - p1.len() + 1]);
                assert(p[i + 1] == p2[i - p1.len() + 2]);
                assert(self.touches(p2[i - p1.len() + 1], p2[(i - p1.len() + 1) + 1]));
            }
        }
        if p2.len() == 1 {
            assert(p =~= p1);
        }
        assert(self.is_chain(s, p));
        assert(p.last() == g);
    }

    /// A chain that starts in component `k` of a split stays in it.
    proof fn lemma_chain_stays(&self, ids: Seq<FaceId>, comps: Seq<Seq<FaceId>>, path: Seq<FaceId>, k: int)
        requires
            self.is_component_split(ids, comps),
            self.is_chain(ids.to_set(), path),
            0 <= k < comps.len(),
            comps[k].contains(path[0]),
        ensures
            comps[k].contains(path.last()),
        decreases path.len(),
    {
        if path.len() > 1 {
            let q = path.drop_last();
            assert forall|i: int| 0 <= i < q.len() - 1 implies #[trigger] self.touches(q[i], q[i + 1]) by {
                assert(self.touches(path[i], path[i + 1]));
            }
            assert(self.is_chain(ids.to_set(), q));
            self.lemma_chain_stays(ids, comps, q, k);
            let x = q.last();
            let g = path.last();
            assert(self.touches(path[path.len() - 2], path[(path.len() - 2) + 1]));
            assert(ids.to_set().contains(g));
            let (k2, i2) = choose|k2: int, i2: int| 0 <= k2 < comps.len() && 0 <= i2 < comps[k2].len() && #[trigger] comps[k2][i2] == g;
            let i1 = choose|i1: int| 0 <= i1 < comps[k].len() && comps[k][i1] == x;
            if k2 != k {
                assert(!self.touches(comps[k][i1], comps[k2][i2]));
            }
            assert(comps[k][i2] == g);
        }
    }

    /// The connected component of face `f` among all the faces of the
    /// mesh: the faces reachable from it through shared vertices (empty when
    /// `f` is not in the mesh).
    pub fn component_of(&self, f: FaceId) -> (r: Vec<FaceId>)
        ensures
            forall|g: FaceId| #[trigger] r@.contains(g) <==> (self.has_face(f) && self.has_face(g) && self.linked(self.face_set(), f, g)),
            r@.no_duplicates(),
    {
        let all = self.face_ids();
        let ghost s = all@.to_set();
        proof {
            assert(s =~= self.face_set()) by {
                assert forall|g: FaceId| s.contains(g) <==> self.face_set().contains(g) by {
                    if s.contains(g) {
                        let i = choose|i: int| 0 <= i < all@.len() && all@[i] == g;
                    }
                }
            }
        }
        let comps = self.connected_components(all.as_slice());
        let ghost cv = id_lists_view(comps@);
        let mut k: usize = 0;
        while k < comps.len()
            invariant
                cv == id_lists_view(comps@),
                self.is_component_split(all@, cv),
                s == all@.to_set(),
                s == self.face_set(),
                k <= comps@.len(),
                forall|q: int| 0 <= q < k ==> !(#[trigger] cv[q]).contains(f),
            decreases comps@.len() - k,
        {
            proof {
                assert(cv[k as int] == comps@[k as int]@);
            }
            if crate::selection::list_contains(&comps[k], f) {
                let ghost c = cv[k as int];
                proof {
                    assert forall|g: FaceId| #[trigger] c.contains(g) <==> (self.has_face(f) && self.has_face(g) && self.linked(s, f, g)) by {
                        let i0 = choose|i: int| 0 <= i < c.len() && c[i] == f;
                        assert(self.linked(s, c[0], c[i0]));
                        assert(s.contains(f));
                        if c.contains(g) {
                            let i1 = choose|i: int| 0 <= i < c.len() && c[i] == g;
                            assert(self.linked(s, c[0], c[i1]));
                            self.lemma_linked_symmetric(s, c[0], f);
                            self.lemma_linked_trans(s, f, c[0], g);
                            assert(s.contains(g));
                        }
                        if self.has_face(f) && self.has_face(g) && self.linked(s, f, g) {
                            let path = choose|path: Seq<FaceId>| #[trigger] self.is_chain(s, path) && path[0] == f && path.last() == g;
                            self.lemma_chain_stays(all@, cv, path, k as int);
                        }
                    }
                    assert forall|x: int, y: int| 0 <= x < y < c.len() implies c[x] != c[y] by {
                        if c[x] == c[y] {
                            assert(cv[k as int][x] == cv[k as int][y]);
                        }
                    }
                }
                return crate::mesh::copy_face_ids(&comps[k]);
            }
            k = k + 1;
        }
        proof {
            assert forall|g: FaceId| #[trigger] Seq::<FaceId>::empty().contains(g) <==> (self.has_face(f) && self.has_face(g) && self.linked(s, f, g)) by {
                if self.has_face(f) {
                    assert(s.contains(f));
                    let (k2, i2) = choose|k2: int, i2: int| 0 <= k2 < cv.len() && 0 <= i2 < cv[k2].len() && #[trigger] cv[k2][i2] == f;
                    assert(cv[k2].contains(f));
                }
            }
        }
        Vec::new()
    }

    /// The vertices of every face in the connected component of face `f`.
    pub fn component_vertices(&self, f: FaceId) -> (r: Vec<VertexId>)
        ensures
            forall|v: VertexId| #[trigger] r@.contains(v) <==> exists|g: FaceId|
                self.has_face(f) && self.has_face(g) && self.linked(self.face_set(), f, g) && #[trigger] face_has_vertex(self.face(g), v),
    {
        let comp = self.component_of(f);
        let mut out: Vec<VertexId> = Vec::new();
        let mut i: usize = 0;
        while i < comp.len()
            invariant
                i <= comp@.len(),
                forall|g: FaceId| #[trigger] comp@.contains(g) <==> (self.has_face(f) && self.has_face(g) && self.linked(self.face_set(), f, g)),
                forall|v: VertexId| #[trigger] out@.contains(v) <==> exists|k: int| 0 <= k < i && #[trigger] face_has_vertex(self.face(comp@[k]), v),
            decreases comp@.len() - i,
        {
            let g = comp[i];
            proof {
                assert(comp@.contains(g));
            }
            let ghost ob = out@;
            let mut list = self.face_vertex_list(g);
            let ghost lv = list@;
            out.append(&mut list);
            proof {
                assert(out@ == ob + lv);
                assert forall|v: VertexId| #[trigger] out@.contains(v) <==> exists|k: int| 0 <= k < i + 1 && #[trigger] face_has_vertex(self.face(comp@[k]), v) by {
                    if out@.contains(v) {
                        let j = choose|j: int| 0 <= j < out@.len() && out@[j] == v;
                        if j < ob.len() {
                            assert(ob.contains(v));
                        } else {
                            assert(out@[j] == lv[j - ob.len()]);
                            assert(lv.contains(v));
                        }
                    }
                    if exists|k: int| 0 <= k < i + 1 && #[trigger] face_has_vertex(self.face(comp@[k]), v) {
                        let k = choose|k: int| 0 <= k < i + 1 && #[trigger] face_has_vertex(self.face(comp@[k]), v);
                        if k < i {
                            assert(ob.contains(v));
                            let j = choose|j: int| 0 <= j < ob.len() && ob[j] == v;
                            assert(out@[j] == v);
                        } else {
                            assert(lv.contains(v));
                            let j = choose|j: int| 0 <= j < lv.len() && lv[j] == v;
                            assert(out@[ob.len() + j] == v);
                        }
                    }
                }
            }
            i = i + 1;
        }
        proof {
            assert forall|v: VertexId| #[trigger] out@.contains(v) <==> exists|g: FaceId|
                self.has_face(f) && self.has_face(g) && self.linked(self.face_set(), f, g) && #[trigger] face_has_vertex(self.face(g), v) by {
                if out@.contains(v) {
                    let k = choose|k: int| 0 <= k < comp@.len() && #[trigger] face_has_vertex(self.face(comp@[k]), v);
                    assert(comp@.contains(comp@[k]));
                }
                if exists|g: FaceId| self.has_face(f) && self.has_face(g) && self.linked(self.face_set(), f, g) && #[trigger] face_has_vertex(self.face(g), v) {
                    let g = choose|g: FaceId| self.has_face(f) && self.has_face(g) && self.linked(self.face_set(), f, g) && #[trigger] face_has_vertex(self.face(g), v);
                    assert(comp@.contains(g));
                    let k = choose|k: int| 0 <= k < comp@.len() && comp@[k] == g;
                    assert(face_has_vertex(self.face(comp@[k]), v));
                }
            }
        }
        out
    }

    /// Whether `v` is one of the vertices of the existing face `f`.
    pub fn face_contains_vertex(&self, f: FaceId, v: VertexId) -> (r: bool)
        requires
            self.has_face(f),
        ensures
            r == face_has_vertex(self.face(f), v),
    {
        let face = self.get_face(f).unwrap();
        if ring_contains(&face.outer, v) {
            return true;
        }
        let mut h: usize = 0;
        while h < face.holes.len()
            invariant
                face@ == self.face(f),
                h <= face.holes@.len(),
                !face.outer@.contains(v),
                forall|k: int| 0 <= k < h ==> !(#[trigger] face@.1[k]).contains(v),
            decreases face.holes@.len() - h,
        {
            if ring_contains(&face.holes[h], v) {
                proof {
                    assert(face@.1[h as int] == face.holes@[h as int]@);
                }
                return true;
            }
            proof {
                assert(face@.1[h as int] == face.holes@[h as int]@);
            }
            h = h + 1;
        }
        false
    }

    /// Every vertex of the existing face `f`: its outer loop, then each hole.
    pub fn face_vertex_list(&self, f: FaceId) -> (r: Vec<VertexId>)
        requires
            self.has_face(f),
        ensures
            forall|v: VertexId| r@.contains(v) <==> face_has_vertex(self.face(f), v),
    {
        let face = self.get_face(f).unwrap();
        let mut out = copy_ring(&face.outer);
        let mut h: usize = 0;
        while h < face.holes.len()
            invariant
                face@ == self.face(f),
                h <= face.holes@.len(),
                forall|v: VertexId| out@.contains(v) <==> (face@.0.contains(v) || exists|k: int|
                    0 <= k < h && #[trigger] face@.1[k].contains(v)),
            decreases face.holes@.len() - h,
        {
            let ring = &face.holes[h];
            let ghost before = out@;
            let mut i: usize = 0;
            while i < ring.len()
                invariant
                    i <= ring@.len(),
                    out@ == before + ring@.subrange(0, i as int),
                decreases ring@.len() - i,
            {
                out.push(ring[i]);
                proof {
                    assert(out@ =~= before + ring@.subrange(0, i as int + 1));
                }
                i = i + 1;
            }
            proof {
                assert(ring@.subrange(0, ring@.len() as int) =~= ring@);
                assert(face@.1[h as int] == ring@);
                assert forall|v: VertexId| out@.contains(v) <==> (face@.0.contains(v) || exists|k: int|
                    0 <= k < h + 1 && #[trigger] face@.1[k].contains(v)) by {
                    if out@.contains(v) {
                        let j = choose|j: int| 0 <= j < out@.len() && out@[j] == v;
                        if j < before.len() {
                            assert(before[j] == v);
                            assert(before.contains(v));
                        } else {
                            assert(ring@[j - before.len()] == v);
                            assert(face@.1[h as int].contains(v));
                        }
                    }
                    if face@.0.contains(v) {
                        assert(before.contains(v));
                        let j = choose|j: int| 0 <= j < before.len() && before[j] == v;
                        assert(out@[j] == v);
                    } else if exists|k: int| 0 <= k < h + 1 && #[trigger] face@.1[k].contains(v) {
                        let k = choose|k: int| 0 <= k < h + 1 && #[trigger] face@.1[k].contains(v);
                        if k < h {
                            assert(before.contains(v));
                            let j = choose|j: int| 0 <= j < before.len() && before[j] == v;
                            assert(out@[j] == v);
                        } else {
                            let j = choose|j: int| 0 <= j < ring@.len() && ring@[j] == v;
                            assert(out@[before.len() + j] == v);
                        }
                    }
                }
            }
            h = h + 1;
        }
        out
    }
}

pub open spec fn id_lists_view(v: Seq<Vec<FaceId>>) -> Seq<Seq<FaceId>> {
    v.map_values(|l: Vec<FaceId>| l@)
}

pub open spec fn in_lists(c: Seq<Seq<FaceId>>, f: FaceId) -> bool {
    exists|k: int, i: int| 0 <= k < c.len() && 0 <= i < c[k].len() && #[trigger] c[k][i] == f
}

pub open spec fn lists_unique(c: Seq<Seq<FaceId>>) -> bool {
    forall|k1: int, i1: int, k2: int, i2: int|
        0 <= k1 < c.len() && 0 <= i1 < c[k1].len() && 0 <= k2 < c.len() && 0 <= i2 < c[k2].len()
            && #[trigger] c[k1][i1] == #[trigger] c[k2][i2] ==> k1 == k2 && i1 == i2
}

/// `starts[k]` is the position in `ids` of the first face of component `k`:
/// no earlier entry of `ids` lies in that component, and the components come
/// in the order of those positions.
pub open spec fn first_members_at(ids: Seq<FaceId>, comps: Seq<Seq<FaceId>>, starts: Seq<int>) -> bool {
    &&& starts.len() == comps.len()
    &&& forall|k: int| 0 <= k < comps.len() ==> 0 <= #[trigger] starts[k] < ids.len() && ids[starts[k]] == comps[k][0]
    &&& forall|k: int, t: int| 0 <= k < comps.len() && 0 <= t < starts[k] ==> !(#[trigger] comps[k].contains(ids[t]))
    &&& forall|k1: int, k2: int| 0 <= k1 < k2 < comps.len() ==> #[trigger] starts[k1] < #[trigger] starts[k2]
}

/// Each component starts with its earliest member in `ids`, and components
/// are ordered by that member's position in `ids`.
pub open spec fn components_in_order(ids: Seq<FaceId>, comps: Seq<Seq<FaceId>>) -> bool {
    exists|starts: Seq<int>| first_members_at(ids, comps, starts)
}

impl<P> Mesh<P> {
    pub open spec fn lists_closed(&self, s: Set<FaceId>, c: Seq<Seq<FaceId>>) -> bool {
        forall|k: int, i: int, g: FaceId|
            0 <= k < c.len() && 0 <= i < c[k].len() && s.contains(g) && #[trigger] self.touches(c[k][i], g)
                ==> #[trigger] c[k].contains(g)
    }

    pub open spec fn lists_linked(&self, s: Set<FaceId>, c: Seq<Seq<FaceId>>) -> bool {
        forall|k: int, i: int|
            0 <= k < c.len() && 0 <= i < c[k].len() ==> self.linked(s, c[k][0], #[trigger] c[k][i])
    }

    proof fn lemma_lists_cover(ids: Seq<FaceId>, c: Seq<Seq<FaceId>>)
        requires
            forall|t: int| 0 <= t < ids.len() ==> in_lists(c, #[trigger] ids[t]),
        ensures
            forall|f: FaceId| ids.to_set().contains(f) ==> exists|k: int, i: int|
                0 <= k < c.len() && 0 <= i < c[k].len() && #[trigger] c[k][i] == f,
    {
        let s = ids.to_set();
        assert forall|f: FaceId| s.contains(f) implies exists|k: int, i: int|
            0 <= k < c.len() && 0 <= i < c[k].len() && #[trigger] c[k][i] == f by {
            let t = choose|t: int| 0 <= t < ids.len() && ids[t] == f;
            assert(in_lists(c, ids[t]));
        }
    }

    proof fn lemma_lists_separated(&self, s: Set<FaceId>, c: Seq<Seq<FaceId>>)
        requires
            lists_unique(c),
            self.lists_closed(s, c),
            forall|k: int, i: int| 0 <= k < c.len() && 0 <= i < c[k].len() ==> s.contains(#[trigger] c[k][i]),
        ensures
            forall|k1: int, i1: int, k2: int, i2: int|
                0 <= k1 < c.len() && 0 <= i1 < c[k1].len() && 0 <= k2 < c.len() && 0 <= i2 < c[k2].len()
                    && k1 != k2 ==> !self.touches(#[trigger] c[k1][i1], #[trigger] c[k2][i2]),
    {
        assert forall|k1: int, i1: int, k2: int, i2: int|
            0 <= k1 < c.len() && 0 <= i1 < c[k1].len() && 0 <= k2 < c.len() && 0 <= i2 < c[k2].len()
                && k1 != k2 implies !self.touches(#[trigger] c[k1][i1], #[trigger] c[k2][i2]) by {
            if self.touches(c[k1][i1], c[k2][i2]) {
                assert(s.contains(c[k2][i2]));
                assert(c[k1].contains(c[k2][i2]));
                let j = choose|j: int| 0 <= j < c[k1].len() && c[k1][j] == c[k2][i2];
                assert(c[k1][j] == c[k2][i2]);
            }
        }
    }

    /// Groups `face_ids` into connected components by shared vertices:
    /// two faces land in one component exactly when a chain of faces from
    /// `face_ids`, each sharing a vertex with the next, joins them.
    pub fn connected_components(&self, face_ids: &[FaceId]) -> (r: Vec<Vec<FaceId>>)
        requires
            forall|i: int| 0 <= i < face_ids@.len() ==> self.has_face(#[trigger] face_ids@[i]),
        ensures
            self.is_component_split(face_ids@, id_lists_view(r@)),
            components_in_order(face_ids@, id_lists_view(r@)),
    {
        let ghost s = face_ids@.to_set();
        let ghost mut starts: Seq<int> = Seq::empty();
        proof {
            assert forall|f: FaceId| s.contains(f) implies self.has_face(f) by {
                let t = choose|t: int| 0 <= t < face_ids@.len() && face_ids@[t] == f;
                assert(self.has_face(face_ids@[t]));
            }
        }
        let slots = self.faces.len();
        let mut visited: Vec<bool> = Vec::new();
        let mut z: usize = 0;
        while z < slots
            invariant
                z <= slots,
                visited@.len() == z,
                forall|q: int| 0 <= q < z ==> !visited@[q],
            decreases slots - z,
        {
            visited.push(false);
            z = z + 1;
        }
        let mut comps: Vec<Vec<FaceId>> = Vec::new();
        let mut idx: usize = 0;
        while idx < face_ids.len()
            invariant
                s == face_ids@.to_set(),
                forall|f: FaceId| s.contains(f) ==> self.has_face(f),
                slots == self.face_slots(),
                visited@.len() == slots,
                idx <= face_ids@.len(),
                forall|i: int| 0 <= i < face_ids@.len() ==> self.has_face(#[trigger] face_ids@[i]),
                forall|f: FaceId| s.contains(f) ==> (visited@[f.0 as int] <==> in_lists(id_lists_view(comps@), f)),
                forall|k: int| 0 <= k < comps@.len() ==> #[trigger] id_lists_view(comps@)[k].len() > 0,
                forall|k: int, i: int|
                    0 <= k < comps@.len() && 0 <= i < id_lists_view(comps@)[k].len() ==> s.contains(
                        #[trigger] id_lists_view(comps@)[k][i],
                    ),
                lists_unique(id_lists_view(comps@)),
                self.lists_closed(s, id_lists_view(comps@)),
                self.lists_linked(s, id_lists_view(comps@)),
                forall|t: int| 0 <= t < idx ==> in_lists(id_lists_view(comps@), #[trigger] face_ids@[t]),
                first_members_at(face_ids@, id_lists_view(comps@), starts),
                forall|k: int| 0 <= k < starts.len() ==> #[trigger] starts[k] < idx,
            decreases face_ids@.len() - idx,
        {
            let ghost cv = id_lists_view(comps@);
            let start = face_ids[idx];
            proof {
                assert(self.has_face(face_ids@[idx as int]));
                assert(s.contains(start));
            }
            if visited[start.0] {
                idx = idx + 1;
                continue;
            }
            visited.set(start.0, true);
            let mut stack: Vec<FaceId> = Vec::new();
            stack.push(start);
            let mut comp: Vec<FaceId> = Vec::new();
            proof {
                self.lemma_linked_refl(s, start);
                assert forall|f: FaceId| s.contains(f) implies (visited@[f.0 as int] <==> (in_lists(cv, f)
                    || comp@.contains(f) || stack@.contains(f))) by {
                    if f == start {
                        assert(stack@[0] == f);
                    }
                }
            }
            while stack.len() > 0
                invariant
                    s == face_ids@.to_set(),
                    forall|f: FaceId| s.contains(f) ==> self.has_face(f),
                    slots == self.face_slots(),
                    visited@.len() == slots,
                    idx < face_ids@.len(),
                    start == face_ids@[idx as int],
                    cv == id_lists_view(comps@),
                    first_members_at(face_ids@, cv, starts),
                    forall|k: int| 0 <= k < starts.len() ==> #[trigger] starts[k] < idx,
                    forall|i: int| 0 <= i < face_ids@.len() ==> self.has_face(#[trigger] face_ids@[i]),
                    forall|f: FaceId| s.contains(f) ==> (visited@[f.0 as int] <==> (in_lists(cv, f)
                        || comp@.contains(f) || stack@.contains(f))),
                    forall|k: int| 0 <= k < cv.len() ==> #[trigger] cv[k].len() > 0,
                    forall|k: int, i: int| 0 <= k < cv.len() && 0 <= i < cv[k].len() ==> s.contains(#[trigger] cv[k][i]),
                    lists_unique(cv),
                    self.lists_closed(s, cv),
                    self.lists_linked(s, cv),
                    forall|t: int| 0 <= t < idx ==> in_lists(cv, #[trigger] face_ids@[t]),
                    comp@.no_duplicates(),
                    stack@.no_duplicates(),
                    forall|f: FaceId| comp@.contains(f) ==> !stack@.contains(f),
                    forall|f: FaceId| #![trigger comp@.contains(f)] #![trigger stack@.contains(f)] (comp@.contains(f) || stack@.contains(f)) ==> s.contains(f) && !in_lists(cv, f)
                        && self.linked(s, start, f),
                    comp@.len() == 0 ==> stack@ == seq![start],
                    comp@.len() > 0 ==> comp@[0] == start,
                    forall|i: int, g: FaceId|
                        0 <= i < comp@.len() && s.contains(g) && #[trigger] self.touches(comp@[i], g) ==> comp@.contains(g)
                            || stack@.contains(g),
                decreases slots - comp@.len(),
            {
                let ghost stack_before = stack@;
                let fid = stack.pop().unwrap();
                let ghost comp_before = comp@;
                comp.push(fid);
                proof {
                    assert(stack_before == stack@.push(fid));
                    assert(stack_before.contains(fid)) by {
                        assert(stack_before[stack_before.len() - 1] == fid);
                    }
                    assert forall|f: FaceId| #[trigger] comp@.contains(f) <==> (comp_before.contains(f) || f == fid) by {
                        if comp@.contains(f) && f != fid {
                            let q = choose|q: int| 0 <= q < comp@.len() && comp@[q] == f;
                            assert(comp_before[q] == f);
                        }
                        if comp_before.contains(f) {
                            let q = choose|q: int| 0 <= q < comp_before.len() && comp_before[q] == f;
                            assert(comp@[q] == f);
                        }
                        if f == fid {
                            assert(comp@[comp@.len() - 1] == f);
                        }
                    }
                    assert forall|f: FaceId| #[trigger] stack_before.contains(f) <==> (stack@.contains(f) || f == fid) by {
                        if stack_before.contains(f) && f != fid {
                            let q = choose|q: int| 0 <= q < stack_before.len() && stack_before[q] == f;
                            assert(stack@[q] == f);
                        }
                        if stack@.contains(f) {
                            let q = choose|q: int| 0 <= q < stack@.len() && stack@[q] == f;
                            assert(stack_before[q] == f);
                        }
                    }
                    assert(!stack@.contains(fid)) by {
                        if stack@.contains(fid) {
                            let q = choose|q: int| 0 <= q < stack@.len() && stack@[q] == fid;
                            assert(stack_before[q] == fid);
                            assert(stack_before[stack_before.len() - 1] == fid);
                        }
                    }
                    assert(self.linked(s, start, fid));
                    assert(s.contains(fid));
                    assert(comp@.no_duplicates()) by {
                        assert forall|a: int, b: int| 0 <= a < b < comp@.len() implies comp@[a] != comp@[b] by {
                            if b == comp@.len() - 1 {
                                assert(comp_before.contains(comp@[a]));
                            }
                        }
                    }
                    if comp_before.len() == 0 {
                        assert(fid == start);
                    }
                }
                let verts = self.face_vertex_list(fid);
                let mut a: usize = 0;
                while a < verts.len()
                    invariant
                        s == face_ids@.to_set(),
                        forall|f: FaceId| s.contains(f) ==> self.has_face(f),
                        slots == self.face_slots(),
                        visited@.len() == slots,
                        idx < face_ids@.len(),
                        start == face_ids@[idx as int],
                        cv == id_lists_view(comps@),
                        first_members_at(face_ids@, cv, starts),
                        forall|k: int| 0 <= k < starts.len() ==> #[trigger] starts[k] < idx,
                        self.has_face(fid),
                        comp@.len() > 0,
                        comp@.last() == fid,
                        forall|v: VertexId| verts@.contains(v) <==> face_has_vertex(self.face(fid), v),
                        a <= verts@.len(),
                        forall|i: int| 0 <= i < face_ids@.len() ==> self.has_face(#[trigger] face_ids@[i]),
                        forall|f: FaceId| s.contains(f) ==> (visited@[f.0 as int] <==> (in_lists(cv, f)
                            || comp@.contains(f) || stack@.contains(f))),
                        comp@.no_duplicates(),
                        stack@.no_duplicates(),
                        forall|f: FaceId| comp@.contains(f) ==> !stack@.contains(f),
                        forall|f: FaceId| #![trigger comp@.contains(f)] #![trigger stack@.contains(f)] (comp@.contains(f) || stack@.contains(f)) ==> s.contains(f) && !in_lists(cv, f)
                            && self.linked(s, start, f),
                        comp@.len() > 0 ==> comp@[0] == start,
                        forall|i: int, g: FaceId|
                            0 <= i < comp@.len() - 1 && s.contains(g) && #[trigger] self.touches(comp@[i], g) ==> comp@.contains(g)
                                || stack@.contains(g),
                        forall|a2: int, g: FaceId|
                            0 <= a2 < a && s.contains(g) && #[trigger] face_has_vertex(self.face(g), verts@[a2]) ==> visited@[g.0 as int],
                    decreases verts@.len() - a,
                {
                    let v = verts[a];
                    let mut t: usize = 0;
                    while t < face_ids.len()
                        invariant
                            s == face_ids@.to_set(),
                            forall|f: FaceId| s.contains(f) ==> self.has_face(f),
                            slots == self.face_slots(),
                            visited@.len() == slots,
                            idx < face_ids@.len(),
                            start == face_ids@[idx as int],
                            cv == id_lists_view(comps@),
                            first_members_at(face_ids@, cv, starts),
                            forall|k: int| 0 <= k < starts.len() ==> #[trigger] starts[k] < idx,
                            self.has_face(fid),
                            comp@.len() > 0,
                            comp@.last() == fid,
                            forall|v: VertexId| verts@.contains(v) <==> face_has_vertex(self.face(fid), v),
                            a < verts@.len(),
                            v == verts@[a as int],
                            t <= face_ids@.len(),
                            forall|i: int| 0 <= i < face_ids@.len() ==> self.has_face(#[trigger] face_ids@[i]),
                            forall|f: FaceId| s.contains(f) ==> (visited@[f.0 as int] <==> (in_lists(cv, f)
                                || comp@.contains(f) || stack@.contains(f))),
                            comp@.no_duplicates(),
                            stack@.no_duplicates(),
                            forall|f: FaceId| comp@.contains(f) ==> !stack@.contains(f),
                            forall|f: FaceId| #![trigger comp@.contains(f)] #![trigger stack@.contains(f)] (comp@.contains(f) || stack@.contains(f)) ==> s.contains(f) && !in_lists(cv, f)
                                && self.linked(s, start, f),
                            comp@.len() > 0 ==> comp@[0] == start,
                            forall|i: int, g: FaceId|
                                0 <= i < comp@.len() - 1 && s.contains(g) && #[trigger] self.touches(comp@[i], g) ==> comp@.contains(g)
                                    || stack@.contains(g),
                            forall|a2: int, g: FaceId|
                                0 <= a2 < a && s.contains(g) && #[trigger] face_has_vertex(self.face(g), verts@[a2]) ==> visited@[g.0 as int],
                            forall|t2: int| 0 <= t2 < t && face_has_vertex(self.face(face_ids@[t2]), v) ==> visited@[(#[trigger] face_ids@[t2]).0 as int],
                        decreases face_ids@.len() - t,
                    {
                        let g = face_ids[t];
                        proof {
                            assert(self.has_face(face_ids@[t as int]));
                            assert(s.contains(g));
                        }
                        if !visited[g.0] && self.face_contains_vertex(g, v) {
                            proof {
                                assert(!in_lists(cv, g));
                                assert(!comp@.contains(g));
                                assert(!stack@.contains(g));
                                assert(verts@.contains(v));
                                assert(self.touches(fid, g));
                                assert(comp@.contains(fid)) by {
                                    assert(comp@[comp@.len() - 1] == fid);
                                }
                                self.lemma_linked_extend(s, start, fid, g);
                            }
                            let ghost stack_before = stack@;
                            visited.set(g.0, true);
                            stack.push(g);
                            proof {
                                assert(stack@.no_duplicates()) by {
                                    assert forall|x: int, y: int| 0 <= x < y < stack@.len() implies stack@[x] != stack@[y] by {
                                        if y == stack@.len() - 1 {
                                            assert(stack_before.contains(stack@[x]));
                                        }
                                    }
                                }
                                assert forall|f: FaceId| s.contains(f) implies (visited@[f.0 as int] <==> (in_lists(cv, f)
                                    || comp@.contains(f) || stack@.contains(f))) by {
                                    if f == g {
                                        assert(stack@[stack@.len() - 1] == g);
                                    } else {
                                        if stack@.contains(f) {
                                            let q = choose|q: int| 0 <= q < stack@.len() && stack@[q] == f;
                                            assert(stack_before[q] == f);
                                        }
                                        if stack_before.contains(f) {
                                            let q = choose|q: int| 0 <= q < stack_before.len() && stack_before[q] == f;
                                            assert(stack@[q] == f);
                                        }
                                        if f.0 == g.0 {
                                            assert(f == g);
                                        }
                                    }
                                }
                                assert forall|f: FaceId| comp@.contains(f) implies !stack@.contains(f) by {
                                    if stack@.contains(f) {
                                        let q = choose|q: int| 0 <= q < stack@.len() && stack@[q] == f;
                                        if q < stack_before.len() {
                                            assert(stack_before[q] == f);
                                        }
                                    }
                                }
                                assert forall|f: FaceId| (comp@.contains(f) || stack@.contains(f)) implies s.contains(f)
                                    && !in_lists(cv, f) && self.linked(s, start, f) by {
                                    if stack@.contains(f) && f != g {
                                        let q = choose|q: int| 0 <= q < stack@.len() && stack@[q] == f;
                                        assert(stack_before[q] == f);
                                    }
                                }
                                assert forall|i: int, h: FaceId|
                                    0 <= i < comp@.len() - 1 && s.contains(h) && #[trigger] self.touches(comp@[i], h) implies comp@.contains(h)
                                        || stack@.contains(h) by {
                                    if stack_before.contains(h) {
                                        let q = choose|q: int| 0 <= q < stack_before.len() && stack_before[q] == h;
                                        assert(stack@[q] == h);
                                    }
                                }
                                assert forall|a2: int, h: FaceId|
                                    0 <= a2 < a && s.contains(h) && #[trigger] face_has_vertex(self.face(h), verts@[a2]) implies visited@[h.0 as int] by {
                                    if h.0 != g.0 {
                                    }
                                }
                            }
                        }
                        t = t + 1;
                    }
                    proof {
                        assert forall|a2: int, h: FaceId|
                            0 <= a2 < a + 1 && s.contains(h) && #[trigger] face_has_vertex(self.face(h), verts@[a2]) implies visited@[h.0 as int] by {
                            if a2 == a {
                                let t2 = choose|t2: int| 0 <= t2 < face_ids@.len() && face_ids@[t2] == h;
                                assert(face_ids@[t2] == h);
                            }
                        }
                    }
                    a = a + 1;
                }
                proof {
                    assert forall|i: int, g: FaceId|
                        0 <= i < comp@.len() && s.contains(g) && #[trigger] self.touches(comp@[i], g) implies comp@.contains(g)
                            || stack@.contains(g) by {
                        if i == comp@.len() - 1 {
                            assert(comp@[i] == fid);
                            let v = choose|v: VertexId| face_has_vertex(self.face(fid), v) && face_has_vertex(self.face(g), v);
                            assert(verts@.contains(v));
                            let a2 = choose|a2: int| 0 <= a2 < verts@.len() && verts@[a2] == v;
                            assert(face_has_vertex(self.face(g), verts@[a2]));
                            assert(visited@[g.0 as int]);
                            if in_lists(cv, g) {
                                let (k, j) = choose|k: int, j: int| 0 <= k < cv.len() && 0 <= j < cv[k].len() && #[trigger] cv[k][j] == g;
                                self.lemma_touches_symmetric(fid, g);
                                assert(self.touches(cv[k][j], fid));
                                assert(s.contains(fid));
                                assert(cv[k].contains(fid));
                                let j2 = choose|j2: int| 0 <= j2 < cv[k].len() && cv[k][j2] == fid;
                                assert(in_lists(cv, fid));
                            }
                        }
                    }
                    assert(comp@.len() <= slots) by {
                        let ids = comp@.map_values(|f: FaceId| f.0 as int);
                        assert forall|x: int, y: int| 0 <= x < y < comp@.len() implies comp@[x].0 != comp@[y].0 by {
                            assert(comp@[x] != comp@[y]);
                        }
                        assert forall|x: int| 0 <= x < comp@.len() implies (#[trigger] comp@[x]).0 < slots by {
                            assert(comp@.contains(comp@[x]));
                            assert(s.contains(comp@[x]));
                            assert(self.has_face(comp@[x]));
                        }
                        lemma_distinct_indices_bounded(comp@, slots as int);
                    }
                }
            }
            let ghost new_comp = comp@;
            comps.push(comp);
            proof {
                let nv = id_lists_view(comps@);
                let old_starts = starts;
                starts = starts.push(idx as int);
                assert(nv =~= cv.push(new_comp));
                assert(first_members_at(face_ids@, nv, starts)) by {
                    assert forall|k: int, t: int| 0 <= k < nv.len() && 0 <= t < starts[k]
                        implies !(#[trigger] nv[k].contains(face_ids@[t])) by {
                        if k < cv.len() {
                            assert(nv[k] == cv[k]);
                        } else {
                            assert(in_lists(cv, face_ids@[t]));
                            assert(nv[k] == new_comp);
                        }
                    }
                    assert forall|k: int| 0 <= k < nv.len() implies 0 <= #[trigger] starts[k] < face_ids@.len()
                        && face_ids@[starts[k]] == nv[k][0] by {
                        if k < cv.len() {
                            assert(nv[k] == cv[k]);
                            assert(starts[k] == old_starts[k]);
                        }
                    }
                }
                assert(nv =~= cv.push(new_comp));
                assert(new_comp.len() > 0);
                assert forall|f: FaceId| in_lists(nv, f) <==> (in_lists(cv, f) || new_comp.contains(f)) by {
                    if in_lists(nv, f) {
                        let (k, i) = choose|k: int, i: int| 0 <= k < nv.len() && 0 <= i < nv[k].len() && #[trigger] nv[k][i] == f;
                        if k < cv.len() {
                            assert(cv[k][i] == f);
                        } else {
                            assert(new_comp[i] == f);
                        }
                    }
                    if in_lists(cv, f) {
                        let (k, i) = choose|k: int, i: int| 0 <= k < cv.len() && 0 <= i < cv[k].len() && #[trigger] cv[k][i] == f;
                        assert(nv[k][i] == f);
                    }
                    if new_comp.contains(f) {
                        let i = choose|i: int| 0 <= i < new_comp.len() && new_comp[i] == f;
                        assert(nv[cv.len() as int][i] == f);
                    }
                }
                assert(lists_unique(nv)) by {
                    assert forall|k1: int, i1: int, k2: int, i2: int|
                        0 <= k1 < nv.len() && 0 <= i1 < nv[k1].len() && 0 <= k2 < nv.len() && 0 <= i2 < nv[k2].len()
                            && #[trigger] nv[k1][i1] == #[trigger] nv[k2][i2] implies k1 == k2 && i1 == i2 by {
                        if k1 < cv.len() && k2 < cv.len() {
                            assert(cv[k1][i1] == cv[k2][i2]);
                        } else if k1 < cv.len() {
                            assert(cv[k1][i1] == new_comp[i2]);
                            assert(new_comp.contains(new_comp[i2]));
                            assert(in_lists(cv, cv[k1][i1]));
                        } else if k2 < cv.len() {
                            assert(cv[k2][i2] == new_comp[i1]);
                            assert(new_comp.contains(new_comp[i1]));
                            assert(in_lists(cv, cv[k2][i2]));
                        } else {
                            assert(new_comp[i1] == new_comp[i2]);
                        }
                    }
                }
                assert(self.lists_closed(s, nv)) by {
                    assert forall|k: int, i: int, g: FaceId|
                        0 <= k < nv.len() && 0 <= i < nv[k].len() && s.contains(g) && #[trigger] self.touches(nv[k][i], g)
                            implies #[trigger] nv[k].contains(g) by {
                        if k < cv.len() {
                            assert(nv[k] == cv[k]);
                            assert(self.touches(cv[k][i], g));
                        } else {
                            assert(nv[k] == new_comp);
                            assert(self.touches(new_comp[i], g));
                        }
                    }
                }
                assert(self.lists_linked(s, nv)) by {
                    assert forall|k: int, i: int| 0 <= k < nv.len() && 0 <= i < nv[k].len() implies self.linked(s, nv[k][0], #[trigger] nv[k][i]) by {
                        if k < cv.len() {
                            assert(nv[k] == cv[k]);
                        } else {
                            assert(nv[k] == new_comp);
                            assert(new_comp[0] == start);
                            assert(new_comp.contains(new_comp[i]));
                            assert(self.linked(s, start, new_comp[i]));
                        }
                    }
                }
                assert forall|f: FaceId| s.contains(f) implies (visited@[f.0 as int] <==> in_lists(nv, f)) by {}
                assert forall|t: int| 0 <= t < idx + 1 implies in_lists(nv, #[trigger] face_ids@[t]) by {
                    if t == idx {
                        assert(new_comp[0] == start);
                        assert(new_comp.contains(start));
                    } else {
                        assert(in_lists(cv, face_ids@[t]));
                    }
                }
                assert forall|k: int, i: int| 0 <= k < nv.len() && 0 <= i < nv[k].len() implies s.contains(#[trigger] nv[k][i]) by {
                    if k == cv.len() {
                        assert(new_comp.contains(new_comp[i]));
                    } else {
                        assert(nv[k] == cv[k]);
                    }
                }
                assert forall|k: int| 0 <= k < nv.len() implies #[trigger] nv[k].len() > 0 by {
                    if k < cv.len() {
                        assert(nv[k] == cv[k]);
                    }
                }
            }
            idx = idx + 1;
        }
        proof {
            let cv = id_lists_view(comps@);
            assert forall|k: int, i: int| 0 <= k < cv.len() && 0 <= i < cv[k].len() implies self.has_face(#[trigger] cv[k][i]) by {
                assert(s.contains(cv[k][i]));
                let t = choose|t: int| 0 <= t < face_ids@.len() && face_ids@[t] == cv[k][i];
                assert(self.has_face(face_ids@[t]));
            }
            Self::lemma_lists_cover(face_ids@, cv);
            self.lemma_lists_separated(s, cv);
            assert(first_members_at(face_ids@, cv, starts));
        }
        comps
    }
}

/// A list of distinct faces whose ids all lie below `bound` has at most
/// `bound` entries.
pub proof fn lemma_distinct_indices_bounded(list: Seq<FaceId>, bound: int)
    requires
        bound >= 0,
        forall|x: int, y: int| 0 <= x < y < list.len() ==> list[x].0 != list[y].0,
        forall|x: int| 0 <= x < list.len() ==> (#[trigger] list[x]).0 < bound,
    ensures
        list.len() <= bound,
{
    if list.len() > 0 {
        let seq_ids = list.map_values(|f: FaceId| f.0 as int);
        assert(seq_ids.no_duplicates()) by {
            assert forall|x: int, y: int| 0 <= x < seq_ids.len() && 0 <= y < seq_ids.len() && x != y implies seq_ids[x] != seq_ids[y] by {
                if x < y {
                    assert(list[x].0 != list[y].0);
                } else {
                    assert(list[y].0 != list[x].0);
                }
            }
        }
        seq_ids.unique_seq_to_set();
        assert(bound >= 0) by {
            assert(list[0].0 < bound);
        }
        let range = vstd::set_lib::set_int_range(0, bound);
        vstd::set_lib::lemma_int_range(0, bound);
        assert forall|i: int| seq_ids.to_set().contains(i) implies range.contains(i) by {
            let x = choose|x: int| 0 <= x < seq_ids.len() && seq_ids[x] == i;
            assert(list[x].0 < bound);
        }
        assert(seq_ids.to_set().subset_of(range));
        vstd::set_lib::lemma_len_subset(seq_ids.to_set(), range);
        assert(seq_ids.len() == list.len());
        assert(seq_ids.to_set().len() <= range.len());
        assert(range.len() == bound);
    }
}


} // verus!
