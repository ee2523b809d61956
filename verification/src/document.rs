use vstd::prelude::*;

use crate::mesh::{face_has_vertex, rings_view, FaceId, Mesh, VertexId};
use crate::mesh::{components_in_order, id_lists_view};
use crate::pushpull::{
    all_edges, check_manifold, extruded, extrusion_fits, extrusion_room, push_pull_by, triangulation_view, ManifoldIssues,
};
use crate::history::{record_step, undo_step, HistoryState};
use crate::selection::{list_add_all, list_contains, list_from, list_remove, Selection};
use crate::face_detect::DetectedFace;
use crate::resplit::{faces_redetected, loops_exist, points_in_range, detected_view, resplit_loops, welded_graph};

verus! {

/// Identifies a group of a `Document`; never reused.
#[derive(Clone, Copy, PartialEq, Eq, Structural, Debug, Hash)]
pub struct GroupId(pub usize);

/// A simple named collection of faces, moved/renamed together. Each group
/// just owns its faces directly.
#[derive(Debug)]
pub struct Group {
    pub name: String,
    pub face_ids: Vec<FaceId>,
}

impl View for Group {
    type V = (Seq<char>, Seq<FaceId>);

    open spec fn view(&self) -> (Seq<char>, Seq<FaceId>) {
        (self.name@, self.face_ids@)
    }
}

impl Clone for Group {
    fn clone(&self) -> (r: Group)
        ensures
            r@ == self@,
    {
        Group { name: self.name.clone(), face_ids: vstd::slice::slice_to_vec(self.face_ids.as_slice()) }
    }
}

/// A construction guide left behind by the Measure tool: the measured
/// segment itself. Guides never enter the mesh, and no geometry transform
/// moves them.
#[derive(Copy, Debug)]
pub struct Guide<P> {
    pub a: P,
    pub b: P,
}

impl<P: Copy> Clone for Guide<P> {
    fn clone(&self) -> (r: Guide<P>)
        ensures
            r == *self,
    {
        *self
    }
}

/// Which world plane a mirror reflects across: `X` is the plane
/// x = pivot.x (flips left/right), and so on.
#[derive(Clone, Copy, PartialEq, Eq, Structural, Debug)]
pub enum MirrorAxis {
    X,
    Y,
    Z,
}

/// `s` with every occurrence of `f` dropped, order kept.
pub open spec fn without_face(s: Seq<FaceId>, f: FaceId) -> Seq<FaceId> {
    s.filter(other_than(f))
}

/// Holds of every face but `f`.
pub open spec fn other_than(f: FaceId) -> spec_fn(FaceId) -> bool {
    |x: FaceId| x != f
}

proof fn lemma_filter_all(s: Seq<FaceId>, p: spec_fn(FaceId) -> bool)
    requires
        forall|x: FaceId| #[trigger] p(x),
    ensures
        s.filter(p) == s,
    decreases s.len(),
{
    reveal(Seq::filter);
    if s.len() > 0 {
        lemma_filter_all(s.drop_last(), p);
        assert(s.drop_last().push(s.last()) =~= s);
    }
}

proof fn lemma_filter_twice(s: Seq<FaceId>, p: spec_fn(FaceId) -> bool, q: spec_fn(FaceId) -> bool, r: spec_fn(FaceId) -> bool)
    requires
        forall|x: FaceId| #[trigger] r(x) == (p(x) && q(x)),
    ensures
        s.filter(p).filter(q) == s.filter(r),
    decreases s.len(),
{
    reveal(Seq::filter);
    if s.len() > 0 {
        lemma_filter_twice(s.drop_last(), p, q, r);
        let sp = s.filter(p);
        if p(s.last()) {
            assert(sp.drop_last() =~= s.drop_last().filter(p));
            assert(sp.last() == s.last());
        } else {
            assert(sp == s.drop_last().filter(p));
        }
    }
}

proof fn lemma_filter_same(s: Seq<FaceId>, p: spec_fn(FaceId) -> bool, q: spec_fn(FaceId) -> bool)
    requires
        forall|x: FaceId| #[trigger] p(x) == q(x),
    ensures
        s.filter(p) == s.filter(q),
{
    assert(p =~= q);
}

/// The first `i + 1` entries of `s` hold `x` just when the first `i` do or
/// entry `i` is `x`.
proof fn lemma_take_contains(s: Seq<FaceId>, i: int, x: FaceId)
    requires
        0 <= i < s.len(),
    ensures
        s.take(i + 1).contains(x) == (s.take(i).contains(x) || s[i] == x),
{
    if s.take(i + 1).contains(x) {
        let k = choose|k: int| 0 <= k < s.take(i + 1).len() && #[trigger] s.take(i + 1)[k] == x;
        if k < i {
            assert(s.take(i)[k] == x);
        }
    }
    if s.take(i).contains(x) {
        let k = choose|k: int| 0 <= k < s.take(i).len() && #[trigger] s.take(i)[k] == x;
        assert(s.take(i + 1)[k] == x);
    }
    if s[i] == x {
        assert(s.take(i + 1)[i] == x);
    }
}

/// The concatenation of `parts`, in order.
pub open spec fn concat(parts: Seq<Seq<FaceId>>) -> Seq<FaceId>
    decreases parts.len(),
{
    if parts.len() == 0 {
        Seq::empty()
    } else {
        concat(parts.drop_last()) + parts.last()
    }
}

/// `list` without any occurrence of `f`, order kept.
pub fn retain_other_faces(list: &Vec<FaceId>, f: FaceId) -> (r: Vec<FaceId>)
    ensures
        r@ == without_face(list@, f),
{
    let mut out: Vec<FaceId> = Vec::new();
    let mut i: usize = 0;
    while i < list.len()
        invariant
            i <= list@.len(),
            out@ == without_face(list@.take(i as int), f),
        decreases list@.len() - i,
    {
        proof {
            reveal(Seq::filter);
            assert(list@.take(i as int + 1).drop_last() =~= list@.take(i as int));
        }
        if list[i] != f {
            out.push(list[i]);
        }
        i = i + 1;
    }
    proof {
        assert(list@.take(list@.len() as int) =~= list@);
    }
    out
}

/// Points that land on the inside of the directed boundary edge `a -> b`
/// of a face, in order from `a` to `b`.
#[derive(Debug)]
pub struct EdgeSplit {
    pub a: VertexId,
    pub b: VertexId,
    pub inserted: Vec<VertexId>,
}

pub open spec fn splits_view(v: Seq<EdgeSplit>) -> Seq<(VertexId, VertexId, Seq<VertexId>)> {
    v.map_values(|e: EdgeSplit| (e.a, e.b, e.inserted@))
}

/// The position of the first split recorded for the edge `a -> b`.
pub open spec fn first_split(splits: Seq<(VertexId, VertexId, Seq<VertexId>)>, a: VertexId, b: VertexId) -> Option<int>
    decreases splits.len(),
{
    if splits.len() == 0 {
        None
    } else {
        match first_split(splits.drop_last(), a, b) {
            Some(i) => Some(i),
            None => if splits.last().0 == a && splits.last().1 == b {
                Some(splits.len() - 1)
            } else {
                None
            },
        }
    }
}

/// What goes after entry `i` of `ring` when the splits of the faces
/// meeting it are carried over: a neighbour sharing the edge runs it the
/// other way, so the split of `ring[i+1] -> ring[i]`, its points reversed.
pub open spec fn inserted_after(ring: Seq<VertexId>, splits: Seq<(VertexId, VertexId, Seq<VertexId>)>, i: int) -> Seq<VertexId> {
    let x = ring[i];
    let y = ring[(i + 1) % (ring.len() as int)];
    match first_split(splits, y, x) {
        Some(s) => splits[s].2.reverse(),
        None => Seq::empty(),
    }
}

/// The first `i` entries of `ring`, each followed by what the splits
/// insert after it.
pub open spec fn split_ring_upto(ring: Seq<VertexId>, splits: Seq<(VertexId, VertexId, Seq<VertexId>)>, i: int) -> Seq<VertexId>
    decreases i,
{
    if i <= 0 {
        Seq::empty()
    } else {
        split_ring_upto(ring, splits, i - 1).push(ring[i - 1]) + inserted_after(ring, splits, i - 1)
    }
}

/// `ring` with the splits carried over; a ring of fewer than two entries
/// has no edge and stays as it is.
pub open spec fn split_ring(ring: Seq<VertexId>, splits: Seq<(VertexId, VertexId, Seq<VertexId>)>) -> Seq<VertexId> {
    if ring.len() < 2 {
        ring
    } else {
        split_ring_upto(ring, splits, ring.len() as int)
    }
}

fn find_split(splits: &Vec<EdgeSplit>, a: VertexId, b: VertexId) -> (r: Option<usize>)
    ensures
        match r {
            Some(i) => i < splits@.len() && first_split(splits_view(splits@), a, b) == Some(i as int),
            None => first_split(splits_view(splits@), a, b) is None,
        },
{
    let ghost sv = splits_view(splits@);
    let mut i: usize = 0;
    while i < splits.len()
        invariant
            sv == splits_view(splits@),
            i <= splits@.len(),
            first_split(sv.take(i as int), a, b) is None,
        decreases splits@.len() - i,
    {
        proof {
            assert(sv.take(i as int + 1).drop_last() =~= sv.take(i as int));
        }
        if splits[i].a == a && splits[i].b == b {
            proof {
                lemma_first_split_prefix(sv, i as int + 1, a, b);
            }
            return Some(i);
        }
        i = i + 1;
    }
    proof {
        assert(sv.take(splits@.len() as int) =~= sv);
    }
    None
}

proof fn lemma_first_split_prefix(sv: Seq<(VertexId, VertexId, Seq<VertexId>)>, i: int, a: VertexId, b: VertexId)
    requires
        0 <= i <= sv.len(),
        first_split(sv.take(i), a, b) is Some,
    ensures
        first_split(sv, a, b) == first_split(sv.take(i), a, b),
    decreases sv.len() - i,
{
    if i < sv.len() {
        assert(sv.take(i + 1).drop_last() =~= sv.take(i));
        lemma_first_split_prefix(sv, i + 1, a, b);
    } else {
        assert(sv.take(i) =~= sv);
    }
}

/// `ring` with the splits carried over (see `split_ring`).
fn split_ring_exec(ring: &Vec<VertexId>, splits: &Vec<EdgeSplit>) -> (r: Vec<VertexId>)
    ensures
        r@ == split_ring(ring@, splits_view(splits@)),
{
    let n = ring.len();
    if n < 2 {
        return crate::mesh::copy_ring(ring);
    }
    let ghost sv = splits_view(splits@);
    let mut out: Vec<VertexId> = Vec::new();
    let mut i: usize = 0;
    while i < n
        invariant
            n == ring@.len(),
            n >= 2,
            sv == splits_view(splits@),
            i <= n,
            out@ == split_ring_upto(ring@, sv, i as int),
        decreases n - i,
    {
        let x = ring[i];
        let y = ring[(i + 1) % n];
        out.push(x);
        match find_split(splits, y, x) {
            Some(si) => {
                let pts = &splits[si].inserted;
                proof {
                    assert(sv[si as int].2 == pts@);
                }
                let ghost ob = out@;
                let mut k: usize = pts.len();
                while k > 0
                    invariant
                        k <= pts@.len(),
                        out@ == ob + pts@.reverse().take((pts@.len() - k) as int),
                    decreases k,
                {
                    k = k - 1;
                    out.push(pts[k]);
                    proof {
                        assert(out@ =~= ob + pts@.reverse().take((pts@.len() - k) as int));
                    }
                }
                proof {
                    assert(pts@.reverse().take(pts@.len() as int) =~= pts@.reverse());
                }
            },
            None => {},
        }
        proof {
            assert(out@ =~= split_ring_upto(ring@, sv, i as int + 1));
        }
        i = i + 1;
    }
    out
}

/// The loops `f` with the splits carried over onto each of its rings.
pub open spec fn split_loops(
    f: (Seq<VertexId>, Seq<Seq<VertexId>>),
    splits: Seq<(VertexId, VertexId, Seq<VertexId>)>,
) -> (Seq<VertexId>, Seq<Seq<VertexId>>) {
    (split_ring(f.0, splits), f.1.map_values(|h: Seq<VertexId>| split_ring(h, splits)))
}

/// Every vertex the splits insert.
pub open spec fn split_vertex(splits: Seq<(VertexId, VertexId, Seq<VertexId>)>, v: VertexId) -> bool {
    exists|s: int, k: int| 0 <= s < splits.len() && 0 <= k < splits[s].2.len() && #[trigger] splits[s].2[k] == v
}

proof fn lemma_split_ring_upto_vertices(ring: Seq<VertexId>, splits: Seq<(VertexId, VertexId, Seq<VertexId>)>, i: int, v: VertexId)
    requires
        0 <= i <= ring.len(),
        split_ring_upto(ring, splits, i).contains(v),
    ensures
        ring.contains(v) || split_vertex(splits, v),
    decreases i,
{
    if i > 0 {
        let prev = split_ring_upto(ring, splits, i - 1);
        let ins = inserted_after(ring, splits, i - 1);
        let whole = prev.push(ring[i - 1]) + ins;
        let j = choose|j: int| 0 <= j < whole.len() && whole[j] == v;
        if j < prev.len() {
            assert(prev[j] == v);
            lemma_split_ring_upto_vertices(ring, splits, i - 1, v);
        } else if j == prev.len() {
            assert(ring[i - 1] == v);
        } else {
            let y = ring[i % (ring.len() as int)];
            let x = ring[i - 1];
            match first_split(splits, y, x) {
                Some(s) => {
                    lemma_first_split_in_range(splits, y, x);
                    let k = j - prev.len() - 1;
                    assert(ins[k] == v);
                    assert(splits[s].2.reverse()[k] == v);
                    assert(splits[s].2[splits[s].2.len() - 1 - k] == v);
                },
                None => {},
            }
        }
    }
}

proof fn lemma_first_split_in_range(splits: Seq<(VertexId, VertexId, Seq<VertexId>)>, a: VertexId, b: VertexId)
    ensures
        first_split(splits, a, b) matches Some(i) ==> 0 <= i < splits.len(),
    decreases splits.len(),
{
    if splits.len() > 0 {
        lemma_first_split_in_range(splits.drop_last(), a, b);
    }
}

/// The entries of every list of `s`, list after list.
pub open spec fn flat<A>(s: Seq<Seq<A>>) -> Seq<A>
    decreases s.len(),
{
    if s.len() == 0 {
        Seq::empty()
    } else {
        flat(s.drop_last()) + s.last()
    }
}

/// The result of the watertightness check that STL export gates on: how
/// many printable parts (connected solids) there are, how many of them are
/// broken, and the offending edges and faces.
#[derive(Debug)]
pub struct ModelReport {
    pub part_count: usize,
    pub broken_part_count: usize,
    pub open_edges: Vec<(VertexId, VertexId)>,
    pub duplicate_edges: Vec<(VertexId, VertexId)>,
    pub problem_face_ids: Vec<FaceId>,
}

impl ModelReport {
    /// No open and no duplicated edge anywhere.
    pub fn is_watertight(&self) -> (r: bool)
        ensures
            r == (self.open_edges@.len() == 0 && self.duplicate_edges@.len() == 0),
    {
        self.open_edges.len() == 0 && self.duplicate_edges.len() == 0
    }

    /// The report gathers, part by part, the findings `issues` for the
    /// parts `comps`.
    pub open spec fn gathers(&self, comps: Seq<Seq<FaceId>>, issues: Seq<ManifoldIssues>) -> bool {
        &&& issues.len() == comps.len()
        &&& self.part_count == comps.len()
        &&& self.broken_part_count == broken_count(issues)
        &&& self.open_edges@ == flat(issues.map_values(|i: ManifoldIssues| i.open_edges@))
        &&& self.duplicate_edges@ == flat(issues.map_values(|i: ManifoldIssues| i.duplicate_edges@))
        &&& self.problem_face_ids@ == flat(issues.map_values(|i: ManifoldIssues| i.problem_faces@))
    }
}

/// How many of `issues` report an open or duplicated edge.
pub open spec fn broken_count(issues: Seq<ManifoldIssues>) -> nat
    decreases issues.len(),
{
    if issues.len() == 0 {
        0
    } else {
        broken_count(issues.drop_last()) + if issues.last().open_edges@.len() == 0 && issues.last().duplicate_edges@.len() == 0 {
            0nat
        } else {
            1nat
        }
    }
}

proof fn lemma_broken_count_faulty(issues: Seq<ManifoldIssues>)
    ensures
        broken_count(issues) == issues.filter(|i: ManifoldIssues| i.open_edges@.len() > 0 || i.duplicate_edges@.len() > 0).len(),
        broken_count(issues) == 0 <==> forall|k: int| 0 <= k < issues.len() ==> (#[trigger] issues[k]).open_edges@.len() == 0 && issues[k].duplicate_edges@.len() == 0,
        broken_count(issues) == 0 <==> (flat(issues.map_values(|i: ManifoldIssues| i.open_edges@)).len() == 0 && flat(
            issues.map_values(|i: ManifoldIssues| i.duplicate_edges@),
        ).len() == 0),
    decreases issues.len(),
{
    reveal(Seq::filter);
    if issues.len() > 0 {
        let rest = issues.drop_last();
        lemma_broken_count_faulty(rest);
        let opens = issues.map_values(|i: ManifoldIssues| i.open_edges@);
        let dups = issues.map_values(|i: ManifoldIssues| i.duplicate_edges@);
        assert(opens.drop_last() =~= rest.map_values(|i: ManifoldIssues| i.open_edges@));
        assert(dups.drop_last() =~= rest.map_values(|i: ManifoldIssues| i.duplicate_edges@));
        assert(opens.last() == issues.last().open_edges@);
        assert(dups.last() == issues.last().duplicate_edges@);
        if broken_count(issues) == 0 {
            assert forall|k: int| 0 <= k < issues.len() implies (#[trigger] issues[k]).open_edges@.len() == 0 && issues[k].duplicate_edges@.len() == 0 by {
                if k < rest.len() {
                    assert(rest[k] == issues[k]);
                }
            }
        }
        if forall|k: int| 0 <= k < issues.len() ==> (#[trigger] issues[k]).open_edges@.len() == 0 && issues[k].duplicate_edges@.len() == 0 {
            assert forall|k: int| 0 <= k < rest.len() implies (#[trigger] rest[k]).open_edges@.len() == 0 && rest[k].duplicate_edges@.len() == 0 by {
                assert(rest[k] == issues[k]);
            }
            assert(issues[issues.len() - 1].open_edges@.len() == 0 && issues[issues.len() - 1].duplicate_edges@.len() == 0);
        }
    }
}

/// Law: a part counts as broken exactly when its watertightness check
/// reports an open or a duplicated edge. Of a gathered report, the broken
/// count is the number of parts whose findings report either fault, never
/// more than the parts; it is zero exactly when no part reports a fault,
/// and exactly when the report lists no open and no duplicated edge.
pub proof fn lemma_broken_parts_are_the_faulty_ones(report: ModelReport, comps: Seq<Seq<FaceId>>, issues: Seq<ManifoldIssues>)
    requires
        report.gathers(comps, issues),
    ensures
        report.broken_part_count == issues.filter(|i: ManifoldIssues| i.open_edges@.len() > 0 || i.duplicate_edges@.len() > 0).len(),
        report.broken_part_count <= report.part_count,
        report.broken_part_count == 0 <==> forall|k: int| 0 <= k < issues.len() ==> (#[trigger] issues[k]).open_edges@.len() == 0 && issues[k].duplicate_edges@.len() == 0,
        report.broken_part_count == 0 <==> (report.open_edges@.len() == 0 && report.duplicate_edges@.len() == 0),
{
    lemma_broken_count_faulty(issues);
    issues.lemma_filter_len(|i: ManifoldIssues| i.open_edges@.len() > 0 || i.duplicate_edges@.len() > 0);
}

/// `r` lists the solid faces present in `d`, in increasing id order.
pub open spec fn solid_id_list<P>(d: Document<P>, r: Seq<FaceId>) -> bool {
    &&& forall|i: int| 0 <= i < r.len() ==> d.the_mesh().has_face(#[trigger] r[i]) && d.solids().contains(r[i])
    &&& forall|f: FaceId| d.the_mesh().has_face(f) && d.solids().contains(f) ==> r.contains(f)
    &&& forall|i: int, j: int| 0 <= i < j < r.len() ==> (#[trigger] r[i]).0 < (#[trigger] r[j]).0
}

/// The whole editable document: one flat geometry pool plus the groups,
/// the selection and the guides layered on top of it, and which faces form
/// solid boundaries (created by push/pull, or split from such a face).
pub struct Document<P> {
    pub mesh: Mesh<P>,
    groups: Vec<Option<Group>>,
    selection: Selection,
    guides: Vec<Guide<P>>,
    /// Which group each grouped face belongs to; each face at most once.
    face_to_group: Vec<(FaceId, GroupId)>,
    /// Faces created by push/pull (caps and side walls of a built solid),
    /// each once. Excluded from the coplanar search of later sketches.
    solid_face_ids: Vec<FaceId>,
}

/// The name and members in a group slot, if the slot holds a group.
pub open spec fn slot_group(s: Option<Group>) -> Option<(Seq<char>, Seq<FaceId>)> {
    match s {
        Some(g) => Some(g@),
        None => None,
    }
}

impl<P> View for Document<P> {
    /// Everything the document holds: the mesh, the group slots, the
    /// selection, the guides, the filing of faces under groups and the
    /// solid faces.
    type V = (
        (Seq<Option<P>>, Seq<Option<(Seq<VertexId>, Seq<Seq<VertexId>>)>>),
        Seq<Option<(Seq<char>, Seq<FaceId>)>>,
        Seq<FaceId>,
        Seq<Guide<P>>,
        Seq<(FaceId, GroupId)>,
        Seq<FaceId>,
    );

    closed spec fn view(&self) -> Self::V {
        (
            self.mesh@,
            self.groups@.map_values(|s: Option<Group>| slot_group(s)),
            self.selection@,
            self.guides@,
            self.face_to_group@,
            self.solid_face_ids@,
        )
    }
}

impl<P: Copy> Clone for Document<P> {
    /// A copy holding the same of everything (see `view`).
    fn clone(&self) -> (r: Document<P>)
        ensures
            r@ == self@,
    {
        let mut groups: Vec<Option<Group>> = Vec::new();
        let mut i: usize = 0;
        while i < self.groups.len()
            invariant
                i <= self.groups@.len(),
                groups@.len() == i,
                forall|k: int| 0 <= k < i ==> #[trigger] slot_group(groups@[k]) == slot_group(self.groups@[k]),
            decreases self.groups@.len() - i,
        {
            let slot = match &self.groups[i] {
                Some(g) => Some(g.clone()),
                None => None,
            };
            groups.push(slot);
            i = i + 1;
        }
        let r = Document {
            mesh: self.mesh.clone(),
            groups,
            selection: self.selection.clone(),
            guides: vstd::slice::slice_to_vec(self.guides.as_slice()),
            face_to_group: vstd::slice::slice_to_vec(self.face_to_group.as_slice()),
            solid_face_ids: vstd::slice::slice_to_vec(self.solid_face_ids.as_slice()),
        };
        proof {
            assert(r@.1 =~= self@.1);
        }
        r
    }
}

impl<P> Document<P> {
    /// Two documents with the same view are the same to every contract:
    /// the same well-formedness, vertices, positions and faces, groups
    /// and filing, solid faces, selection and guides.
    pub proof fn lemma_same_view(&self, other: &Document<P>)
        requires
            self@ == other@,
        ensures
            self.wf() == other.wf(),
            self.the_mesh().same_vertices(&other.the_mesh()),
            self.the_mesh().same_faces(&other.the_mesh()),
            self.the_mesh().wf() == other.the_mesh().wf(),
            self.same_groups(other),
            self.solids() == other.solids(),
            self.selected() == other.selected(),
            self.guide_list() == other.guide_list(),
    {
        self.mesh.lemma_same_view(&other.mesh);
        assert(self.groups@.len() == self@.1.len());
        assert(other.groups@.len() == other@.1.len());
        assert forall|g: GroupId| #[trigger] self.has_group(g) == other.has_group(g) by {
            if g.0 < self.groups@.len() {
                assert(self@.1[g.0 as int] == other@.1[g.0 as int]);
            }
        }
        assert forall|g: GroupId| other.has_group(g) implies #[trigger] self.group(g) == other.group(g) by {
            assert(self@.1[g.0 as int] == other@.1[g.0 as int]);
        }
        assert forall|f: FaceId| #[trigger] self.group_of(f) == other.group_of(f) by {}
    }
}

impl<P> Document<P> {
    /// The document's own bookkeeping is consistent: each face is mapped to
    /// at most one group, solid faces and selected faces are listed once.
    pub closed spec fn wf(&self) -> bool {
        &&& forall|i: int, j: int|
            0 <= i < j < self.face_to_group@.len() ==> (#[trigger] self.face_to_group@[i]).0 != (#[trigger] self.face_to_group@[j]).0
        &&& self.solid_face_ids@.no_duplicates()
        &&& self.selection.wf()
    }

    pub closed spec fn the_mesh(&self) -> Mesh<P> {
        self.mesh
    }

    /// The selected faces, as a set.
    pub closed spec fn selected(&self) -> Set<FaceId> {
        self.selection.set()
    }

    pub closed spec fn guide_list(&self) -> Seq<Guide<P>> {
        self.guides@
    }

    /// The group face `f` is filed under, if any.
    pub closed spec fn group_of(&self, f: FaceId) -> Option<GroupId> {
        if exists|i: int| 0 <= i < self.face_to_group@.len() && (#[trigger] self.face_to_group@[i]).0 == f {
            let i = choose|i: int| 0 <= i < self.face_to_group@.len() && (#[trigger] self.face_to_group@[i]).0 == f;
            Some(self.face_to_group@[i].1)
        } else {
            None
        }
    }

    pub closed spec fn has_group(&self, g: GroupId) -> bool {
        g.0 < self.groups@.len() && self.groups@[g.0 as int] is Some
    }

    /// The name and members of group `g` (meaningful when `has_group(g)`).
    pub closed spec fn group(&self, g: GroupId) -> (Seq<char>, Seq<FaceId>) {
        (self.groups@[g.0 as int].unwrap().name@, self.groups@[g.0 as int].unwrap().face_ids@)
    }

    pub closed spec fn group_slots(&self) -> nat {
        self.groups@.len()
    }

    /// The faces flagged as solid boundaries.
    pub closed spec fn solids(&self) -> Set<FaceId> {
        self.solid_face_ids@.to_set()
    }

    /// Everything about groups is as in `other`.
    pub open spec fn same_groups(&self, other: &Document<P>) -> bool {
        &&& self.group_slots() == other.group_slots()
        &&& forall|g: GroupId| #[trigger] self.has_group(g) == other.has_group(g)
        &&& forall|g: GroupId| other.has_group(g) ==> #[trigger] self.group(g) == other.group(g)
        &&& forall|f: FaceId| #[trigger] self.group_of(f) == other.group_of(f)
    }

    /// `self` is `prior` with face `f` filed under no group: dropped from
    /// the members of the group it was filed under, every other filing and
    /// every other group as it was.
    pub open spec fn unfiled(&self, prior: &Document<P>, f: FaceId) -> bool {
        &&& self.group_of(f) is None
        &&& forall|h: FaceId| h != f ==> #[trigger] self.group_of(h) == prior.group_of(h)
        &&& self.group_slots() == prior.group_slots()
        &&& forall|g: GroupId| #[trigger] self.has_group(g) == prior.has_group(g)
        &&& forall|g: GroupId|
            prior.has_group(g) ==> #[trigger] self.group(g) == if prior.group_of(f) == Some(g) {
                (prior.group(g).0, without_face(prior.group(g).1, f))
            } else {
                prior.group(g)
            }
    }

    /// The members of group `g` that stay once every face of `ids` is filed
    /// elsewhere: all but those of `ids` that were filed under `g`.
    pub open spec fn members_kept(&self, g: GroupId, ids: Seq<FaceId>) -> Seq<FaceId> {
        self.group(g).1.filter(self.stays_in(g, ids))
    }

    /// Holds of the faces that stay in group `g` when those of `ids` leave
    /// the group they are filed under.
    pub open spec fn stays_in(&self, g: GroupId, ids: Seq<FaceId>) -> spec_fn(FaceId) -> bool {
        |x: FaceId| !(ids.contains(x) && self.group_of(x) == Some(g))
    }

    /// Group bookkeeping after face `f` was replaced by the faces `r`: `f`
    /// is filed nowhere; if `f` was filed under a live group, `r` joins it
    /// (at the end of its members, where `f` is dropped) and is filed
    /// under it; nothing else changes.
    pub open spec fn refiled(&self, prior: &Document<P>, f: FaceId, r: Seq<FaceId>) -> bool {
        let filed = prior.group_of(f);
        let live = filed is Some && prior.has_group(filed.unwrap());
        &&& self.group_of(f) is None
        &&& forall|h: FaceId| h != f && !r.contains(h) ==> #[trigger] self.group_of(h) == prior.group_of(h)
        &&& forall|k: int|
            0 <= k < r.len() ==> #[trigger] self.group_of(r[k]) == if live {
                filed
            } else {
                prior.group_of(r[k])
            }
        &&& self.group_slots() == prior.group_slots()
        &&& forall|g: GroupId| #[trigger] self.has_group(g) == prior.has_group(g)
        &&& forall|g: GroupId|
            prior.has_group(g) ==> #[trigger] self.group(g) == if filed == Some(g) {
                (prior.group(g).0, without_face(prior.group(g).1, f) + r)
            } else {
                prior.group(g)
            }
    }

    /// Mesh, solids, selection and guides are as in `other`.
    pub open spec fn same_content(&self, other: &Document<P>) -> bool {
        &&& self.the_mesh() == other.the_mesh()
        &&& self.solids() == other.solids()
        &&& self.selected() == other.selected()
        &&& self.guide_list() == other.guide_list()
    }

    /// The mesh, by reference.
    pub fn mesh_ref(&self) -> (m: &Mesh<P>)
        ensures
            *m == self.the_mesh(),
    {
        &self.mesh
    }

    /// The guides, by reference.
    pub fn guides_ref(&self) -> (r: &Vec<Guide<P>>)
        ensures
            r@ == self.guide_list(),
    {
        &self.guides
    }

    /// The selected faces, each once.
    pub fn selected_ids(&self) -> (r: &Vec<FaceId>)
        requires
            self.wf(),
        ensures
            r@.no_duplicates(),
            r@.to_set() == self.selected(),
    {
        &self.selection.faces
    }

    pub proof fn lemma_group_ids_in_range(&self, g: GroupId)
        ensures
            self.has_group(g) ==> g.0 < self.group_slots(),
    {
    }

    /// How many group ids have been handed out.
    pub fn group_count(&self) -> (n: usize)
        ensures
            n == self.group_slots(),
    {
        self.groups.len()
    }

    pub fn new() -> (d: Document<P>)
        ensures
            d.wf(),
            d.the_mesh().vertex_slots() == 0,
            d.the_mesh().face_slots() == 0,
            forall|f: FaceId| !d.the_mesh().has_face(f),
            forall|f: FaceId| d.group_of(f) is None,
            forall|g: GroupId| !d.has_group(g),
            d.group_slots() == 0,
            d.solids() == Set::<FaceId>::empty(),
            d.selected() == Set::<FaceId>::empty(),
            d.guide_list().len() == 0,
    {
        let d = Document {
            mesh: Mesh::new(),
            groups: Vec::new(),
            selection: Selection::new(),
            guides: Vec::new(),
            face_to_group: Vec::new(),
            solid_face_ids: Vec::new(),
        };
        proof {
            assert(d.solid_face_ids@.to_set() =~= Set::<FaceId>::empty());
            assert(d.selection.set() =~= Set::<FaceId>::empty());
        }
        d
    }

    /// Position of `f` in the face-to-group map, if present.
    fn group_entry(&self, f: FaceId) -> (r: Option<usize>)
        requires
            self.wf(),
        ensures
            match r {
                Some(i) => i < self.face_to_group@.len() && self.face_to_group@[i as int].0 == f && self.group_of(f) == Some(
                    self.face_to_group@[i as int].1,
                ),
                None => self.group_of(f) is None,
            },
    {
        let mut i: usize = 0;
        while i < self.face_to_group.len()
            invariant
                self.wf(),
                i <= self.face_to_group@.len(),
                forall|k: int| 0 <= k < i ==> (#[trigger] self.face_to_group@[k]).0 != f,
            decreases self.face_to_group@.len() - i,
        {
            if self.face_to_group[i].0 == f {
                proof {
                    let k = choose|k: int| 0 <= k < self.face_to_group@.len() && (#[trigger] self.face_to_group@[k]).0 == f;
                    if k != i {
                        assert(self.face_to_group@[k].0 == self.face_to_group@[i as int].0);
                    }
                }
                return Some(i);
            }
            i = i + 1;
        }
        None
    }

    /// The group face `f` is filed under, if any.
    pub fn group_of_face(&self, f: FaceId) -> (r: Option<GroupId>)
        requires
            self.wf(),
        ensures
            r == self.group_of(f),
    {
        match self.group_entry(f) {
            Some(i) => Some(self.face_to_group[i].1),
            None => None,
        }
    }

    pub fn is_solid(&self, f: FaceId) -> (r: bool)
        ensures
            r == self.solids().contains(f),
    {
        list_contains(&self.solid_face_ids, f)
    }

    /// Name and members of group `g`, if it exists.
    pub fn get_group(&self, g: GroupId) -> (r: Option<&Group>)
        ensures
            match r {
                Some(grp) => self.has_group(g) && (grp.name@, grp.face_ids@) == self.group(g),
                None => !self.has_group(g),
            },
    {
        if g.0 < self.groups.len() {
            match &self.groups[g.0] {
                Some(grp) => Some(grp),
                None => None,
            }
        } else {
            None
        }
    }

    /// Drops the filing of face `f`, returning the group it was filed under;
    /// the group table itself is left alone.
    fn drop_filing(&mut self, f: FaceId) -> (r: Option<GroupId>)
        requires
            old(self).wf(),
        ensures
            final(self).wf(),
            r == old(self).group_of(f),
            final(self).group_of(f) is None,
            forall|h: FaceId| h != f ==> #[trigger] final(self).group_of(h) == old(self).group_of(h),
            final(self).groups == old(self).groups,
            final(self).mesh == old(self).mesh,
            final(self).selection == old(self).selection,
            final(self).guides == old(self).guides,
            final(self).solid_face_ids == old(self).solid_face_ids,
    {
        match self.group_entry(f) {
            None => None,
            Some(i) => {
                let ghost before = *self;
                let (_, gid) = self.face_to_group.remove(i);
                proof {
                    assert forall|h: FaceId| h != f implies #[trigger] self.group_of(h) == before.group_of(h) by {
                        if exists|k: int| 0 <= k < before.face_to_group@.len() && (#[trigger] before.face_to_group@[k]).0 == h {
                            let k = choose|k: int| 0 <= k < before.face_to_group@.len() && (#[trigger] before.face_to_group@[k]).0 == h;
                            let k2 = if k < i { k } else { k - 1 };
                            assert(self.face_to_group@[k2] == before.face_to_group@[k]);
                            let c = choose|c: int| 0 <= c < self.face_to_group@.len() && (#[trigger] self.face_to_group@[c]).0 == h;
                            let c0 = if c < i { c } else { c + 1 };
                            assert(self.face_to_group@[c] == before.face_to_group@[c0]);
                        } else {
                            if exists|c: int| 0 <= c < self.face_to_group@.len() && (#[trigger] self.face_to_group@[c]).0 == h {
                                let c = choose|c: int| 0 <= c < self.face_to_group@.len() && (#[trigger] self.face_to_group@[c]).0 == h;
                                let c0 = if c < i { c } else { c + 1 };
                                assert(self.face_to_group@[c] == before.face_to_group@[c0]);
                            }
                        }
                    }
                    if exists|c: int| 0 <= c < self.face_to_group@.len() && (#[trigger] self.face_to_group@[c]).0 == f {
                        let c = choose|c: int| 0 <= c < self.face_to_group@.len() && (#[trigger] self.face_to_group@[c]).0 == f;
                        let c0 = if c < i { c } else { c + 1 };
                        assert(self.face_to_group@[c] == before.face_to_group@[c0]);
                    }
                    assert forall|x: int, y: int|
                        0 <= x < y < self.face_to_group@.len() implies (#[trigger] self.face_to_group@[x]).0 != (#[trigger] self.face_to_group@[y]).0 by {
                        let x0 = if x < i { x } else { x + 1 };
                        let y0 = if y < i { y } else { y + 1 };
                        assert(self.face_to_group@[x] == before.face_to_group@[x0]);
                        assert(self.face_to_group@[y] == before.face_to_group@[y0]);
                    }
                }
                Some(gid)
            },
        }
    }

    /// Files face `f` under group `g`, replacing any filing it had; the
    /// group table itself is left alone.
    fn file_under(&mut self, f: FaceId, g: GroupId)
        requires
            old(self).wf(),
        ensures
            final(self).wf(),
            final(self).group_of(f) == Some(g),
            forall|h: FaceId| h != f ==> #[trigger] final(self).group_of(h) == old(self).group_of(h),
            final(self).groups == old(self).groups,
            final(self).mesh == old(self).mesh,
            final(self).selection == old(self).selection,
            final(self).guides == old(self).guides,
            final(self).solid_face_ids == old(self).solid_face_ids,
    {
        let ghost before = *self;
        match self.group_entry(f) {
            Some(i) => {
                self.face_to_group.set(i, (f, g));
                proof {
                    assert forall|x: int, y: int|
                        0 <= x < y < self.face_to_group@.len() implies (#[trigger] self.face_to_group@[x]).0 != (#[trigger] self.face_to_group@[y]).0 by {
                        assert(self.face_to_group@[x].0 == before.face_to_group@[x].0);
                        assert(self.face_to_group@[y].0 == before.face_to_group@[y].0);
                    }
                    assert(self.face_to_group@[i as int].0 == f);
                    let c = choose|c: int| 0 <= c < self.face_to_group@.len() && (#[trigger] self.face_to_group@[c]).0 == f;
                    if c != i {
                        assert(self.face_to_group@[c].0 == self.face_to_group@[i as int].0);
                    }
                    assert forall|h: FaceId| h != f implies #[trigger] self.group_of(h) == before.group_of(h) by {
                        if exists|k: int| 0 <= k < before.face_to_group@.len() && (#[trigger] before.face_to_group@[k]).0 == h {
                            let k = choose|k: int| 0 <= k < before.face_to_group@.len() && (#[trigger] before.face_to_group@[k]).0 == h;
                            assert(self.face_to_group@[k] == before.face_to_group@[k]);
                            let c = choose|c: int| 0 <= c < self.face_to_group@.len() && (#[trigger] self.face_to_group@[c]).0 == h;
                            assert(self.face_to_group@[c] == before.face_to_group@[c]);
                        } else {
                            if exists|c: int| 0 <= c < self.face_to_group@.len() && (#[trigger] self.face_to_group@[c]).0 == h {
                                let c = choose|c: int| 0 <= c < self.face_to_group@.len() && (#[trigger] self.face_to_group@[c]).0 == h;
                                assert(self.face_to_group@[c] == before.face_to_group@[c]);
                            }
                        }
                    }
                }
            },
            None => {
                self.face_to_group.push((f, g));
                proof {
                    let n = before.face_to_group@.len() as int;
                    assert forall|x: int, y: int|
                        0 <= x < y < self.face_to_group@.len() implies (#[trigger] self.face_to_group@[x]).0 != (#[trigger] self.face_to_group@[y]).0 by {
                        if y == n {
                            assert(self.face_to_group@[x] == before.face_to_group@[x]);
                        } else {
                            assert(self.face_to_group@[x] == before.face_to_group@[x]);
                            assert(self.face_to_group@[y] == before.face_to_group@[y]);
                        }
                    }
                    assert(self.face_to_group@[n].0 == f);
                    let c = choose|c: int| 0 <= c < self.face_to_group@.len() && (#[trigger] self.face_to_group@[c]).0 == f;
                    if c != n {
                        assert(self.face_to_group@[c].0 == self.face_to_group@[n].0);
                    }
                    assert forall|h: FaceId| h != f implies #[trigger] self.group_of(h) == before.group_of(h) by {
                        if exists|k: int| 0 <= k < before.face_to_group@.len() && (#[trigger] before.face_to_group@[k]).0 == h {
                            let k = choose|k: int| 0 <= k < before.face_to_group@.len() && (#[trigger] before.face_to_group@[k]).0 == h;
                            assert(self.face_to_group@[k] == before.face_to_group@[k]);
                            let c = choose|c: int| 0 <= c < self.face_to_group@.len() && (#[trigger] self.face_to_group@[c]).0 == h;
                            assert(c != n);
                            assert(self.face_to_group@[c] == before.face_to_group@[c]);
                        } else {
                            if exists|c: int| 0 <= c < self.face_to_group@.len() && (#[trigger] self.face_to_group@[c]).0 == h {
                                let c = choose|c: int| 0 <= c < self.face_to_group@.len() && (#[trigger] self.face_to_group@[c]).0 == h;
                                assert(c != n);
                                assert(self.face_to_group@[c] == before.face_to_group@[c]);
                            }
                        }
                    }
                }
            },
        }
    }

    /// Replaces the members of the existing group slot `gid` by
    /// `without_face(members, f)`; other slots are untouched.
    fn drop_member(&mut self, gid: GroupId, f: FaceId)
        requires
            old(self).wf(),
        ensures
            final(self).wf(),
            final(self).face_to_group == old(self).face_to_group,
            final(self).group_slots() == old(self).group_slots(),
            forall|g: GroupId| #[trigger] final(self).has_group(g) == old(self).has_group(g),
            forall|g: GroupId|
                old(self).has_group(g) ==> #[trigger] final(self).group(g) == if g == gid {
                    (old(self).group(g).0, without_face(old(self).group(g).1, f))
                } else {
                    old(self).group(g)
                },
            final(self).mesh == old(self).mesh,
            final(self).selection == old(self).selection,
            final(self).guides == old(self).guides,
            final(self).solid_face_ids == old(self).solid_face_ids,
    {
        if gid.0 < self.groups.len() {
            let ghost mid = *self;
            let slot = self.groups.remove(gid.0);
            match slot {
                Some(group) => {
                    let kept = retain_other_faces(&group.face_ids, f);
                    self.groups.insert(gid.0, Some(Group { name: group.name, face_ids: kept }));
                },
                None => {
                    self.groups.insert(gid.0, None);
                },
            }
            proof {
                assert forall|g: GroupId| #[trigger] self.has_group(g) == mid.has_group(g) by {
                    if g.0 < self.groups@.len() && g.0 != gid.0 {
                        assert(self.groups@[g.0 as int] == mid.groups@[g.0 as int]);
                    }
                }
                assert forall|g: GroupId| mid.has_group(g) && g != gid implies #[trigger] self.group(g) == mid.group(g) by {
                    assert(self.groups@[g.0 as int] == mid.groups@[g.0 as int]);
                }
            }
        }
    }

    /// Files face `f` under no group, dropping it from the members of the
    /// group it was filed under.
    fn remove_face_from_its_group(&mut self, f: FaceId)
        requires
            old(self).wf(),
        ensures
            final(self).wf(),
            final(self).unfiled(old(self), f),
            final(self).the_mesh() == old(self).the_mesh(),
            final(self).selected() == old(self).selected(),
            final(self).guide_list() == old(self).guide_list(),
            final(self).solids() == old(self).solids(),
    {
        let ghost before = *self;
        match self.drop_filing(f) {
            None => {
                proof {
                    assert forall|g: GroupId| #[trigger] self.has_group(g) == before.has_group(g) by {}
                }
            },
            Some(gid) => {
                let ghost mid = *self;
                self.drop_member(gid, f);
                proof {
                    Self::lemma_same_group_fields(&mid, &mid);
                    assert forall|h: FaceId| #[trigger] self.group_of(h) == mid.group_of(h) by {
                        assert(self.face_to_group@ == mid.face_to_group@);
                    }
                }
            },
        }
    }

    /// Two documents with the same group table and filings agree on every
    /// group question.
    proof fn lemma_same_group_fields(a: &Document<P>, b: &Document<P>)
        requires
            a.groups == b.groups,
            a.face_to_group == b.face_to_group,
        ensures
            a.same_groups(b),
            forall|f: FaceId| #[trigger] a.group_of(f) == b.group_of(f),
    {
        assert forall|f: FaceId| #[trigger] a.group_of(f) == b.group_of(f) by {
            assert(a.face_to_group@ == b.face_to_group@);
        }
    }

    /// Erases face `f`: it leaves the mesh, its group, the selection and
    /// the solid faces.
    pub fn erase_face(&mut self, f: FaceId)
        requires
            old(self).wf(),
        ensures
            final(self).wf(),
            final(self).unfiled(old(self), f),
            final(self).selected() == old(self).selected().remove(f),
            final(self).solids() == old(self).solids().remove(f),
            final(self).guide_list() == old(self).guide_list(),
            !final(self).the_mesh().has_face(f),
            final(self).the_mesh().same_faces_except(&old(self).the_mesh(), f),
            final(self).the_mesh().same_vertices(&old(self).the_mesh()),
            final(self).the_mesh().face_slots() == old(self).the_mesh().face_slots(),
            old(self).the_mesh().wf() ==> final(self).the_mesh().wf(),
    {
        self.remove_face_from_its_group(f);
        let ghost mid = *self;
        self.selection.remove(f);
        list_remove(&mut self.solid_face_ids, f);
        self.mesh.remove_face(f);
        proof {
            Self::lemma_same_group_fields(self, &mid);
        }
    }

    /// Replaces the selection with the faces of `face_ids`.
    pub fn select(&mut self, face_ids: &[FaceId])
        requires
            old(self).wf(),
        ensures
            final(self).wf(),
            final(self).selected() == face_ids@.to_set(),
            final(self).same_groups(old(self)),
            final(self).the_mesh() == old(self).the_mesh(),
            final(self).solids() == old(self).solids(),
            final(self).guide_list() == old(self).guide_list(),
    {
        let ghost before = *self;
        self.selection.set_to(face_ids);
        proof {
            Self::lemma_same_group_fields(self, &before);
        }
    }

    /// Selects exactly the members of group `g`; a no-op when there is no
    /// such group.
    pub fn select_group(&mut self, g: GroupId)
        requires
            old(self).wf(),
        ensures
            final(self).wf(),
            final(self).selected() == if old(self).has_group(g) {
                old(self).group(g).1.to_set()
            } else {
                old(self).selected()
            },
            final(self).same_groups(old(self)),
            final(self).the_mesh() == old(self).the_mesh(),
            final(self).solids() == old(self).solids(),
            final(self).guide_list() == old(self).guide_list(),
    {
        let ghost before = *self;
        if g.0 < self.groups.len() {
            let members = match &self.groups[g.0] {
                Some(grp) => Some(list_from(grp.face_ids.as_slice())),
                None => None,
            };
            match members {
                Some(m) => {
                    self.selection.faces = m;
                },
                None => {},
            }
        }
        proof {
            Self::lemma_same_group_fields(self, &before);
        }
    }

    /// Leaves a construction guide along the segment `a`-`b`.
    pub fn add_guide(&mut self, a: P, b: P)
        requires
            old(self).wf(),
        ensures
            final(self).wf(),
            final(self).guide_list() == old(self).guide_list().push(Guide { a, b }),
            final(self).same_groups(old(self)),
            final(self).the_mesh() == old(self).the_mesh(),
            final(self).solids() == old(self).solids(),
            final(self).selected() == old(self).selected(),
    {
        let ghost before = *self;
        self.guides.push(Guide { a, b });
        proof {
            Self::lemma_same_group_fields(self, &before);
        }
    }

    /// Removes every construction guide.
    pub fn clear_guides(&mut self)
        requires
            old(self).wf(),
        ensures
            final(self).wf(),
            final(self).guide_list().len() == 0,
            final(self).same_groups(old(self)),
            final(self).the_mesh() == old(self).the_mesh(),
            final(self).solids() == old(self).solids(),
            final(self).selected() == old(self).selected(),
    {
        let ghost before = *self;
        self.guides.clear();
        proof {
            Self::lemma_same_group_fields(self, &before);
        }
    }

    /// The faces forming solid boundaries (created by push/pull or split
    /// from such a face) - the printable subset; flat sketch faces are
    /// left out. In increasing id order.
    pub fn solid_boundary_face_ids(&self) -> (r: Vec<FaceId>)
        ensures
            forall|i: int| 0 <= i < r@.len() ==> self.the_mesh().has_face(#[trigger] r@[i]) && self.solids().contains(r@[i]),
            forall|f: FaceId| self.the_mesh().has_face(f) && self.solids().contains(f) ==> r@.contains(f),
            forall|i: int, j: int| 0 <= i < j < r@.len() ==> (#[trigger] r@[i]).0 < (#[trigger] r@[j]).0,
    {
        let all = self.mesh.face_ids();
        let mut out: Vec<FaceId> = Vec::new();
        let mut i: usize = 0;
        while i < all.len()
            invariant
                i <= all@.len(),
                forall|k: int| 0 <= k < all@.len() ==> self.mesh.has_face(#[trigger] all@[k]),
                forall|f: FaceId| self.mesh.has_face(f) ==> all@.contains(f),
                forall|k: int, j: int| 0 <= k < j < all@.len() ==> (#[trigger] all@[k]).0 < (#[trigger] all@[j]).0,
                forall|k: int| 0 <= k < out@.len() ==> self.mesh.has_face(#[trigger] out@[k]) && self.solids().contains(out@[k]),
                forall|k: int| 0 <= k < i && self.solids().contains(#[trigger] all@[k]) ==> out@.contains(all@[k]),
                forall|k: int| 0 <= k < out@.len() ==> exists|j: int| 0 <= j < i && (#[trigger] out@[k]) == all@[j],
                forall|k: int, j: int| 0 <= k < j < out@.len() ==> (#[trigger] out@[k]).0 < (#[trigger] out@[j]).0,
            decreases all@.len() - i,
        {
            let f = all[i];
            if self.is_solid(f) {
                let ghost ob = out@;
                out.push(f);
                proof {
                    assert forall|k: int, j: int| 0 <= k < j < out@.len() implies (#[trigger] out@[k]).0 < (#[trigger] out@[j]).0 by {
                        if j == ob.len() {
                            let q = choose|q: int| 0 <= q < i && ob[k] == all@[q];
                            assert(all@[q].0 < all@[i as int].0);
                        }
                    }
                    assert forall|k: int| 0 <= k < i + 1 && self.solids().contains(#[trigger] all@[k]) implies out@.contains(all@[k]) by {
                        if k < i {
                            assert(ob.contains(all@[k]));
                            let q = choose|q: int| 0 <= q < ob.len() && ob[q] == all@[k];
                            assert(out@[q] == all@[k]);
                        } else {
                            assert(out@[ob.len() as int] == all@[k]);
                        }
                    }
                    assert forall|k: int| 0 <= k < out@.len() implies exists|j: int| 0 <= j < i + 1 && (#[trigger] out@[k]) == all@[j] by {
                        if k < ob.len() {
                            let q = choose|q: int| 0 <= q < i && ob[k] == all@[q];
                            assert(out@[k] == all@[q]);
                        } else {
                            assert(out@[k] == all@[i as int]);
                        }
                    }
                }
            }
            i = i + 1;
        }
        proof {
            assert forall|f: FaceId| self.mesh.has_face(f) && self.solids().contains(f) implies out@.contains(f) by {
                let q = choose|q: int| 0 <= q < all@.len() && all@[q] == f;
                assert(self.solids().contains(all@[q]));
            }
        }
        out
    }

    /// Dissolves group `g`: its slot is emptied and each of its members is
    /// filed under no group. Faces stay where they are.
    pub fn ungroup(&mut self, g: GroupId)
        requires
            old(self).wf(),
        ensures
            final(self).wf(),
            !final(self).has_group(g),
            final(self).group_slots() == old(self).group_slots(),
            forall|h: GroupId| h != g ==> #[trigger] final(self).has_group(h) == old(self).has_group(h),
            forall|h: GroupId| h != g && old(self).has_group(h) ==> #[trigger] final(self).group(h) == old(self).group(h),
            forall|f: FaceId|
                #[trigger] final(self).group_of(f) == if old(self).has_group(g) && old(self).group(g).1.contains(f) {
                    None
                } else {
                    old(self).group_of(f)
                },
            final(self).same_content(old(self)),
    {
        let ghost before = *self;
        if g.0 < self.groups.len() {
            let slot = self.groups.remove(g.0);
            self.groups.insert(g.0, None);
            let ghost emptied = *self;
            proof {
                assert forall|h: GroupId| h != g implies #[trigger] self.has_group(h) == before.has_group(h) by {
                    if h.0 < self.groups@.len() {
                        assert(self.groups@[h.0 as int] == before.groups@[h.0 as int]);
                    }
                }
                assert forall|h: GroupId| h != g && before.has_group(h) implies #[trigger] self.group(h) == before.group(h) by {
                    assert(self.groups@[h.0 as int] == before.groups@[h.0 as int]);
                }
                assert forall|f: FaceId| #[trigger] self.group_of(f) == before.group_of(f) by {
                    assert(self.face_to_group@ == before.face_to_group@);
                }
            }
            match slot {
                Some(group) => {
                    let members = group.face_ids;
                    let mut i: usize = 0;
                    while i < members.len()
                        invariant
                            self.wf(),
                            i <= members@.len(),
                            before.has_group(g),
                            before.group(g).1 == members@,
                            self.groups == emptied.groups,
                            self.mesh == before.mesh,
                            self.selection == before.selection,
                            self.guides == before.guides,
                            self.solid_face_ids == before.solid_face_ids,
                            forall|f: FaceId|
                                #[trigger] self.group_of(f) == if members@.take(i as int).contains(f) {
                                    None
                                } else {
                                    before.group_of(f)
                                },
                        decreases members@.len() - i,
                    {
                        let f = members[i];
                        let ghost cur = *self;
                        self.drop_filing(f);
                        proof {
                            assert forall|h: FaceId|
                                #[trigger] self.group_of(h) == if members@.take(i as int + 1).contains(h) {
                                    None
                                } else {
                                    before.group_of(h)
                                } by {
                                if h == f {
                                    assert(members@.take(i as int + 1)[i as int] == f);
                                } else {
                                    assert(members@.take(i as int + 1).contains(h) == members@.take(i as int).contains(h)) by {
                                        if members@.take(i as int + 1).contains(h) {
                                            let k = choose|k: int| 0 <= k < members@.take(i as int + 1).len() && #[trigger] members@.take(i as int + 1)[k] == h;
                                            assert(members@.take(i as int)[k] == h);
                                        }
                                        if members@.take(i as int).contains(h) {
                                            let k = choose|k: int| 0 <= k < members@.take(i as int).len() && #[trigger] members@.take(i as int)[k] == h;
                                            assert(members@.take(i as int + 1)[k] == h);
                                        }
                                    }
                                }
                            }
                        }
                        i = i + 1;
                    }
                    proof {
                        assert(members@.take(members@.len() as int) =~= members@);
                    }
                },
                None => {},
            }
        }
    }

    /// Gathers the faces of `face_ids` into a new group named `name`; each
    /// of them leaves the group it was filed under. Returns the new group.
    pub fn group_faces(&mut self, face_ids: &[FaceId], name: String) -> (gid: GroupId)
        requires
            old(self).wf(),
            old(self).group_slots() < usize::MAX,
        ensures
            final(self).wf(),
            gid.0 == old(self).group_slots(),
            final(self).group_slots() == old(self).group_slots() + 1,
            final(self).has_group(gid),
            final(self).group(gid) == (name@, face_ids@),
            forall|g: GroupId| g != gid ==> #[trigger] final(self).has_group(g) == old(self).has_group(g),
            forall|g: GroupId|
                g != gid && old(self).has_group(g) ==> #[trigger] final(self).group(g) == (
                    old(self).group(g).0,
                    old(self).members_kept(g, face_ids@),
                ),
            forall|f: FaceId|
                #[trigger] final(self).group_of(f) == if face_ids@.contains(f) {
                    Some(gid)
                } else {
                    old(self).group_of(f)
                },
            final(self).same_content(old(self)),
    {
        let ghost before = *self;
        let ghost ids = face_ids@;
        proof {
            assert forall|g: GroupId| before.has_group(g) implies #[trigger] before.members_kept(g, ids.take(0)) == before.group(g).1 by {
                lemma_filter_all(before.group(g).1, before.stays_in(g, ids.take(0)));
            }
        }
        let mut i: usize = 0;
        while i < face_ids.len()
            invariant
                self.wf(),
                ids == face_ids@,
                i <= ids.len(),
                self.group_slots() == before.group_slots(),
                forall|g: GroupId| #[trigger] self.has_group(g) == before.has_group(g),
                forall|g: GroupId|
                    before.has_group(g) ==> #[trigger] self.group(g) == (before.group(g).0, before.members_kept(g, ids.take(i as int))),
                forall|f: FaceId|
                    #[trigger] self.group_of(f) == if ids.take(i as int).contains(f) {
                        None
                    } else {
                        before.group_of(f)
                    },
                self.same_content(&before),
            decreases ids.len() - i,
        {
            let f = face_ids[i];
            let ghost cur = *self;
            self.remove_face_from_its_group(f);
            proof {
                assert forall|x: FaceId| #[trigger] ids.take(i as int + 1).contains(x) == (ids.take(i as int).contains(x) || x == f) by {
                    lemma_take_contains(ids, i as int, x);
                }
                assert forall|g: GroupId| before.has_group(g) implies #[trigger] self.group(g) == (
                    before.group(g).0,
                    before.members_kept(g, ids.take(i as int + 1)),
                ) by {
                    let pi = before.stays_in(g, ids.take(i as int));
                    let pn = before.stays_in(g, ids.take(i as int + 1));
                    assert(cur.group(g) == (before.group(g).0, before.group(g).1.filter(pi)));
                    assert(before.members_kept(g, ids.take(i as int + 1)) == before.group(g).1.filter(pn));
                    if cur.group_of(f) == Some(g) {
                        assert(self.group(g) == (cur.group(g).0, without_face(cur.group(g).1, f)));
                        lemma_filter_twice(before.group(g).1, pi, other_than(f), pn);
                    } else {
                        assert(self.group(g) == cur.group(g));
                        lemma_filter_same(before.group(g).1, pi, pn);
                    }
                }
                assert forall|h: FaceId|
                    #[trigger] self.group_of(h) == if ids.take(i as int + 1).contains(h) {
                        None
                    } else {
                        before.group_of(h)
                    } by {}
            }
            i = i + 1;
        }
        proof {
            assert(ids.take(ids.len() as int) =~= ids);
        }
        let ghost mid = *self;
        let gid = GroupId(self.groups.len());
        self.groups.push(Some(Group { name, face_ids: vstd::slice::slice_to_vec(face_ids) }));
        proof {
            assert forall|g: GroupId| g != gid implies #[trigger] self.has_group(g) == mid.has_group(g) by {
                if g.0 < mid.groups@.len() {
                    assert(self.groups@[g.0 as int] == mid.groups@[g.0 as int]);
                }
            }
            assert forall|g: GroupId| g != gid && mid.has_group(g) implies #[trigger] self.group(g) == mid.group(g) by {
                assert(self.groups@[g.0 as int] == mid.groups@[g.0 as int]);
            }
            assert forall|h: FaceId| #[trigger] self.group_of(h) == mid.group_of(h) by {
                assert(self.face_to_group@ == mid.face_to_group@);
            }
        }
        let ghost pushed = *self;
        let mut j: usize = 0;
        while j < face_ids.len()
            invariant
                self.wf(),
                ids == face_ids@,
                j <= ids.len(),
                self.groups == pushed.groups,
                self.same_content(&before),
                forall|f: FaceId|
                    #[trigger] self.group_of(f) == if ids.take(j as int).contains(f) {
                        Some(gid)
                    } else {
                        pushed.group_of(f)
                    },
            decreases ids.len() - j,
        {
            let f = face_ids[j];
            self.file_under(f, gid);
            proof {
                assert forall|x: FaceId| #[trigger] ids.take(j as int + 1).contains(x) == (ids.take(j as int).contains(x) || x == f) by {
                    lemma_take_contains(ids, j as int, x);
                }
            }
            j = j + 1;
        }
        proof {
            assert(ids.take(ids.len() as int) =~= ids);
            assert forall|g: GroupId| #[trigger] self.has_group(g) == pushed.has_group(g) by {}
            assert forall|g: GroupId| g != gid && before.has_group(g) implies #[trigger] self.group(g) == (
                before.group(g).0,
                before.members_kept(g, face_ids@),
            ) by {
                assert(mid.group(g) == (before.group(g).0, before.members_kept(g, ids.take(ids.len() as int))));
                assert(pushed.group(g) == mid.group(g));
            }
        }
        gid
    }

    fn group_exists(&self, g: GroupId) -> (r: bool)
        ensures
            r == self.has_group(g),
    {
        g.0 < self.groups.len() && self.groups[g.0].is_some()
    }

    /// Appends `ids` to the members of group slot `gid`, if it holds a group.
    fn append_members(&mut self, gid: GroupId, ids: &Vec<FaceId>)
        requires
            old(self).wf(),
        ensures
            final(self).wf(),
            final(self).face_to_group == old(self).face_to_group,
            final(self).group_slots() == old(self).group_slots(),
            forall|g: GroupId| #[trigger] final(self).has_group(g) == old(self).has_group(g),
            forall|g: GroupId|
                old(self).has_group(g) ==> #[trigger] final(self).group(g) == if g == gid {
                    (old(self).group(g).0, old(self).group(g).1 + ids@)
                } else {
                    old(self).group(g)
                },
            final(self).mesh == old(self).mesh,
            final(self).selection == old(self).selection,
            final(self).guides == old(self).guides,
            final(self).solid_face_ids == old(self).solid_face_ids,
    {
        if gid.0 < self.groups.len() {
            let ghost mid = *self;
            let slot = self.groups.remove(gid.0);
            match slot {
                Some(group) => {
                    let mut members = group.face_ids;
                    let mut extra = vstd::slice::slice_to_vec(ids.as_slice());
                    members.append(&mut extra);
                    self.groups.insert(gid.0, Some(Group { name: group.name, face_ids: members }));
                },
                None => {
                    self.groups.insert(gid.0, None);
                },
            }
            proof {
                assert forall|g: GroupId| #[trigger] self.has_group(g) == mid.has_group(g) by {
                    if g.0 < self.groups@.len() && g.0 != gid.0 {
                        assert(self.groups@[g.0 as int] == mid.groups@[g.0 as int]);
                    }
                }
                assert forall|g: GroupId| mid.has_group(g) && g != gid implies #[trigger] self.group(g) == mid.group(g) by {
                    assert(self.groups@[g.0 as int] == mid.groups@[g.0 as int]);
                }
            }
        }
    }

}

impl<P: Copy> Document<P> {
    /// `self` is `prior` after `push_pull(face_id, offset, nonnegative)`
    /// returned `r`.
    pub open spec fn pushed<F: Fn(FaceId, P) -> P>(
        &self,
        prior: &Document<P>,
        face_id: FaceId,
        offset: F,
        nonnegative: bool,
        r: Seq<FaceId>,
    ) -> bool {
        if prior.the_mesh().has_face(face_id) && extrusion_room(prior.the_mesh(), face_id) {
            let attached = prior.solids().contains(face_id);
            &&& extruded(prior.the_mesh(), self.the_mesh(), face_id, offset, attached || nonnegative, attached, r)
            &&& self.solids() == prior.solids().remove(face_id).union(r.to_set())
            &&& self.selected() == prior.selected().remove(face_id)
            &&& self.guide_list() == prior.guide_list()
            &&& self.refiled(prior, face_id, r)
        } else {
            &&& r.len() == 0
            &&& *self == *prior
        }
    }

    /// Push/pull: extrudes face `face_id` into a solid (see `push_pull_by`),
    /// placing the copy of each vertex at `offset(face_id, position)`. A
    /// face already on a solid's boundary extrudes attached (no cap at the
    /// source position); `nonnegative` says the distance is not negative.
    /// The new faces are solid faces, join the group the source face was
    /// in, and the source face leaves the selection. A no-op returning
    /// nothing when `face_id` is not in the mesh, or when the mesh has no
    /// room left for the new ids.
    pub fn push_pull<F: Fn(FaceId, P) -> P>(&mut self, face_id: FaceId, offset: &F, nonnegative: bool) -> (r: Vec<FaceId>)
        requires
            old(self).wf(),
            old(self).the_mesh().wf(),
            forall|p: P| offset.requires((face_id, p)),
        ensures
            final(self).wf(),
            final(self).the_mesh().wf(),
            final(self).pushed(old(self), face_id, *offset, nonnegative, r@),
    {
        if !self.mesh.contains_face(face_id) {
            return Vec::new();
        }
        if !extrusion_fits(&self.mesh, face_id) {
            return Vec::new();
        }
        let ghost d0 = *self;
        let was_grouped = self.drop_filing(face_id);
        let ghost da = *self;
        let was_solid = self.is_solid(face_id);
        list_remove(&mut self.solid_face_ids, face_id);
        let new_faces = push_pull_by(&mut self.mesh, face_id, offset, nonnegative, was_solid);
        list_add_all(&mut self.solid_face_ids, new_faces.as_slice());
        let ghost d1 = *self;
        proof {
            d0.mesh.lemma_ids_in_range();
            assert forall|k: int| 0 <= k < new_faces@.len() implies (#[trigger] new_faces@[k]) != face_id by {
                assert(new_faces@[k].0 >= d0.mesh.face_slots());
            }
            Self::lemma_same_group_fields(&d1, &da);
        }
        match was_grouped {
            Some(g) => {
                if self.group_exists(g) {
                    self.drop_member(g, face_id);
                    let ghost dm = *self;
                    self.append_members(g, &new_faces);
                    let ghost d2 = *self;
                    proof {
                        assert forall|h: FaceId| #[trigger] d2.group_of(h) == d1.group_of(h) by {
                            assert(d2.face_to_group@ == d1.face_to_group@);
                        }
                    }
                    let mut j: usize = 0;
                    while j < new_faces.len()
                        invariant
                            self.wf(),
                            j <= new_faces@.len(),
                            self.groups == d2.groups,
                            self.mesh == d2.mesh,
                            self.selection == d2.selection,
                            self.guides == d2.guides,
                            self.solid_face_ids == d2.solid_face_ids,
                            forall|x: FaceId|
                                #[trigger] self.group_of(x) == if new_faces@.take(j as int).contains(x) {
                                    Some(g)
                                } else {
                                    d2.group_of(x)
                                },
                        decreases new_faces@.len() - j,
                    {
                        let f = new_faces[j];
                        self.file_under(f, g);
                        proof {
                            assert forall|x: FaceId| #[trigger] new_faces@.take(j as int + 1).contains(x) == (new_faces@.take(j as int).contains(x) || x == f) by {
                                lemma_take_contains(new_faces@, j as int, x);
                            }
                        }
                        j = j + 1;
                    }
                    proof {
                        assert(new_faces@.take(new_faces@.len() as int) =~= new_faces@);
                        assert forall|k: int| 0 <= k < new_faces@.len() implies #[trigger] self.group_of(new_faces@[k]) == Some(g) by {
                            assert(new_faces@.contains(new_faces@[k]));
                        }
                        assert forall|gg: GroupId| #[trigger] self.has_group(gg) == d2.has_group(gg) by {}
                        assert forall|gg: GroupId| d1.has_group(gg) implies #[trigger] self.group(gg) == if gg == g {
                            (d1.group(gg).0, without_face(d1.group(gg).1, face_id) + new_faces@)
                        } else {
                            d1.group(gg)
                        } by {
                            assert(dm.has_group(gg));
                            assert(self.group(gg) == d2.group(gg));
                        }
                    }
                }
            },
            None => {},
        }
        let ghost d3 = *self;
        self.selection.remove(face_id);
        proof {
            Self::lemma_same_group_fields(self, &d3);
            let attached = d0.solids().contains(face_id);
            assert(extruded(d0.the_mesh(), self.the_mesh(), face_id, *offset, attached || nonnegative, attached, new_faces@));
            assert(self.solids() == d0.solids().remove(face_id).union(new_faces@.to_set()));
            assert(self.selected() == d0.selected().remove(face_id));
            assert(self.guide_list() == d0.guide_list());
            assert(self.group_of(face_id) is None);
            assert(self.group_slots() == d0.group_slots());
            assert(forall|g: GroupId| #[trigger] self.has_group(g) == d0.has_group(g));
            assert(forall|h: FaceId| h != face_id && !new_faces@.contains(h) ==> #[trigger] self.group_of(h) == d0.group_of(h));
            let filed = d0.group_of(face_id);
            let live = filed is Some && d0.has_group(filed.unwrap());
            assert forall|k: int| 0 <= k < new_faces@.len() implies #[trigger] self.group_of(new_faces@[k]) == if live {
                filed
            } else {
                d0.group_of(new_faces@[k])
            } by {
                assert(new_faces@[k] != face_id);
            }
            assert forall|g: GroupId| d0.has_group(g) implies #[trigger] self.group(g) == if filed == Some(g) {
                (d0.group(g).0, without_face(d0.group(g).1, face_id) + new_faces@)
            } else {
                d0.group(g)
            } by {
                assert(d1.group(g) == d0.group(g));
            }
        }
        new_faces
    }

    /// `states` walks from its first document to its last by one push/pull
    /// of each face of `ids` in turn, the `k`-th returning `results[k]`.
    pub open spec fn push_chain<F: Fn(FaceId, P) -> P>(
        states: Seq<Document<P>>,
        ids: Seq<FaceId>,
        offset: F,
        nonnegative: bool,
        results: Seq<Seq<FaceId>>,
    ) -> bool {
        &&& states.len() == ids.len() + 1
        &&& results.len() == ids.len()
        &&& forall|k: int|
            #![trigger results[k]]
            0 <= k < ids.len() ==> states[k + 1].pushed(&states[k], ids[k], offset, nonnegative, results[k])
    }

    /// Push/pulls every face of `face_ids` in turn, each by its own
    /// `offset(face, position)` (so selecting several faces and pulling
    /// them together grows each along its own normal). Returns all the new
    /// faces, in order.
    pub fn push_pull_faces<F: Fn(FaceId, P) -> P>(&mut self, face_ids: &[FaceId], offset: &F, nonnegative: bool) -> (r: Vec<FaceId>)
        requires
            old(self).wf(),
            old(self).the_mesh().wf(),
            forall|f: FaceId, p: P| offset.requires((f, p)),
        ensures
            final(self).wf(),
            final(self).the_mesh().wf(),
            exists|states: Seq<Document<P>>, results: Seq<Seq<FaceId>>|
                #![trigger Self::push_chain(states, face_ids@, *offset, nonnegative, results)]
                Self::push_chain(states, face_ids@, *offset, nonnegative, results) && states[0] == *old(self)
                    && states.last() == *final(self) && r@ == concat(results),
    {
        let ghost mut states: Seq<Document<P>> = seq![*self];
        let ghost mut results: Seq<Seq<FaceId>> = Seq::empty();
        let mut out: Vec<FaceId> = Vec::new();
        let mut i: usize = 0;
        while i < face_ids.len()
            invariant
                self.wf(),
                self.the_mesh().wf(),
                forall|f: FaceId, p: P| offset.requires((f, p)),
                i <= face_ids@.len(),
                Self::push_chain(states, face_ids@.take(i as int), *offset, nonnegative, results),
                states[0] == *old(self),
                states.last() == *self,
                out@ == concat(results),
            decreases face_ids@.len() - i,
        {
            let f = face_ids[i];
            let ghost before = *self;
            let mut made = self.push_pull(f, offset, nonnegative);
            proof {
                let states2 = states.push(*self);
                let results2 = results.push(made@);
                assert forall|k: int| #![trigger results2[k]] 0 <= k < i + 1 implies states2[k + 1].pushed(
                    &states2[k],
                    face_ids@.take(i as int + 1)[k],
                    *offset,
                    nonnegative,
                    results2[k],
                ) by {
                    if k < i {
                        assert(results2[k] == results[k]);
                        assert(face_ids@.take(i as int + 1)[k] == face_ids@.take(i as int)[k]);
                        assert(states2[k] == states[k]);
                        assert(states2[k + 1] == states[k + 1]);
                    } else {
                        assert(states2[k] == before);
                    }
                }
                assert(results2.drop_last() =~= results);
                states = states2;
                results = results2;
            }
            out.append(&mut made);
            i = i + 1;
        }
        proof {
            assert(face_ids@.take(face_ids@.len() as int) =~= face_ids@);
        }
        out
    }

    /// Whether face `g` is one of the faces whose rings get the splits of
    /// face `face_id` carried over: a face other than `face_id` and the
    /// just-created ones, connected to `face_id`, which is a solid face.
    pub open spec fn split_sibling(&self, face_id: FaceId, splits_len: nat, just_created: Seq<FaceId>, g: FaceId) -> bool {
        &&& self.solids().contains(face_id)
        &&& self.the_mesh().has_face(face_id)
        &&& splits_len > 0
        &&& g != face_id
        &&& !just_created.contains(g)
        &&& self.the_mesh().has_face(g)
        &&& self.the_mesh().linked(self.the_mesh().face_set(), face_id, g)
    }

    /// Carries the splits of the boundary edges of face `face_id` (points
    /// where a new loop touches an edge partway along, found by the caller)
    /// over to every other face of its connected solid, so that a neighbour
    /// sharing a split edge keeps pairing with it. Faces in `just_created`
    /// (built from the split edges already) and `face_id` itself are left
    /// alone; nothing happens unless `face_id` is a solid face.
    pub fn propagate_boundary_split_to_solid_siblings(&mut self, face_id: FaceId, splits: &Vec<EdgeSplit>, just_created: &[FaceId])
        requires
            old(self).wf(),
            old(self).the_mesh().wf(),
            old(self).solids().contains(face_id) && old(self).the_mesh().has_face(face_id) ==> forall|q: int, k: int|
                0 <= q < splits@.len() && 0 <= k < splits@[q].inserted@.len() ==> old(self).the_mesh().has_vertex(
                    #[trigger] splits@[q].inserted@[k],
                ),
        ensures
            final(self).wf(),
            final(self).the_mesh().wf(),
            final(self).same_groups(old(self)),
            final(self).solids() == old(self).solids(),
            final(self).selected() == old(self).selected(),
            final(self).guide_list() == old(self).guide_list(),
            final(self).the_mesh().same_vertices(&old(self).the_mesh()),
            final(self).the_mesh().face_slots() == old(self).the_mesh().face_slots(),
            forall|g: FaceId| #[trigger] final(self).the_mesh().has_face(g) == old(self).the_mesh().has_face(g),
            forall|g: FaceId|
                old(self).the_mesh().has_face(g) ==> #[trigger] final(self).the_mesh().face(g) == if old(self).split_sibling(
                    face_id,
                    splits@.len(),
                    just_created@,
                    g,
                ) {
                    split_loops(old(self).the_mesh().face(g), splits_view(splits@))
                } else {
                    old(self).the_mesh().face(g)
                },
    {
        let ghost d0 = *self;
        let ghost sv = splits_view(splits@);
        if !self.is_solid(face_id) || !self.mesh.contains_face(face_id) || splits.len() == 0 {
            return;
        }
        let comp = self.mesh.component_of(face_id);
        let ghost m0 = self.mesh;
        let mut i: usize = 0;
        while i < comp.len()
            invariant
                d0.mesh == m0,
                m0.wf(),
                sv == splits_view(splits@),
                d0.solids().contains(face_id),
                m0.has_face(face_id),
                splits@.len() > 0,
                forall|q: int, k: int|
                    0 <= q < splits@.len() && 0 <= k < splits@[q].inserted@.len() ==> m0.has_vertex(#[trigger] splits@[q].inserted@[k]),
                i <= comp@.len(),
                comp@.no_duplicates(),
                forall|g: FaceId| #[trigger] comp@.contains(g) <==> (m0.has_face(face_id) && m0.has_face(g) && m0.linked(m0.face_set(), face_id, g)),
                self.groups == d0.groups,
                self.face_to_group == d0.face_to_group,
                self.selection == d0.selection,
                self.guides == d0.guides,
                self.solid_face_ids == d0.solid_face_ids,
                self.wf(),
                self.mesh.wf(),
                self.mesh.same_vertices(&m0),
                self.mesh.face_slots() == m0.face_slots(),
                forall|g: FaceId| #[trigger] self.mesh.has_face(g) == m0.has_face(g),
                forall|g: FaceId|
                    m0.has_face(g) ==> #[trigger] self.mesh.face(g) == if comp@.take(i as int).contains(g) && g != face_id
                        && !just_created@.contains(g) {
                        split_loops(m0.face(g), sv)
                    } else {
                        m0.face(g)
                    },
            decreases comp@.len() - i,
        {
            let g = comp[i];
            proof {
                assert(comp@.contains(g));
                assert forall|h: FaceId| #[trigger] comp@.take(i as int + 1).contains(h) == (comp@.take(i as int).contains(h) || h == g) by {
                    lemma_take_contains(comp@, i as int, h);
                }
                assert(!comp@.take(i as int).contains(g)) by {
                    if comp@.take(i as int).contains(g) {
                        let k = choose|k: int| 0 <= k < comp@.take(i as int).len() && #[trigger] comp@.take(i as int)[k] == g;
                        assert(comp@[k] == comp@[i as int]);
                    }
                }
            }
            if g != face_id && !crate::selection::ids_contain(just_created, g) {
                let face = self.mesh.get_face(g).unwrap();
                let outer = split_ring_exec(&face.outer, splits);
                let mut holes: Vec<Vec<VertexId>> = Vec::new();
                let mut h: usize = 0;
                while h < face.holes.len()
                    invariant
                        sv == splits_view(splits@),
                        h <= face.holes@.len(),
                        rings_view(holes@) == rings_view(face.holes@).take(h as int).map_values(|r: Seq<VertexId>| split_ring(r, sv)),
                    decreases face.holes@.len() - h,
                {
                    let ring = split_ring_exec(&face.holes[h], splits);
                    let ghost hb = holes@;
                    let ghost rg = ring@;
                    holes.push(ring);
                    proof {
                        let want = rings_view(face.holes@).take(h as int + 1).map_values(|r: Seq<VertexId>| split_ring(r, sv));
                        assert(rings_view(face.holes@).take(h as int).len() == h);
                        assert(rings_view(hb).len() == hb.len());
                        assert(hb.len() == h);
                        assert(rings_view(face.holes@)[h as int] == face.holes@[h as int]@);
                        let had = rings_view(face.holes@).take(h as int).map_values(|r: Seq<VertexId>| split_ring(r, sv));
                        assert forall|k: int| 0 <= k < h + 1 implies #[trigger] rings_view(holes@)[k] == want[k] by {
                            if k < h {
                                assert(holes@[k] == hb[k]);
                                assert(rings_view(hb)[k] == had[k]);
                            } else {
                                assert(holes@[k]@ == rg);
                            }
                        }
                        assert(rings_view(holes@) =~= want);
                    }
                    h = h + 1;
                }
                proof {
                    assert(rings_view(face.holes@).take(face.holes@.len() as int) =~= rings_view(face.holes@));
                    assert(face@ == self.mesh.face(g));
                    assert(self.mesh.face(g) == m0.face(g));
                    let newf = (outer@, rings_view(holes@));
                    assert(newf == split_loops(m0.face(g), sv));
                    assert forall|v: VertexId| #[trigger] face_has_vertex(newf, v) implies self.mesh.has_vertex(v) by {
                        if outer@.contains(v) {
                            if m0.face(g).0.len() >= 2 {
                                lemma_split_ring_upto_vertices(m0.face(g).0, sv, m0.face(g).0.len() as int, v);
                            }
                        } else {
                            let q = choose|q: int| 0 <= q < newf.1.len() && #[trigger] newf.1[q].contains(v);
                            let hr = m0.face(g).1[q];
                            assert(newf.1[q] == split_ring(hr, sv));
                            if hr.len() >= 2 {
                                lemma_split_ring_upto_vertices(hr, sv, hr.len() as int, v);
                            }
                            if hr.contains(v) {
                                assert(face_has_vertex(m0.face(g), v));
                            }
                        }
                        if m0.face(g).0.contains(v) {
                            assert(face_has_vertex(m0.face(g), v));
                        }
                        if split_vertex(sv, v) {
                            let (q, k) = choose|q: int, k: int| 0 <= q < sv.len() && 0 <= k < sv[q].2.len() && #[trigger] sv[q].2[k] == v;
                            assert(splits@[q].inserted@[k] == v);
                        }
                    }
                }
                let ghost before = self.mesh;
                self.mesh.set_face_loops(g, outer, holes);
            }
            i = i + 1;
        }
        proof {
            assert(comp@.take(comp@.len() as int) =~= comp@);
            Self::lemma_same_group_fields(self, &d0);
            assert forall|g: FaceId| m0.has_face(g) implies #[trigger] self.mesh.face(g) == if d0.split_sibling(face_id, splits@.len(), just_created@, g) {
                split_loops(m0.face(g), sv)
            } else {
                m0.face(g)
            } by {
                if comp@.contains(g) && g != face_id && !just_created@.contains(g) {
                    assert(d0.split_sibling(face_id, splits@.len(), just_created@, g));
                }
            }
        }
    }

    /// Files every face of `ids` under group `g` (which exists).
    fn file_all_under(&mut self, ids: &Vec<FaceId>, g: GroupId)
        requires
            old(self).wf(),
        ensures
            final(self).wf(),
            forall|x: FaceId| #[trigger] final(self).group_of(x) == if ids@.contains(x) {
                Some(g)
            } else {
                old(self).group_of(x)
            },
            final(self).groups == old(self).groups,
            final(self).mesh == old(self).mesh,
            final(self).selection == old(self).selection,
            final(self).guides == old(self).guides,
            final(self).solid_face_ids == old(self).solid_face_ids,
    {
        let ghost d2 = *self;
        let mut j: usize = 0;
        while j < ids.len()
            invariant
                self.wf(),
                j <= ids@.len(),
                self.groups == d2.groups,
                self.mesh == d2.mesh,
                self.selection == d2.selection,
                self.guides == d2.guides,
                self.solid_face_ids == d2.solid_face_ids,
                forall|x: FaceId|
                    #[trigger] self.group_of(x) == if ids@.take(j as int).contains(x) {
                        Some(g)
                    } else {
                        d2.group_of(x)
                    },
            decreases ids@.len() - j,
        {
            let f = ids[j];
            self.file_under(f, g);
            proof {
                assert forall|x: FaceId| #[trigger] ids@.take(j as int + 1).contains(x) == (ids@.take(j as int).contains(x) || x == f) by {
                    lemma_take_contains(ids@, j as int, x);
                }
            }
            j = j + 1;
        }
        proof {
            assert(ids@.take(ids@.len() as int) =~= ids@);
        }
    }

    /// Finishes a resplit that rebuilt face `face_id` as the faces
    /// `new_faces`: the source face is erased, and the new faces inherit
    /// its group and its standing as a solid face.
    pub fn replace_face_with(&mut self, face_id: FaceId, new_faces: &Vec<FaceId>)
        requires
            old(self).wf(),
            !new_faces@.contains(face_id),
        ensures
            final(self).wf(),
            final(self).refiled(old(self), face_id, new_faces@),
            final(self).solids() == if old(self).solids().contains(face_id) {
                old(self).solids().remove(face_id).union(new_faces@.to_set())
            } else {
                old(self).solids().remove(face_id)
            },
            final(self).selected() == old(self).selected().remove(face_id),
            final(self).guide_list() == old(self).guide_list(),
            !final(self).the_mesh().has_face(face_id),
            final(self).the_mesh().same_faces_except(&old(self).the_mesh(), face_id),
            final(self).the_mesh().same_vertices(&old(self).the_mesh()),
            final(self).the_mesh().face_slots() == old(self).the_mesh().face_slots(),
            old(self).the_mesh().wf() ==> final(self).the_mesh().wf(),
    {
        let ghost d0 = *self;
        let was_grouped = self.group_of_face(face_id);
        let was_solid = self.is_solid(face_id);
        self.erase_face(face_id);
        let ghost d1 = *self;
        match was_grouped {
            Some(g) => {
                if self.group_exists(g) {
                    self.append_members(g, new_faces);
                    let ghost d2 = *self;
                    self.file_all_under(new_faces, g);
                    proof {
                        assert forall|h: FaceId| #[trigger] d2.group_of(h) == d1.group_of(h) by {
                            assert(d2.face_to_group@ == d1.face_to_group@);
                        }
                        assert forall|gg: GroupId| #[trigger] self.has_group(gg) == d2.has_group(gg) by {}
                        assert forall|gg: GroupId| d1.has_group(gg) implies #[trigger] self.group(gg) == if gg == g {
                            (d1.group(gg).0, d1.group(gg).1 + new_faces@)
                        } else {
                            d1.group(gg)
                        } by {
                            assert(self.group(gg) == d2.group(gg));
                        }
                    }
                }
            },
            None => {},
        }
        let ghost d3 = *self;
        if was_solid {
            list_add_all(&mut self.solid_face_ids, new_faces.as_slice());
        }
        proof {
            Self::lemma_same_group_fields(self, &d3);
            let filed = d0.group_of(face_id);
            let live = filed is Some && d0.has_group(filed.unwrap());
            assert forall|k: int| 0 <= k < new_faces@.len() implies #[trigger] self.group_of(new_faces@[k]) == if live {
                filed
            } else {
                d0.group_of(new_faces@[k])
            } by {
                assert(new_faces@.contains(new_faces@[k]));
                assert(new_faces@[k] != face_id);
            }
            assert forall|h: FaceId| h != face_id && !new_faces@.contains(h) implies #[trigger] self.group_of(h) == d0.group_of(h) by {}
            assert forall|g: GroupId| d0.has_group(g) implies #[trigger] self.group(g) == if filed == Some(g) {
                (d0.group(g).0, without_face(d0.group(g).1, face_id) + new_faces@)
            } else {
                d0.group(g)
            } by {
                assert(d1.has_group(g));
            }
        }
    }

    /// Erases every face of `face_ids` (see `erase_face`), in order.
    pub fn erase_faces(&mut self, face_ids: &Vec<FaceId>)
        requires
            old(self).wf(),
        ensures
            final(self).wf(),
            final(self).selected() == old(self).selected().difference(face_ids@.to_set()),
            final(self).solids() == old(self).solids().difference(face_ids@.to_set()),
            final(self).guide_list() == old(self).guide_list(),
            forall|f: FaceId| #[trigger] face_ids@.contains(f) ==> !final(self).the_mesh().has_face(f) && final(self).group_of(f) is None,
            forall|f: FaceId| !face_ids@.contains(f) ==> #[trigger] final(self).group_of(f) == old(self).group_of(f),
            forall|f: FaceId|
                !face_ids@.contains(f) ==> (#[trigger] final(self).the_mesh().has_face(f) == old(self).the_mesh().has_face(f)),
            forall|f: FaceId|
                !face_ids@.contains(f) && old(self).the_mesh().has_face(f) ==> #[trigger] final(self).the_mesh().face(f)
                    == old(self).the_mesh().face(f),
            final(self).the_mesh().same_vertices(&old(self).the_mesh()),
            final(self).the_mesh().face_slots() == old(self).the_mesh().face_slots(),
            final(self).group_slots() == old(self).group_slots(),
            forall|g: GroupId| #[trigger] final(self).has_group(g) == old(self).has_group(g),
            forall|g: GroupId|
                old(self).has_group(g) ==> #[trigger] final(self).group(g) == (old(self).group(g).0, old(self).members_kept(
                    g,
                    face_ids@,
                )),
            old(self).the_mesh().wf() ==> final(self).the_mesh().wf(),
    {
        let ghost d0 = *self;
        let ghost ids = face_ids@;
        proof {
            assert forall|g: GroupId| d0.has_group(g) implies #[trigger] d0.members_kept(g, ids.take(0)) == d0.group(g).1 by {
                lemma_filter_all(d0.group(g).1, d0.stays_in(g, ids.take(0)));
            }
            assert(d0.selected().difference(ids.take(0).to_set()) =~= d0.selected());
            assert(d0.solids().difference(ids.take(0).to_set()) =~= d0.solids());
        }
        let mut i: usize = 0;
        while i < face_ids.len()
            invariant
                self.wf(),
                ids == face_ids@,
                i <= ids.len(),
                self.selected() == d0.selected().difference(ids.take(i as int).to_set()),
                self.solids() == d0.solids().difference(ids.take(i as int).to_set()),
                self.guide_list() == d0.guide_list(),
                forall|f: FaceId|
                    #[trigger] self.group_of(f) == if ids.take(i as int).contains(f) {
                        None
                    } else {
                        d0.group_of(f)
                    },
                forall|f: FaceId| #[trigger] ids.take(i as int).contains(f) ==> !self.the_mesh().has_face(f),
                forall|f: FaceId|
                    !ids.take(i as int).contains(f) ==> (#[trigger] self.the_mesh().has_face(f) == d0.the_mesh().has_face(f)),
                forall|f: FaceId|
                    !ids.take(i as int).contains(f) && d0.the_mesh().has_face(f) ==> #[trigger] self.the_mesh().face(f)
                        == d0.the_mesh().face(f),
                self.the_mesh().same_vertices(&d0.the_mesh()),
                self.the_mesh().face_slots() == d0.the_mesh().face_slots(),
                self.group_slots() == d0.group_slots(),
                forall|g: GroupId| #[trigger] self.has_group(g) == d0.has_group(g),
                forall|g: GroupId| d0.has_group(g) ==> #[trigger] self.group(g) == (d0.group(g).0, d0.members_kept(g, ids.take(i as int))),
                d0.the_mesh().wf() ==> self.the_mesh().wf(),
            decreases ids.len() - i,
        {
            let f = face_ids[i];
            let ghost cur = *self;
            self.erase_face(f);
            proof {
                assert forall|x: FaceId| #[trigger] ids.take(i as int + 1).contains(x) == (ids.take(i as int).contains(x) || x == f) by {
                    lemma_take_contains(ids, i as int, x);
                }
                assert(ids.take(i as int + 1).to_set() =~= ids.take(i as int).to_set().insert(f));
                assert(self.selected() =~= d0.selected().difference(ids.take(i as int + 1).to_set()));
                assert(self.solids() =~= d0.solids().difference(ids.take(i as int + 1).to_set()));
                assert forall|g: GroupId| d0.has_group(g) implies #[trigger] self.group(g) == (
                    d0.group(g).0,
                    d0.members_kept(g, ids.take(i as int + 1)),
                ) by {
                    let pi = d0.stays_in(g, ids.take(i as int));
                    let pn = d0.stays_in(g, ids.take(i as int + 1));
                    assert(cur.group(g) == (d0.group(g).0, d0.group(g).1.filter(pi)));
                    if cur.group_of(f) == Some(g) {
                        assert(self.group(g) == (cur.group(g).0, without_face(cur.group(g).1, f)));
                        lemma_filter_twice(d0.group(g).1, pi, other_than(f), pn);
                    } else {
                        assert(self.group(g) == cur.group(g));
                        lemma_filter_same(d0.group(g).1, pi, pn);
                    }
                }
                assert forall|x: FaceId|
                    !ids.take(i as int + 1).contains(x) && d0.the_mesh().has_face(x) implies #[trigger] self.the_mesh().face(x)
                        == d0.the_mesh().face(x) by {
                    assert(cur.the_mesh().face(x) == d0.the_mesh().face(x));
                }
                assert forall|x: FaceId| #[trigger] ids.take(i as int + 1).contains(x) implies !self.the_mesh().has_face(x) by {}
                assert forall|x: FaceId| !ids.take(i as int + 1).contains(x) implies (#[trigger] self.the_mesh().has_face(x) == d0.the_mesh().has_face(x)) by {}
            }
            i = i + 1;
        }
        proof {
            assert(ids.take(ids.len() as int) =~= ids);
        }
    }

    /// The faces that are not solid faces - flat sketches - in increasing
    /// id order: the faces a new sketch on their plane may merge with.
    pub fn sketch_face_ids(&self) -> (r: Vec<FaceId>)
        ensures
            forall|i: int| 0 <= i < r@.len() ==> self.the_mesh().has_face(#[trigger] r@[i]) && !self.solids().contains(r@[i]),
            forall|f: FaceId| self.the_mesh().has_face(f) && !self.solids().contains(f) ==> r@.contains(f),
            forall|i: int, j: int| 0 <= i < j < r@.len() ==> (#[trigger] r@[i]).0 < (#[trigger] r@[j]).0,
    {
        let all = self.mesh.face_ids();
        let mut out: Vec<FaceId> = Vec::new();
        let mut i: usize = 0;
        while i < all.len()
            invariant
                i <= all@.len(),
                forall|k: int| 0 <= k < all@.len() ==> self.mesh.has_face(#[trigger] all@[k]),
                forall|f: FaceId| self.mesh.has_face(f) ==> all@.contains(f),
                forall|k: int, j: int| 0 <= k < j < all@.len() ==> (#[trigger] all@[k]).0 < (#[trigger] all@[j]).0,
                forall|k: int| 0 <= k < out@.len() ==> self.mesh.has_face(#[trigger] out@[k]) && !self.solids().contains(out@[k]),
                forall|k: int| 0 <= k < i && !self.solids().contains(#[trigger] all@[k]) ==> out@.contains(all@[k]),
                forall|k: int| 0 <= k < out@.len() ==> exists|j: int| 0 <= j < i && (#[trigger] out@[k]) == all@[j],
                forall|k: int, j: int| 0 <= k < j < out@.len() ==> (#[trigger] out@[k]).0 < (#[trigger] out@[j]).0,
            decreases all@.len() - i,
        {
            let f = all[i];
            if !self.is_solid(f) {
                let ghost ob = out@;
                out.push(f);
                proof {
                    assert forall|k: int, j: int| 0 <= k < j < out@.len() implies (#[trigger] out@[k]).0 < (#[trigger] out@[j]).0 by {
                        if j == ob.len() {
                            let q = choose|q: int| 0 <= q < i && ob[k] == all@[q];
                            assert(all@[q].0 < all@[i as int].0);
                        }
                    }
                    assert forall|k: int| 0 <= k < i + 1 && !self.solids().contains(#[trigger] all@[k]) implies out@.contains(all@[k]) by {
                        if k < i {
                            assert(ob.contains(all@[k]));
                            let q = choose|q: int| 0 <= q < ob.len() && ob[q] == all@[k];
                            assert(out@[q] == all@[k]);
                        } else {
                            assert(out@[ob.len() as int] == all@[k]);
                        }
                    }
                    assert forall|k: int| 0 <= k < out@.len() implies exists|j: int| 0 <= j < i + 1 && (#[trigger] out@[k]) == all@[j] by {
                        if k < ob.len() {
                            let q = choose|q: int| 0 <= q < i && ob[k] == all@[q];
                            assert(out@[k] == all@[q]);
                        } else {
                            assert(out@[k] == all@[i as int]);
                        }
                    }
                }
            }
            i = i + 1;
        }
        proof {
            assert forall|f: FaceId| self.mesh.has_face(f) && !self.solids().contains(f) implies out@.contains(f) by {
                let q = choose|q: int| 0 <= q < all@.len() && all@[q] == f;
                assert(!self.solids().contains(all@[q]));
            }
        }
        out
    }

    /// Every vertex of the faces connected to face `face_id` (its whole
    /// solid, or flat sketch group): the vertices a loop drawn on it may
    /// weld onto.
    pub fn connected_component_vertices(&self, face_id: FaceId) -> (r: Vec<VertexId>)
        ensures
            forall|v: VertexId| #[trigger] r@.contains(v) <==> exists|g: FaceId|
                self.the_mesh().has_face(face_id) && self.the_mesh().has_face(g) && self.the_mesh().linked(
                    self.the_mesh().face_set(),
                    face_id,
                    g,
                ) && #[trigger] face_has_vertex(self.the_mesh().face(g), v),
    {
        let r = self.mesh.component_vertices(face_id);
        proof {
            assert forall|v: VertexId| #[trigger] r@.contains(v) <==> exists|g: FaceId|
                self.the_mesh().has_face(face_id) && self.the_mesh().has_face(g) && self.the_mesh().linked(
                    self.the_mesh().face_set(),
                    face_id,
                    g,
                ) && #[trigger] face_has_vertex(self.the_mesh().face(g), v) by {
                if r@.contains(v) {
                    let g = choose|g: FaceId|
                        self.mesh.has_face(face_id) && self.mesh.has_face(g) && self.mesh.linked(self.mesh.face_set(), face_id, g)
                            && #[trigger] face_has_vertex(self.mesh.face(g), v);
                    assert(face_has_vertex(self.the_mesh().face(g), v));
                }
                if exists|g: FaceId|
                    self.the_mesh().has_face(face_id) && self.the_mesh().has_face(g) && self.the_mesh().linked(
                        self.the_mesh().face_set(),
                        face_id,
                        g,
                    ) && #[trigger] face_has_vertex(self.the_mesh().face(g), v) {
                    let g = choose|g: FaceId|
                        self.the_mesh().has_face(face_id) && self.the_mesh().has_face(g) && self.the_mesh().linked(
                            self.the_mesh().face_set(),
                            face_id,
                            g,
                        ) && #[trigger] face_has_vertex(self.the_mesh().face(g), v);
                    assert(face_has_vertex(self.mesh.face(g), v));
                }
            }
        }
        r
    }

    /// Runs the watertightness check on the printable solids, part by part:
    /// the solid faces are split into connected components, each
    /// component's faces are triangulated with `triangulate` and checked
    /// with `check_manifold`, and the findings are gathered (see
    /// `ModelReport::gathers`).
    pub fn check_model<T: Fn(FaceId) -> Vec<[VertexId; 3]>>(&self, triangulate: &T) -> (report: ModelReport)
        requires
            forall|f: FaceId| triangulate.requires((f,)),
        ensures
            exists|ids: Seq<FaceId>, comps: Seq<Seq<FaceId>>, tris: Seq<Vec<(FaceId, Vec<[VertexId; 3]>)>>, issues: Seq<ManifoldIssues>|
                {
                    &&& solid_id_list(*self, ids)
                    &&& self.the_mesh().is_component_split(ids, comps)
                    &&& components_in_order(ids, comps)
                    &&& tris.len() == comps.len()
                    &&& forall|k: int|
                        0 <= k < comps.len() ==> (#[trigger] tris[k])@.len() == comps[k].len() && forall|i: int|
                            0 <= i < comps[k].len() ==> tris[k]@[i].0 == comps[k][i] && triangulate.ensures(
                                (comps[k][i],),
                                tris[k]@[i].1,
                            )
                    &&& forall|k: int| 0 <= k < comps.len() ==> (#[trigger] issues[k]).describes(all_edges(triangulation_view(tris[k]@)))
                    &&& report.gathers(comps, issues)
                },
    {
        let solid = self.solid_boundary_face_ids();
        let ghost sid = solid@;
        proof {
            assert(solid_id_list(*self, sid));
        }
        let comps = self.mesh.connected_components(solid.as_slice());
        let ghost cv = id_lists_view(comps@);
        let mut report = ModelReport {
            part_count: comps.len(),
            broken_part_count: 0,
            open_edges: Vec::new(),
            duplicate_edges: Vec::new(),
            problem_face_ids: Vec::new(),
        };
        let ghost mut tris_g: Seq<Vec<(FaceId, Vec<[VertexId; 3]>)>> = Seq::empty();
        let ghost mut issues_g: Seq<ManifoldIssues> = Seq::empty();
        let mut k: usize = 0;
        proof {
            assert(report.open_edges@ =~= flat(issues_g.map_values(|i: ManifoldIssues| i.open_edges@)));
            assert(report.duplicate_edges@ =~= flat(issues_g.map_values(|i: ManifoldIssues| i.duplicate_edges@)));
            assert(report.problem_face_ids@ =~= flat(issues_g.map_values(|i: ManifoldIssues| i.problem_faces@)));
        }
        while k < comps.len()
            invariant
                cv == id_lists_view(comps@),
                forall|f: FaceId| triangulate.requires((f,)),
                k <= comps@.len(),
                report.part_count == comps@.len(),
                tris_g.len() == k,
                issues_g.len() == k,
                forall|q: int|
                    0 <= q < k ==> (#[trigger] tris_g[q])@.len() == cv[q].len() && forall|i: int|
                        0 <= i < cv[q].len() ==> tris_g[q]@[i].0 == cv[q][i] && triangulate.ensures((cv[q][i],), tris_g[q]@[i].1),
                forall|q: int| 0 <= q < k ==> (#[trigger] issues_g[q]).describes(all_edges(triangulation_view(tris_g[q]@))),
                report.broken_part_count == broken_count(issues_g),
                report.broken_part_count <= k,
                report.open_edges@ == flat(issues_g.map_values(|i: ManifoldIssues| i.open_edges@)),
                report.duplicate_edges@ == flat(issues_g.map_values(|i: ManifoldIssues| i.duplicate_edges@)),
                report.problem_face_ids@ == flat(issues_g.map_values(|i: ManifoldIssues| i.problem_faces@)),
            decreases comps@.len() - k,
        {
            let comp = &comps[k];
            proof {
                assert(cv[k as int] == comp@);
            }
            let mut tris: Vec<(FaceId, Vec<[VertexId; 3]>)> = Vec::new();
            let mut i: usize = 0;
            while i < comp.len()
                invariant
                    forall|f: FaceId| triangulate.requires((f,)),
                    i <= comp@.len(),
                    tris@.len() == i,
                    forall|q: int| 0 <= q < i ==> (#[trigger] tris@[q]).0 == comp@[q] && triangulate.ensures((comp@[q],), tris@[q].1),
                decreases comp@.len() - i,
            {
                let f = comp[i];
                let t = triangulate(f);
                tris.push((f, t));
                i = i + 1;
            }
            let issues = check_manifold(&tris);
            let empty = issues.is_empty();
            let ghost old_issues = issues_g;
            let ghost ob = report.open_edges@;
            let ghost db = report.duplicate_edges@;
            let ghost pb = report.problem_face_ids@;
            let ghost iss = issues;
            proof {
                tris_g = tris_g.push(tris);
                issues_g = issues_g.push(iss);
                assert(issues_g.drop_last() =~= old_issues);
                assert(issues_g.map_values(|i: ManifoldIssues| i.open_edges@).drop_last() =~= old_issues.map_values(|i: ManifoldIssues| i.open_edges@));
                assert(issues_g.map_values(|i: ManifoldIssues| i.duplicate_edges@).drop_last() =~= old_issues.map_values(|i: ManifoldIssues| i.duplicate_edges@));
                assert(issues_g.map_values(|i: ManifoldIssues| i.problem_faces@).drop_last() =~= old_issues.map_values(|i: ManifoldIssues| i.problem_faces@));
            }
            let ManifoldIssues { mut open_edges, mut duplicate_edges, mut problem_faces } = issues;
            if !empty {
                report.broken_part_count = report.broken_part_count + 1;
            }
            report.open_edges.append(&mut open_edges);
            report.duplicate_edges.append(&mut duplicate_edges);
            report.problem_face_ids.append(&mut problem_faces);
            proof {
                assert forall|q: int|
                    0 <= q < k + 1 implies (#[trigger] tris_g[q])@.len() == cv[q].len() && forall|i: int|
                        0 <= i < cv[q].len() ==> tris_g[q]@[i].0 == cv[q][i] && triangulate.ensures((cv[q][i],), tris_g[q]@[i].1) by {
                    if q == k {
                        assert(tris_g[q] == tris);
                    }
                }
            }
            k = k + 1;
        }
        proof {
            assert(report.gathers(cv, issues_g));
            assert(self.the_mesh().is_component_split(sid, cv));
            assert(components_in_order(sid, cv));
        }
        report
    }

    /// Adds a face with the given loops to the mesh, marking it a solid
    /// face when `solid` holds; filings, selection and guides are left
    /// alone.
    pub(crate) fn add_loaded_face(&mut self, outer: Vec<VertexId>, holes: Vec<Vec<VertexId>>, solid: bool) -> (id: FaceId)
        requires
            old(self).wf(),
            old(self).the_mesh().face_slots() < usize::MAX,
            old(self).the_mesh().loops_exist((outer@, rings_view(holes@))),
        ensures
            final(self).wf(),
            id.0 == old(self).the_mesh().face_slots(),
            final(self).the_mesh().face_slots() == old(self).the_mesh().face_slots() + 1,
            final(self).the_mesh().has_face(id),
            final(self).the_mesh().face(id) == (outer@, rings_view(holes@)),
            final(self).the_mesh().same_faces_except(&old(self).the_mesh(), id),
            final(self).the_mesh().same_vertices(&old(self).the_mesh()),
            old(self).the_mesh().wf() ==> final(self).the_mesh().wf(),
            final(self).solids() == if solid {
                old(self).solids().insert(id)
            } else {
                old(self).solids()
            },
            final(self).same_groups(old(self)),
            final(self).selected() == old(self).selected(),
            final(self).guide_list() == old(self).guide_list(),
    {
        let ghost d0 = *self;
        let id = self.mesh.add_face(outer, holes);
        if solid {
            let one = vec![id];
            list_add_all(&mut self.solid_face_ids, one.as_slice());
            proof {
                assert(one@.to_set() =~= Set::<FaceId>::empty().insert(id)) by {
                    assert(one@[0] == id);
                }
                assert(self.solids() =~= d0.solids().insert(id));
            }
        }
        proof {
            Self::lemma_same_group_fields(self, &d0);
        }
        id
    }

    /// Adds a vertex at `p` to the mesh; nothing else changes.
    pub(crate) fn add_loaded_vertex(&mut self, p: P) -> (id: VertexId)
        requires
            old(self).wf(),
            old(self).the_mesh().vertex_slots() < usize::MAX,
        ensures
            final(self).wf(),
            id.0 == old(self).the_mesh().vertex_slots(),
            final(self).the_mesh().vertex_slots() == old(self).the_mesh().vertex_slots() + 1,
            final(self).the_mesh().has_vertex(id),
            final(self).the_mesh().pos(id) == p,
            forall|v: VertexId| v != id ==> (#[trigger] final(self).the_mesh().has_vertex(v) == old(self).the_mesh().has_vertex(v)),
            forall|v: VertexId| v != id && old(self).the_mesh().has_vertex(v) ==> #[trigger] final(self).the_mesh().pos(v) == old(self).the_mesh().pos(v),
            final(self).the_mesh().same_faces(&old(self).the_mesh()),
            old(self).the_mesh().wf() ==> final(self).the_mesh().wf(),
            final(self).solids() == old(self).solids(),
            final(self).same_groups(old(self)),
            final(self).selected() == old(self).selected(),
            final(self).guide_list() == old(self).guide_list(),
    {
        let ghost d0 = *self;
        let id = self.mesh.add_vertex(p);
        proof {
            Self::lemma_same_group_fields(self, &d0);
        }
        id
    }

    /// Re-detects faces over `loops` in the mesh (see
    /// `resplit::resplit_loops`); only the mesh changes.
    pub(crate) fn resplit_loops_here<W: Fn(VertexId, VertexId) -> bool, D: Fn(&Vec<VertexId>, &Vec<(usize, usize)>) -> Vec<DetectedFace>>(
        &mut self,
        loops: &Vec<Vec<VertexId>>,
        protected: &Vec<Vec<VertexId>>,
        weld: &W,
        detect: &D,
    ) -> (r: Vec<FaceId>)
        requires
            old(self).wf(),
            forall|a: VertexId, b: VertexId| weld.requires((a, b)),
            forall|p: &Vec<VertexId>, e: &Vec<(usize, usize)>| detect.requires((p, e)),
            forall|p: &Vec<VertexId>, e: &Vec<(usize, usize)>, out: Vec<DetectedFace>|
                detect.ensures((p, e), out) ==> points_in_range(detected_view(out@), p@.len()),
            loops_exist(old(self).the_mesh(), rings_view(loops@)),
        ensures
            final(self).wf(),
            exists|reps: Vec<VertexId>, edges: Vec<(usize, usize)>, ix: Map<VertexId, usize>, detected: Vec<DetectedFace>|
                {
                    &&& #[trigger] welded_graph(rings_view(loops@), *weld, reps@, edges@, ix)
                    &&& detect.ensures((&reps, &edges), detected)
                    &&& #[trigger] faces_redetected(old(self).the_mesh(), final(self).the_mesh(), detected@, reps@, rings_view(protected@), r@)
                },
            final(self).solids() == old(self).solids(),
            final(self).same_groups(old(self)),
            final(self).selected() == old(self).selected(),
            final(self).guide_list() == old(self).guide_list(),
    {
        let ghost d0 = *self;
        let r = resplit_loops(&mut self.mesh, loops, protected, weld, detect);
        proof {
            Self::lemma_same_group_fields(self, &d0);
            let (reps, edges, ix, detected) = choose|reps: Vec<VertexId>, edges: Vec<(usize, usize)>, ix: Map<VertexId, usize>, detected: Vec<DetectedFace>|
                {
                    &&& #[trigger] welded_graph(rings_view(loops@), *weld, reps@, edges@, ix)
                    &&& detect.ensures((&reps, &edges), detected)
                    &&& #[trigger] faces_redetected(d0.mesh, self.mesh, detected@, reps@, rings_view(protected@), r@)
                };
            assert(welded_graph(rings_view(loops@), *weld, reps@, edges@, ix));
            assert(faces_redetected(d0.the_mesh(), self.the_mesh(), detected@, reps@, rings_view(protected@), r@));
        }
        r
    }

    /// Moves the existing vertex `v` to `p`; nothing else changes.
    pub(crate) fn move_vertex(&mut self, v: VertexId, p: P)
        requires
            old(self).wf(),
            old(self).the_mesh().has_vertex(v),
        ensures
            final(self).wf(),
            final(self).the_mesh().vertex_slots() == old(self).the_mesh().vertex_slots(),
            forall|w: VertexId| #[trigger] final(self).the_mesh().has_vertex(w) == old(self).the_mesh().has_vertex(w),
            final(self).the_mesh().pos(v) == p,
            forall|w: VertexId| w != v && old(self).the_mesh().has_vertex(w) ==> #[trigger] final(self).the_mesh().pos(w) == old(self).the_mesh().pos(w),
            final(self).the_mesh().same_faces(&old(self).the_mesh()),
            old(self).the_mesh().wf() ==> final(self).the_mesh().wf(),
            final(self).solids() == old(self).solids(),
            final(self).same_groups(old(self)),
            final(self).selected() == old(self).selected(),
            final(self).guide_list() == old(self).guide_list(),
    {
        let ghost d0 = *self;
        self.mesh.set_position(v, p);
        proof {
            Self::lemma_same_group_fields(self, &d0);
        }
    }

    /// Replaces the guides.
    pub(crate) fn set_guides(&mut self, guides: Vec<Guide<P>>)
        requires
            old(self).wf(),
        ensures
            final(self).wf(),
            final(self).guide_list() == guides@,
            final(self).the_mesh() == old(self).the_mesh(),
            final(self).solids() == old(self).solids(),
            final(self).same_groups(old(self)),
            final(self).selected() == old(self).selected(),
    {
        let ghost d0 = *self;
        self.guides = guides;
        proof {
            Self::lemma_same_group_fields(self, &d0);
        }
    }
}

/// Law: undo gives back the document as it was before the edit. Recording
/// pushes a copy of the live document that holds the same of everything
/// (see `Document::clone`); whatever edit follows, undoing brings that
/// copy back as the live document and puts the edited one on the redo
/// stack.
pub proof fn lemma_undo_restores_document<P: Copy>(h: HistoryState<Document<P>>, copy: Document<P>, edited: Document<P>)
    requires
        cloned(h.0, copy),
    ensures
        copy@ == h.0@,
        undo_step((edited, record_step(h, copy).1, record_step(h, copy).2)).0@ == h.0@,
        undo_step((edited, record_step(h, copy).1, record_step(h, copy).2)).2 == seq![edited],
{
    let r = record_step(h, copy);
    assert(r.1.last() == copy);
    assert(Seq::<Document<P>>::empty().push(edited) =~= seq![edited]);
}

} // verus!
