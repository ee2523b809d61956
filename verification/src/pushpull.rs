use vstd::prelude::*;

use crate::mesh::{
    copy_ring, copy_rings, face_has_vertex, lemma_rings_exist_carry, lemma_rings_exist_loops, lemma_wf_face_rings,
    rings_exist, rings_view, FaceId, Mesh, VertexId,
};

verus! {

/// A directed triangle edge `(from, to)` and the face whose triangle it
/// bounds.
pub type DirectedEdge = (VertexId, VertexId, FaceId);

pub open spec fn triangle_edges(f: FaceId, t: [VertexId; 3]) -> Seq<DirectedEdge> {
    seq![(t[0], t[1], f), (t[1], t[2], f), (t[2], t[0], f)]
}

pub open spec fn face_edges(f: FaceId, tris: Seq<[VertexId; 3]>) -> Seq<DirectedEdge>
    decreases tris.len(),
{
    if tris.len() == 0 {
        Seq::empty()
    } else {
        face_edges(f, tris.drop_last()) + triangle_edges(f, tris.last())
    }
}

/// The view of a face's triangulation.
pub open spec fn triangulation_view(v: Seq<(FaceId, Vec<[VertexId; 3]>)>) -> Seq<(FaceId, Seq<[VertexId; 3]>)> {
    v.map_values(|e: (FaceId, Vec<[VertexId; 3]>)| (e.0, e.1@))
}

/// Every directed edge of every triangle, in order: face by face, triangle
/// by triangle, and `t0 -> t1 -> t2 -> t0` within a triangle.
pub open spec fn all_edges(tris: Seq<(FaceId, Seq<[VertexId; 3]>)>) -> Seq<DirectedEdge>
    decreases tris.len(),
{
    if tris.len() == 0 {
        Seq::empty()
    } else {
        all_edges(tris.drop_last()) + face_edges(tris.last().0, tris.last().1)
    }
}

/// How often the directed edge `a -> b` occurs in `edges`.
pub open spec fn edge_count(edges: Seq<DirectedEdge>, a: VertexId, b: VertexId) -> nat
    decreases edges.len(),
{
    if edges.len() == 0 {
        0
    } else {
        edge_count(edges.drop_last(), a, b) + if edges.last().0 == a && edges.last().1 == b {
            1nat
        } else {
            0nat
        }
    }
}

/// Face `f` contributes the directed edge `a -> b`.
pub open spec fn contributes(edges: Seq<DirectedEdge>, a: VertexId, b: VertexId, f: FaceId) -> bool {
    exists|j: int| 0 <= j < edges.len() && edges[j] == (a, b, f)
}

/// `a -> b` occurs more than once in the same direction.
pub open spec fn is_duplicate_edge(edges: Seq<DirectedEdge>, a: VertexId, b: VertexId) -> bool {
    edge_count(edges, a, b) > 1
}

/// `a -> b` occurs exactly once and never the other way.
pub open spec fn is_open_edge(edges: Seq<DirectedEdge>, a: VertexId, b: VertexId) -> bool {
    edge_count(edges, a, b) == 1 && edge_count(edges, b, a) == 0
}

pub open spec fn is_problem_edge(edges: Seq<DirectedEdge>, a: VertexId, b: VertexId) -> bool {
    is_duplicate_edge(edges, a, b) || is_open_edge(edges, a, b)
}

/// Every directed edge is matched by exactly one twin and occurs once.
pub open spec fn edges_pair_up(edges: Seq<DirectedEdge>) -> bool {
    forall|j: int|
        0 <= j < edges.len() ==> edge_count(edges, (#[trigger] edges[j]).0, edges[j].1) == 1 && edge_count(
            edges,
            edges[j].1,
            edges[j].0,
        ) == 1
}

/// The specific edges that make a face set fail the watertightness check,
/// retained so the UI can point at the broken spot instead of only saying
/// "something is open somewhere". See `check_manifold`.
#[derive(Debug, Clone)]
pub struct ManifoldIssues {
    /// Triangulated edges with no opposite-direction twin: an open border -
    /// a missing or erased face, or two faces meeting at a T-junction.
    pub open_edges: Vec<(VertexId, VertexId)>,
    /// Edges appearing more than once in the same direction: duplicated or
    /// inconsistently wound geometry. Reported once per undirected edge.
    pub duplicate_edges: Vec<(VertexId, VertexId)>,
    /// Every face that contributed one of the above, deduplicated.
    pub problem_faces: Vec<FaceId>,
}

impl ManifoldIssues {
    /// No open and no duplicated edge.
    pub fn is_empty(&self) -> (r: bool)
        ensures
            r == (self.open_edges@.len() == 0 && self.duplicate_edges@.len() == 0),
    {
        self.open_edges.len() == 0 && self.duplicate_edges.len() == 0
    }

    /// The report that `check_manifold` gives for the directed edges `edges`.
    pub open spec fn describes(&self, edges: Seq<DirectedEdge>) -> bool {
        &&& self.open_edges@.no_duplicates()
        &&& forall|a: VertexId, b: VertexId| #[trigger] self.open_edges@.contains((a, b)) <==> is_open_edge(edges, a, b)
        &&& forall|i: int|
            0 <= i < self.duplicate_edges@.len() ==> is_duplicate_edge(
                edges,
                (#[trigger] self.duplicate_edges@[i]).0,
                self.duplicate_edges@[i].1,
            )
        &&& forall|a: VertexId, b: VertexId|
            is_duplicate_edge(edges, a, b) ==> #[trigger] self.duplicate_edges@.contains((a, b))
                || self.duplicate_edges@.contains((b, a))
        &&& forall|i: int, j: int|
            0 <= i < j < self.duplicate_edges@.len() ==> #[trigger] self.duplicate_edges@[i] != #[trigger] self.duplicate_edges@[j]
                && self.duplicate_edges@[i] != (self.duplicate_edges@[j].1, self.duplicate_edges@[j].0)
        &&& self.problem_faces@.no_duplicates()
        &&& forall|f: FaceId| #[trigger] self.problem_faces@.contains(f) <==> exists|a: VertexId, b: VertexId|
            is_problem_edge(edges, a, b) && #[trigger] contributes(edges, a, b, f)
    }
}

pub(crate) proof fn lemma_edge_count_push(edges: Seq<DirectedEdge>, e: DirectedEdge, a: VertexId, b: VertexId)
    ensures
        edge_count(edges.push(e), a, b) == edge_count(edges, a, b) + if e.0 == a && e.1 == b {
            1nat
        } else {
            0nat
        },
{
    assert(edges.push(e).drop_last() =~= edges);
}

pub(crate) proof fn lemma_edge_count_positive(edges: Seq<DirectedEdge>, a: VertexId, b: VertexId)
    ensures
        edge_count(edges, a, b) > 0 <==> exists|j: int| 0 <= j < edges.len() && (#[trigger] edges[j]).0 == a && edges[j].1 == b,
    decreases edges.len(),
{
    if edges.len() > 0 {
        lemma_edge_count_positive(edges.drop_last(), a, b);
        if exists|j: int| 0 <= j < edges.len() && (#[trigger] edges[j]).0 == a && edges[j].1 == b {
            let j = choose|j: int| 0 <= j < edges.len() && (#[trigger] edges[j]).0 == a && edges[j].1 == b;
            if j < edges.len() - 1 {
                assert(edges.drop_last()[j] == edges[j]);
            }
        }
        if exists|j: int| 0 <= j < edges.drop_last().len() && (#[trigger] edges.drop_last()[j]).0 == a && edges.drop_last()[j].1 == b {
            let j = choose|j: int| 0 <= j < edges.drop_last().len() && (#[trigger] edges.drop_last()[j]).0 == a && edges.drop_last()[j].1 == b;
            assert(edges[j] == edges.drop_last()[j]);
        }
    }
}

proof fn lemma_contributes_implies_count(edges: Seq<DirectedEdge>, a: VertexId, b: VertexId, f: FaceId)
    requires
        contributes(edges, a, b, f),
    ensures
        edge_count(edges, a, b) > 0,
{
    let j = choose|j: int| 0 <= j < edges.len() && edges[j] == (a, b, f);
    lemma_edge_count_positive(edges, a, b);
    assert(edges[j].0 == a && edges[j].1 == b);
}

/// Lists every directed triangle edge of `tris`, in order.
pub fn directed_edges(tris: &Vec<(FaceId, Vec<[VertexId; 3]>)>) -> (r: Vec<DirectedEdge>)
    ensures
        r@ == all_edges(triangulation_view(tris@)),
{
    let mut out: Vec<DirectedEdge> = Vec::new();
    let mut i: usize = 0;
    while i < tris.len()
        invariant
            i <= tris@.len(),
            out@ == all_edges(triangulation_view(tris@).take(i as int)),
        decreases tris@.len() - i,
    {
        let f = tris[i].0;
        let list = &tris[i].1;
        let ghost before = out@;
        let mut k: usize = 0;
        while k < list.len()
            invariant
                k <= list@.len(),
                out@ == before + face_edges(f, list@.take(k as int)),
            decreases list@.len() - k,
        {
            let t = list[k];
            out.push((t[0], t[1], f));
            out.push((t[1], t[2], f));
            out.push((t[2], t[0], f));
            proof {
                assert(list@.take(k as int + 1).drop_last() =~= list@.take(k as int));
                assert(list@.take(k as int + 1).last() == t);
                assert(out@ =~= before + face_edges(f, list@.take(k as int + 1)));
            }
            k = k + 1;
        }
        proof {
            let tv = triangulation_view(tris@);
            assert(list@.take(list@.len() as int) =~= list@);
            assert(tv.take(i as int + 1).drop_last() =~= tv.take(i as int));
            assert(tv.take(i as int + 1).last() == (f, list@));
        }
        i = i + 1;
    }
    proof {
        assert(triangulation_view(tris@).take(tris@.len() as int) =~= triangulation_view(tris@));
    }
    out
}

/// Whether `list` holds `f`.
fn face_list_contains(list: &Vec<FaceId>, f: FaceId) -> (r: bool)
    ensures
        r == list@.contains(f),
{
    let mut i: usize = 0;
    while i < list.len()
        invariant
            i <= list@.len(),
            forall|k: int| 0 <= k < i ==> list@[k] != f,
        decreases list@.len() - i,
    {
        if list[i] == f {
            return true;
        }
        i = i + 1;
    }
    false
}

/// Whether `list` holds the pair `e`.
fn pair_list_contains(list: &Vec<(VertexId, VertexId)>, e: (VertexId, VertexId)) -> (r: bool)
    ensures
        r == list@.contains(e),
{
    let mut i: usize = 0;
    while i < list.len()
        invariant
            i <= list@.len(),
            forall|k: int| 0 <= k < i ==> list@[k] != e,
        decreases list@.len() - i,
    {
        if list[i].0 == e.0 && list[i].1 == e.1 {
            return true;
        }
        i = i + 1;
    }
    false
}

/// One entry of the directed-edge tally: the edge, how often it occurs,
/// and which faces contributed it.
pub type EdgeTally = (VertexId, VertexId, usize, Vec<FaceId>);

pub open spec fn tally_faithful(table: Seq<EdgeTally>, edges: Seq<DirectedEdge>) -> bool {
    &&& forall|t: int| 0 <= t < table.len() ==> (#[trigger] table[t]).2 == edge_count(edges, table[t].0, table[t].1)
    &&& forall|t: int| 0 <= t < table.len() ==> (#[trigger] table[t]).2 >= 1
    &&& forall|t: int| 0 <= t < table.len() ==> (#[trigger] table[t]).3@.no_duplicates()
    &&& forall|t: int, f: FaceId| 0 <= t < table.len() ==> ((#[trigger] table[t]).3@.contains(f) <==> #[trigger] contributes(
        edges,
        table[t].0,
        table[t].1,
        f,
    ))
    &&& forall|t: int, u: int| 0 <= t < u < table.len() ==> ((#[trigger] table[t]).0, table[t].1) != ((#[trigger] table[u]).0, table[u].1)
    &&& forall|a: VertexId, b: VertexId| #[trigger] edge_count(edges, a, b) > 0 ==> exists|t: int|
        0 <= t < table.len() && (#[trigger] table[t]).0 == a && table[t].1 == b
}

/// Position of the entry for `a -> b` in `table`, if any.
fn find_tally(table: &Vec<EdgeTally>, a: VertexId, b: VertexId) -> (r: Option<usize>)
    ensures
        match r {
            Some(t) => t < table@.len() && table@[t as int].0 == a && table@[t as int].1 == b,
            None => forall|t: int| 0 <= t < table@.len() ==> !((#[trigger] table@[t]).0 == a && table@[t].1 == b),
        },
{
    let mut t: usize = 0;
    while t < table.len()
        invariant
            t <= table@.len(),
            forall|u: int| 0 <= u < t ==> !((#[trigger] table@[u]).0 == a && table@[u].1 == b),
        decreases table@.len() - t,
    {
        if table[t].0 == a && table[t].1 == b {
            return Some(t);
        }
        t = t + 1;
    }
    None
}

/// Tallies the directed edges of `edges`.
fn tally_edges(edges: &Vec<DirectedEdge>) -> (table: Vec<EdgeTally>)
    ensures
        tally_faithful(table@, edges@),
{
    let mut table: Vec<EdgeTally> = Vec::new();
    let mut i: usize = 0;
    while i < edges.len()
        invariant
            i <= edges@.len(),
            tally_faithful(table@, edges@.take(i as int)),
            forall|t: int| 0 <= t < table@.len() ==> (#[trigger] table@[t]).2 <= i,
        decreases edges@.len() - i,
    {
        let (a, b, f) = edges[i];
        let ghost prev = edges@.take(i as int);
        let ghost next = edges@.take(i as int + 1);
        let ghost old_table = table@;
        proof {
            assert(next =~= prev.push((a, b, f)));
            assert forall|x: VertexId, y: VertexId| #[trigger] edge_count(next, x, y) == edge_count(prev, x, y)
                + if a == x && b == y { 1nat } else { 0nat } by {
                lemma_edge_count_push(prev, (a, b, f), x, y);
            }
            assert forall|x: VertexId, y: VertexId, g: FaceId| #[trigger] contributes(next, x, y, g) <==> (contributes(
                prev,
                x,
                y,
                g,
            ) || (a == x && b == y && f == g)) by {
                if contributes(next, x, y, g) {
                    let j = choose|j: int| 0 <= j < next.len() && next[j] == (x, y, g);
                    if j < prev.len() {
                        assert(prev[j] == next[j]);
                    }
                }
                if contributes(prev, x, y, g) {
                    let j = choose|j: int| 0 <= j < prev.len() && prev[j] == (x, y, g);
                    assert(next[j] == prev[j]);
                }
                if a == x && b == y && f == g {
                    assert(next[prev.len() as int] == (x, y, g));
                }
            }
        }
        match find_tally(&table, a, b) {
            Some(t) => {
                let mut entry = table.remove(t);
                entry.2 = entry.2 + 1;
                if !face_list_contains(&entry.3, f) {
                    entry.3.push(f);
                }
                table.insert(t, entry);
                proof {
                    let nt = table@;
                    assert forall|u: int| 0 <= u < nt.len() && u != t implies nt[u] == old_table[u] by {}
                    assert(nt[t as int].3@.no_duplicates()) by {
                        let fl = nt[t as int].3@;
                        let ol = old_table[t as int].3@;
                        assert forall|x: int, y: int| 0 <= x < y < fl.len() implies fl[x] != fl[y] by {
                            if y == ol.len() && fl.len() > ol.len() {
                                assert(!ol.contains(f));
                                assert(fl[y] == f);
                                assert(fl[x] == ol[x]);
                            }
                        }
                    }
                    assert forall|g: FaceId| nt[t as int].3@.contains(g) <==> contributes(next, a, b, g) by {
                        let fl = nt[t as int].3@;
                        let ol = old_table[t as int].3@;
                        if fl.contains(g) {
                            let q = choose|q: int| 0 <= q < fl.len() && fl[q] == g;
                            if q < ol.len() {
                                assert(ol[q] == g);
                            }
                        }
                        if ol.contains(g) {
                            let q = choose|q: int| 0 <= q < ol.len() && ol[q] == g;
                            assert(fl[q] == g);
                        }
                        if g == f && !ol.contains(f) {
                            assert(fl[ol.len() as int] == f);
                        }
                    }
                    assert forall|x: VertexId, y: VertexId| #[trigger] edge_count(next, x, y) > 0 implies exists|u: int|
                        0 <= u < nt.len() && (#[trigger] nt[u]).0 == x && nt[u].1 == y by {
                        if x == a && y == b {
                            assert(nt[t as int].0 == x && nt[t as int].1 == y);
                        } else {
                            assert(edge_count(prev, x, y) > 0);
                            let u = choose|u: int| 0 <= u < old_table.len() && (#[trigger] old_table[u]).0 == x && old_table[u].1 == y;
                            assert(nt[u] == old_table[u]);
                        }
                    }
                    assert forall|u: int, g: FaceId| 0 <= u < nt.len() implies ((#[trigger] nt[u]).3@.contains(g) <==> #[trigger] contributes(
                        next,
                        nt[u].0,
                        nt[u].1,
                        g,
                    )) by {
                        if u != t {
                            assert(nt[u] == old_table[u]);
                            assert(contributes(prev, nt[u].0, nt[u].1, g) == old_table[u].3@.contains(g));
                        }
                    }
                }
            },
            None => {
                let mut faces: Vec<FaceId> = Vec::new();
                faces.push(f);
                table.push((a, b, 1, faces));
                proof {
                    let nt = table@;
                    assert(edge_count(prev, a, b) == 0) by {
                        if edge_count(prev, a, b) > 0 {
                            let u = choose|u: int| 0 <= u < old_table.len() && (#[trigger] old_table[u]).0 == a && old_table[u].1 == b;
                        }
                    }
                    assert forall|g: FaceId| nt[nt.len() - 1].3@.contains(g) <==> contributes(next, a, b, g) by {
                        if contributes(prev, a, b, g) {
                            lemma_contributes_implies_count(prev, a, b, g);
                        }
                        if g == f {
                            assert(nt[nt.len() - 1].3@[0] == f);
                        }
                    }
                    assert forall|u: int, g: FaceId| 0 <= u < nt.len() implies ((#[trigger] nt[u]).3@.contains(g) <==> #[trigger] contributes(
                        next,
                        nt[u].0,
                        nt[u].1,
                        g,
                    )) by {
                        if u < old_table.len() {
                            assert(nt[u] == old_table[u]);
                            assert(contributes(prev, nt[u].0, nt[u].1, g) == old_table[u].3@.contains(g));
                        }
                    }
                    assert forall|x: VertexId, y: VertexId| #[trigger] edge_count(next, x, y) > 0 implies exists|u: int|
                        0 <= u < nt.len() && (#[trigger] nt[u]).0 == x && nt[u].1 == y by {
                        if x == a && y == b {
                            assert(nt[nt.len() - 1].0 == x && nt[nt.len() - 1].1 == y);
                        } else {
                            assert(edge_count(prev, x, y) > 0);
                            let u = choose|u: int| 0 <= u < old_table.len() && (#[trigger] old_table[u]).0 == x && old_table[u].1 == y;
                            assert(nt[u] == old_table[u]);
                        }
                    }
                    assert forall|u: int, w: int| 0 <= u < w < nt.len() implies ((#[trigger] nt[u]).0, nt[u].1) != ((#[trigger] nt[w]).0, nt[w].1) by {
                        if w == nt.len() - 1 {
                            assert(nt[u] == old_table[u]);
                        } else {
                            assert(nt[u] == old_table[u]);
                            assert(nt[w] == old_table[w]);
                        }
                    }
                    assert forall|u: int| 0 <= u < nt.len() implies (#[trigger] nt[u]).2 == edge_count(next, nt[u].0, nt[u].1) by {
                        if u < old_table.len() {
                            assert(nt[u] == old_table[u]);
                        }
                    }
                }
            },
        }
        i = i + 1;
    }
    proof {
        assert(edges@.take(edges@.len() as int) =~= edges@);
    }
    table
}

/// Checks that the triangulated faces `tris` form a closed, consistently
/// wound (watertight) 2D manifold: every directed triangle edge must appear
/// exactly once in each direction. Keeps the offending edges and the faces
/// they came from instead of collapsing everything to a bool. `tris` is the
/// triangulation of each face to check (faces that no longer exist are
/// simply absent from it).
pub fn check_manifold(tris: &Vec<(FaceId, Vec<[VertexId; 3]>)>) -> (issues: ManifoldIssues)
    ensures
        issues.describes(all_edges(triangulation_view(tris@))),
{
    let edges = directed_edges(tris);
    let ghost es = edges@;
    let table = tally_edges(&edges);
    let mut open_edges: Vec<(VertexId, VertexId)> = Vec::new();
    let mut duplicate_edges: Vec<(VertexId, VertexId)> = Vec::new();
    let mut problem_faces: Vec<FaceId> = Vec::new();
    let mut t: usize = 0;
    while t < table.len()
        invariant
            es == all_edges(triangulation_view(tris@)),
            tally_faithful(table@, es),
            t <= table@.len(),
            open_edges@.no_duplicates(),
            forall|a: VertexId, b: VertexId| #[trigger] open_edges@.contains((a, b)) <==> (is_open_edge(es, a, b)
                && exists|u: int| 0 <= u < t && (#[trigger] table@[u]).0 == a && table@[u].1 == b),
            forall|i: int| 0 <= i < duplicate_edges@.len() ==> is_duplicate_edge(
                es,
                (#[trigger] duplicate_edges@[i]).0,
                duplicate_edges@[i].1,
            ),
            forall|u: int| 0 <= u < t && is_duplicate_edge(es, (#[trigger] table@[u]).0, table@[u].1) ==> duplicate_edges@.contains(
                (table@[u].0, table@[u].1),
            ) || duplicate_edges@.contains((table@[u].1, table@[u].0)),
            forall|i: int, j: int|
                0 <= i < j < duplicate_edges@.len() ==> #[trigger] duplicate_edges@[i] != #[trigger] duplicate_edges@[j]
                    && duplicate_edges@[i] != (duplicate_edges@[j].1, duplicate_edges@[j].0),
            problem_faces@.no_duplicates(),
            forall|f: FaceId| #[trigger] problem_faces@.contains(f) <==> exists|u: int|
                0 <= u < t && is_problem_edge(es, (#[trigger] table@[u]).0, table@[u].1) && contributes(es, table@[u].0, table@[u].1, f),
        decreases table@.len() - t,
    {
        let a = table[t].0;
        let b = table[t].1;
        let count = table[t].2;
        let twin_count = match find_tally(&table, b, a) {
            Some(u) => table[u].2,
            None => 0,
        };
        proof {
            assert(count == edge_count(es, a, b));
            if twin_count == 0 {
                assert(edge_count(es, b, a) == 0) by {
                    if edge_count(es, b, a) > 0 {
                        let u = choose|u: int| 0 <= u < table@.len() && (#[trigger] table@[u]).0 == b && table@[u].1 == a;
                    }
                }
            } else {
                assert(edge_count(es, b, a) > 0);
            }
        }
        let problem = count > 1 || twin_count == 0;
        let ghost old_open = open_edges@;
        let ghost old_dup = duplicate_edges@;
        let ghost old_pf = problem_faces@;
        if count > 1 {
            if !pair_list_contains(&duplicate_edges, (a, b)) && !pair_list_contains(&duplicate_edges, (b, a)) {
                duplicate_edges.push((a, b));
            }
        } else if twin_count == 0 {
            open_edges.push((a, b));
        }
        if problem {
            let faces = &table[t].3;
            let mut q: usize = 0;
            while q < faces.len()
                invariant
                    q <= faces@.len(),
                    problem_faces@.no_duplicates(),
                    forall|f: FaceId| #[trigger] problem_faces@.contains(f) <==> (old_pf.contains(f) || exists|r: int|
                        0 <= r < q && faces@[r] == f),
                decreases faces@.len() - q,
            {
                let f = faces[q];
                let ghost before = problem_faces@;
                if !face_list_contains(&problem_faces, f) {
                    problem_faces.push(f);
                    proof {
                        assert forall|x: int, y: int| 0 <= x < y < problem_faces@.len() implies problem_faces@[x] != problem_faces@[y] by {
                            if y == before.len() {
                                assert(before.contains(problem_faces@[x]));
                            }
                        }
                    }
                }
                proof {
                    assert forall|g: FaceId| #[trigger] problem_faces@.contains(g) <==> (old_pf.contains(g) || exists|r: int|
                        0 <= r < q + 1 && faces@[r] == g) by {
                        if problem_faces@.contains(g) {
                            let k = choose|k: int| 0 <= k < problem_faces@.len() && problem_faces@[k] == g;
                            if k < before.len() {
                                assert(before.contains(g));
                            } else {
                                assert(faces@[q as int] == g);
                            }
                        }
                        if before.contains(g) {
                            let k = choose|k: int| 0 <= k < before.len() && before[k] == g;
                            assert(problem_faces@[k] == g);
                        }
                        if exists|r: int| 0 <= r < q + 1 && faces@[r] == g {
                            let r = choose|r: int| 0 <= r < q + 1 && faces@[r] == g;
                            if r < q {
                                assert(before.contains(g));
                            } else if before.contains(g) {
                            } else {
                                assert(problem_faces@[problem_faces@.len() - 1] == g);
                            }
                        }
                    }
                }
                q = q + 1;
            }
        }
        proof {
            assert(is_problem_edge(es, a, b) == problem);
            assert forall|g: FaceId| #[trigger] problem_faces@.contains(g) <==> exists|u: int|
                0 <= u < t + 1 && is_problem_edge(es, (#[trigger] table@[u]).0, table@[u].1) && contributes(es, table@[u].0, table@[u].1, g) by {
                if problem {
                    if table@[t as int].3@.contains(g) {
                        assert(contributes(es, a, b, g));
                    }
                    if contributes(es, a, b, g) {
                        assert(table@[t as int].3@.contains(g));
                    }
                }
                if exists|u: int| 0 <= u < t + 1 && is_problem_edge(es, (#[trigger] table@[u]).0, table@[u].1) && contributes(es, table@[u].0, table@[u].1, g) {
                    let u = choose|u: int| 0 <= u < t + 1 && is_problem_edge(es, (#[trigger] table@[u]).0, table@[u].1) && contributes(es, table@[u].0, table@[u].1, g);
                    if u == t {
                        assert(table@[t as int].3@.contains(g));
                        let r = choose|r: int| 0 <= r < table@[t as int].3@.len() && table@[t as int].3@[r] == g;
                    }
                }
            }
            assert forall|x: VertexId, y: VertexId| #[trigger] open_edges@.contains((x, y)) <==> (is_open_edge(es, x, y)
                && exists|u: int| 0 <= u < t + 1 && (#[trigger] table@[u]).0 == x && table@[u].1 == y) by {
                if open_edges@.contains((x, y)) {
                    let k = choose|k: int| 0 <= k < open_edges@.len() && open_edges@[k] == (x, y);
                    if k < old_open.len() {
                        assert(old_open.contains((x, y)));
                        let u = choose|u: int| 0 <= u < t && (#[trigger] table@[u]).0 == x && table@[u].1 == y;
                    } else {
                        assert(x == a && y == b);
                    }
                }
                if is_open_edge(es, x, y) && exists|u: int| 0 <= u < t + 1 && (#[trigger] table@[u]).0 == x && table@[u].1 == y {
                    let u = choose|u: int| 0 <= u < t + 1 && (#[trigger] table@[u]).0 == x && table@[u].1 == y;
                    if u < t {
                        assert(old_open.contains((x, y)));
                        let k = choose|k: int| 0 <= k < old_open.len() && old_open[k] == (x, y);
                        assert(open_edges@[k] == (x, y));
                    } else {
                        assert(open_edges@[open_edges@.len() - 1] == (x, y));
                    }
                }
            }
            assert(open_edges@.no_duplicates()) by {
                assert forall|x: int, y: int| 0 <= x < y < open_edges@.len() implies open_edges@[x] != open_edges@[y] by {
                    if y == old_open.len() {
                        let e = open_edges@[x];
                        assert(old_open.contains(e));
                        let u = choose|u: int| 0 <= u < t && (#[trigger] table@[u]).0 == e.0 && table@[u].1 == e.1;
                    }
                }
            }
            assert forall|u: int| 0 <= u < t + 1 && is_duplicate_edge(es, (#[trigger] table@[u]).0, table@[u].1) implies duplicate_edges@.contains(
                (table@[u].0, table@[u].1),
            ) || duplicate_edges@.contains((table@[u].1, table@[u].0)) by {
                if u < t {
                    if old_dup.contains((table@[u].0, table@[u].1)) {
                        let k = choose|k: int| 0 <= k < old_dup.len() && old_dup[k] == (table@[u].0, table@[u].1);
                        assert(duplicate_edges@[k] == old_dup[k]);
                    } else {
                        let k = choose|k: int| 0 <= k < old_dup.len() && old_dup[k] == (table@[u].1, table@[u].0);
                        assert(duplicate_edges@[k] == old_dup[k]);
                    }
                } else if duplicate_edges@.len() > old_dup.len() {
                    assert(duplicate_edges@[duplicate_edges@.len() - 1] == (a, b));
                } else {
                }
            }
        }
        t = t + 1;
    }
    proof {
        assert forall|a: VertexId, b: VertexId| #[trigger] open_edges@.contains((a, b)) <==> is_open_edge(es, a, b) by {
            if is_open_edge(es, a, b) {
                assert(edge_count(es, a, b) > 0);
            }
        }
        assert forall|a: VertexId, b: VertexId|
            is_duplicate_edge(es, a, b) implies #[trigger] duplicate_edges@.contains((a, b)) || duplicate_edges@.contains((b, a)) by {
            assert(edge_count(es, a, b) > 0);
            let u = choose|u: int| 0 <= u < table@.len() && (#[trigger] table@[u]).0 == a && table@[u].1 == b;
        }
        assert forall|f: FaceId| #[trigger] problem_faces@.contains(f) <==> exists|a: VertexId, b: VertexId|
            is_problem_edge(es, a, b) && #[trigger] contributes(es, a, b, f) by {
            if exists|a: VertexId, b: VertexId| is_problem_edge(es, a, b) && #[trigger] contributes(es, a, b, f) {
                let (a, b) = choose|a: VertexId, b: VertexId| is_problem_edge(es, a, b) && #[trigger] contributes(es, a, b, f);
                lemma_contributes_implies_count(es, a, b, f);
                let u = choose|u: int| 0 <= u < table@.len() && (#[trigger] table@[u]).0 == a && table@[u].1 == b;
                assert(is_problem_edge(es, table@[u].0, table@[u].1) && contributes(es, table@[u].0, table@[u].1, f));
            }
        }
    }
    ManifoldIssues { open_edges, duplicate_edges, problem_faces }
}

/// True when `tris` is watertight: `check_manifold` finds nothing.
pub fn is_manifold(tris: &Vec<(FaceId, Vec<[VertexId; 3]>)>) -> (r: bool)
    ensures
        r == check_manifold_is_clean(all_edges(triangulation_view(tris@))),
{
    let issues = check_manifold(tris);
    proof {
        lemma_clean_iff_no_issues(issues, all_edges(triangulation_view(tris@)));
    }
    issues.is_empty()
}

/// No directed edge is open or duplicated.
pub open spec fn check_manifold_is_clean(edges: Seq<DirectedEdge>) -> bool {
    forall|a: VertexId, b: VertexId| !#[trigger] is_problem_edge(edges, a, b)
}

proof fn lemma_clean_iff_no_issues(issues: ManifoldIssues, edges: Seq<DirectedEdge>)
    requires
        issues.describes(edges),
    ensures
        (issues.open_edges@.len() == 0 && issues.duplicate_edges@.len() == 0) == check_manifold_is_clean(edges),
{
    if issues.open_edges@.len() == 0 && issues.duplicate_edges@.len() == 0 {
        assert forall|a: VertexId, b: VertexId| !#[trigger] is_problem_edge(edges, a, b) by {
            if is_duplicate_edge(edges, a, b) {
                assert(issues.duplicate_edges@.contains((a, b)) || issues.duplicate_edges@.contains((b, a)));
            }
            if is_open_edge(edges, a, b) {
                assert(issues.open_edges@.contains((a, b)));
            }
        }
    } else if issues.open_edges@.len() > 0 {
        let e = issues.open_edges@[0];
        assert(issues.open_edges@.contains((e.0, e.1)));
        assert(is_problem_edge(edges, e.0, e.1));
    } else {
        let e = issues.duplicate_edges@[0];
        assert(is_duplicate_edge(edges, e.0, e.1));
        assert(is_problem_edge(edges, e.0, e.1));
    }
}

/// Watertightness law: a set of triangles is clean (no open or duplicated
/// edge) exactly when every directed edge occurs once and its reverse
/// occurs once.
pub proof fn lemma_clean_iff_edges_pair_up(edges: Seq<DirectedEdge>)
    ensures
        check_manifold_is_clean(edges) <==> edges_pair_up(edges),
{
    if check_manifold_is_clean(edges) {
        assert forall|j: int| 0 <= j < edges.len() implies edge_count(edges, (#[trigger] edges[j]).0, edges[j].1) == 1
            && edge_count(edges, edges[j].1, edges[j].0) == 1 by {
            let (a, b) = (edges[j].0, edges[j].1);
            lemma_edge_count_positive(edges, a, b);
            assert(!is_problem_edge(edges, a, b));
            assert(edge_count(edges, a, b) == 1);
            assert(edge_count(edges, b, a) > 0);
            assert(!is_problem_edge(edges, b, a));
        }
    }
    if edges_pair_up(edges) {
        assert forall|a: VertexId, b: VertexId| !#[trigger] is_problem_edge(edges, a, b) by {
            if edge_count(edges, a, b) > 0 {
                lemma_edge_count_positive(edges, a, b);
                let j = choose|j: int| 0 <= j < edges.len() && (#[trigger] edges[j]).0 == a && edges[j].1 == b;
                assert(edge_count(edges, edges[j].0, edges[j].1) == 1);
            }
        }
    }
}

/// The loops of one face: outer ring and hole rings.
pub type FaceLoops = (Seq<VertexId>, Seq<Seq<VertexId>>);

/// The side wall between source edge `a -> b` and its offset copy
/// `a2 -> b2`; wound so that its normal faces away from the solid.
pub open spec fn wall_quad(a: VertexId, b: VertexId, a2: VertexId, b2: VertexId, forward: bool) -> Seq<VertexId> {
    if forward {
        seq![a, b, b2, a2]
    } else {
        seq![a, a2, b2, b]
    }
}

/// One wall per edge of the closed ring `src`, against its offset copy `off`.
pub open spec fn ring_walls(src: Seq<VertexId>, off: Seq<VertexId>, forward: bool) -> Seq<FaceLoops> {
    let n = src.len() as int;
    Seq::new(
        src.len(),
        |i: int| (wall_quad(src[i], src[(i + 1) % n], off[i], off[(i + 1) % n], forward), Seq::<Seq<VertexId>>::empty()),
    )
}

/// The walls of every hole ring, hole by hole.
pub open spec fn hole_walls(holes: Seq<Seq<VertexId>>, off_holes: Seq<Seq<VertexId>>, forward: bool) -> Seq<FaceLoops>
    decreases holes.len(),
{
    if holes.len() == 0 {
        Seq::empty()
    } else {
        hole_walls(holes.drop_last(), off_holes.drop_last(), forward) + ring_walls(
            holes.last(),
            off_holes[holes.len() - 1],
            forward,
        )
    }
}

pub open spec fn reversed_rings(rings: Seq<Seq<VertexId>>) -> Seq<Seq<VertexId>> {
    rings.map_values(|r: Seq<VertexId>| r.reverse())
}

/// The caps that close an extrusion: unless the face is attached to a
/// solid, a cap at the source position; then the cap at the far end.
/// Whichever cap sits at the smaller extent along the source normal is
/// wound backwards, so that both face out of the solid.
pub open spec fn cap_faces(
    outer: Seq<VertexId>,
    holes: Seq<Seq<VertexId>>,
    off_outer: Seq<VertexId>,
    off_holes: Seq<Seq<VertexId>>,
    forward: bool,
    attached: bool,
) -> Seq<FaceLoops> {
    let source_cap: FaceLoops = if forward {
        (outer.reverse(), reversed_rings(holes))
    } else {
        (outer, holes)
    };
    let far_cap: FaceLoops = if forward {
        (off_outer, off_holes)
    } else {
        (off_outer.reverse(), reversed_rings(off_holes))
    };
    if attached {
        seq![far_cap]
    } else {
        seq![source_cap, far_cap]
    }
}

/// The faces an extrusion of the face `(outer, holes)` creates, given the
/// offset copies of its rings: a wall per boundary edge (outer ring first,
/// then each hole), then the caps.
pub open spec fn extrusion_faces(
    outer: Seq<VertexId>,
    holes: Seq<Seq<VertexId>>,
    off_outer: Seq<VertexId>,
    off_holes: Seq<Seq<VertexId>>,
    forward: bool,
    attached: bool,
) -> Seq<FaceLoops> {
    ring_walls(outer, off_outer, forward) + hole_walls(holes, off_holes, forward) + cap_faces(
        outer,
        holes,
        off_outer,
        off_holes,
        forward,
        attached,
    )
}

/// Makes an offset copy of `ring`: one new vertex per entry, placed at
/// `offset` applied to the entry's position.
fn offset_ring<P: Copy, F: Fn(FaceId, P) -> P>(mesh: &mut Mesh<P>, face: FaceId, ring: &Vec<VertexId>, offset: &F) -> (r: Vec<VertexId>)
    requires
        forall|i: int| 0 <= i < ring@.len() ==> old(mesh).has_vertex(#[trigger] ring@[i]),
        forall|p: P| offset.requires((face, p)),
        old(mesh).vertex_slots() + ring@.len() < usize::MAX,
    ensures
        r@.len() == ring@.len(),
        final(mesh).vertex_slots() == old(mesh).vertex_slots() + ring@.len(),
        forall|i: int| 0 <= i < r@.len() ==> (#[trigger] r@[i]).0 == old(mesh).vertex_slots() + i,
        forall|i: int| 0 <= i < r@.len() ==> final(mesh).has_vertex(#[trigger] r@[i]),
        forall|i: int| 0 <= i < r@.len() ==> offset.ensures((face, old(mesh).pos(ring@[i])), final(mesh).pos(#[trigger] r@[i])),
        forall|v: VertexId| old(mesh).has_vertex(v) ==> #[trigger] final(mesh).has_vertex(v) && final(mesh).pos(v) == old(mesh).pos(v),
        forall|v: VertexId| v.0 < old(mesh).vertex_slots() ==> (#[trigger] final(mesh).has_vertex(v) == old(mesh).has_vertex(v)),
        final(mesh).same_faces(old(mesh)),
        old(mesh).wf() ==> final(mesh).wf(),
{
    let ghost start = *mesh;
    let mut out: Vec<VertexId> = Vec::new();
    let mut i: usize = 0;
    while i < ring.len()
        invariant
            i <= ring@.len(),
            out@.len() == i,
            forall|k: int| 0 <= k < ring@.len() ==> start.has_vertex(#[trigger] ring@[k]),
            forall|p: P| offset.requires((face, p)),
            start.vertex_slots() + ring@.len() < usize::MAX,
            mesh.vertex_slots() == start.vertex_slots() + i,
            forall|k: int| 0 <= k < i ==> (#[trigger] out@[k]).0 == start.vertex_slots() + k,
            forall|k: int| 0 <= k < i ==> mesh.has_vertex(#[trigger] out@[k]),
            forall|k: int| 0 <= k < i ==> offset.ensures((face, start.pos(ring@[k])), mesh.pos(#[trigger] out@[k])),
            forall|v: VertexId| start.has_vertex(v) ==> #[trigger] mesh.has_vertex(v) && mesh.pos(v) == start.pos(v),
            forall|v: VertexId| v.0 < start.vertex_slots() ==> (#[trigger] mesh.has_vertex(v) == start.has_vertex(v)),
            mesh.same_faces(&start),
            start.wf() ==> mesh.wf(),
        decreases ring@.len() - i,
    {
        let v = ring[i];
        proof {
            assert(start.has_vertex(ring@[i as int]));
        }
        proof {
            assert(mesh.has_vertex(v));
            assert(mesh.pos(v) == start.pos(v));
        }
        let p = mesh.position(v);
        let q = offset(face, p);
        let ghost before = *mesh;
        proof {
            before.lemma_ids_in_range();
            start.lemma_ids_in_range();
        }
        let id = mesh.add_vertex(q);
        let ghost out_before = out@;
        out.push(id);
        proof {
            assert forall|k: int| 0 <= k < i + 1 implies offset.ensures((face, start.pos(ring@[k])), mesh.pos(#[trigger] out@[k])) by {
                if k < i {
                    assert(out@[k] == out_before[k]);
                    assert(out@[k] != id);
                    assert(before.has_vertex(out@[k]));
                    assert(mesh.pos(out@[k]) == before.pos(out@[k]));
                } else {
                    assert(out@[k] == id);
                    assert(mesh.pos(id) == q);
                    assert(p == start.pos(ring@[k]));
                }
            }
            assert forall|v: VertexId| start.has_vertex(v) implies #[trigger] mesh.has_vertex(v) && mesh.pos(v) == start.pos(v) by {
                assert(v.0 < start.vertex_slots());
                assert(v != id);
                assert(before.has_vertex(v));
            }
        }
        i = i + 1;
    }
    out
}

/// Makes an offset copy of every hole ring.
fn offset_rings<P: Copy, F: Fn(FaceId, P) -> P>(mesh: &mut Mesh<P>, face: FaceId, rings: &Vec<Vec<VertexId>>, offset: &F) -> (r: Vec<Vec<VertexId>>)
    requires
        forall|h: int, i: int| 0 <= h < rings@.len() && 0 <= i < rings@[h]@.len() ==> old(mesh).has_vertex(#[trigger] rings@[h]@[i]),
        forall|p: P| offset.requires((face, p)),
        old(mesh).vertex_slots() + total_len(rings_view(rings@)) < usize::MAX,
    ensures
        r@.len() == rings@.len(),
        forall|h: int| 0 <= h < r@.len() ==> (#[trigger] r@[h])@.len() == rings@[h]@.len(),
        final(mesh).vertex_slots() == old(mesh).vertex_slots() + total_len(rings_view(rings@)),
        forall|h: int, i: int| 0 <= h < r@.len() && 0 <= i < r@[h]@.len() ==> (#[trigger] r@[h]@[i]).0 == old(mesh).vertex_slots()
            + total_len(rings_view(rings@).take(h)) + i,
        forall|h: int, i: int| 0 <= h < r@.len() && 0 <= i < r@[h]@.len() ==> final(mesh).has_vertex(#[trigger] r@[h]@[i]),
        forall|h: int, i: int| 0 <= h < r@.len() && 0 <= i < r@[h]@.len() ==> offset.ensures(
            (face, old(mesh).pos(rings@[h]@[i])),
            final(mesh).pos(#[trigger] r@[h]@[i]),
        ),
        forall|v: VertexId| old(mesh).has_vertex(v) ==> #[trigger] final(mesh).has_vertex(v) && final(mesh).pos(v) == old(mesh).pos(v),
        forall|v: VertexId| v.0 < old(mesh).vertex_slots() ==> (#[trigger] final(mesh).has_vertex(v) == old(mesh).has_vertex(v)),
        final(mesh).same_faces(old(mesh)),
        old(mesh).wf() ==> final(mesh).wf(),
{
    let ghost start = *mesh;
    let mut out: Vec<Vec<VertexId>> = Vec::new();
    let mut h: usize = 0;
    while h < rings.len()
        invariant
            h <= rings@.len(),
            out@.len() == h,
            forall|g: int, i: int| 0 <= g < rings@.len() && 0 <= i < rings@[g]@.len() ==> start.has_vertex(#[trigger] rings@[g]@[i]),
            forall|p: P| offset.requires((face, p)),
            start.vertex_slots() + total_len(rings_view(rings@)) < usize::MAX,
            mesh.vertex_slots() == start.vertex_slots() + total_len(rings_view(rings@).take(h as int)),
            forall|g: int| 0 <= g < h ==> (#[trigger] out@[g])@.len() == rings@[g]@.len(),
            forall|g: int, i: int| 0 <= g < h && 0 <= i < out@[g]@.len() ==> (#[trigger] out@[g]@[i]).0 == start.vertex_slots()
                + total_len(rings_view(rings@).take(g)) + i,
            forall|g: int, i: int| 0 <= g < h && 0 <= i < out@[g]@.len() ==> mesh.has_vertex(#[trigger] out@[g]@[i]),
            forall|g: int, i: int| 0 <= g < h && 0 <= i < out@[g]@.len() ==> offset.ensures(
                (face, start.pos(rings@[g]@[i])),
                mesh.pos(#[trigger] out@[g]@[i]),
            ),
            forall|v: VertexId| start.has_vertex(v) ==> #[trigger] mesh.has_vertex(v) && mesh.pos(v) == start.pos(v),
            forall|v: VertexId| v.0 < start.vertex_slots() ==> (#[trigger] mesh.has_vertex(v) == start.has_vertex(v)),
            mesh.same_faces(&start),
            start.wf() ==> mesh.wf(),
        decreases rings@.len() - h,
    {
        proof {
            lemma_total_len_take(rings_view(rings@), h as int);
            lemma_total_len_prefix_bound(rings_view(rings@), h as int + 1);
            assert(rings_view(rings@)[h as int] == rings@[h as int]@);
        }
        let ghost before = *mesh;
        proof {
            assert forall|i: int| 0 <= i < rings@[h as int]@.len() implies before.pos(#[trigger] rings@[h as int]@[i]) == start.pos(rings@[h as int]@[i]) by {
                assert(start.has_vertex(rings@[h as int]@[i]));
                assert(mesh.has_vertex(rings@[h as int]@[i]));
            }
        }
        let ghost out_before = out@;
        let ring = offset_ring(mesh, face, &rings[h], offset);
        out.push(ring);
        proof {
            assert forall|g: int, i: int| 0 <= g < h + 1 && 0 <= i < out@[g]@.len() implies offset.ensures(
                (face, start.pos(rings@[g]@[i])),
                mesh.pos(#[trigger] out@[g]@[i]),
            ) by {
                if g < h {
                    assert(out@[g] == out_before[g]);
                    assert(before.has_vertex(out@[g]@[i]));
                    assert(mesh.has_vertex(out@[g]@[i]));
                    assert(mesh.pos(out@[g]@[i]) == before.pos(out@[g]@[i]));
                } else {
                    assert(out@[g] == ring);
                    assert(start.has_vertex(rings@[g]@[i]));
                    assert(before.pos(rings@[g]@[i]) == start.pos(rings@[g]@[i]));
                }
            }
            assert forall|g: int, i: int| 0 <= g < h + 1 && 0 <= i < out@[g]@.len() implies mesh.has_vertex(#[trigger] out@[g]@[i]) by {
                if g < h {
                    assert(out@[g] == out_before[g]);
                    assert(before.has_vertex(out@[g]@[i]));
                }
            }
            assert forall|g: int, i: int| 0 <= g < h + 1 && 0 <= i < out@[g]@.len() implies (#[trigger] out@[g]@[i]).0 == start.vertex_slots()
                + total_len(rings_view(rings@).take(g)) + i by {
                if g < h {
                    assert(out@[g] == out_before[g]);
                }
            }
        }
        h = h + 1;
    }
    proof {
        assert(rings_view(rings@).take(rings@.len() as int) =~= rings_view(rings@));
    }
    out
}

/// Total number of entries over all rings.
pub open spec fn total_len(rings: Seq<Seq<VertexId>>) -> nat
    decreases rings.len(),
{
    if rings.len() == 0 {
        0
    } else {
        total_len(rings.drop_last()) + rings.last().len()
    }
}

pub(crate) proof fn lemma_hole_walls_len(holes: Seq<Seq<VertexId>>, offs: Seq<Seq<VertexId>>, forward: bool)
    ensures
        hole_walls(holes, offs, forward).len() == total_len(holes),
    decreases holes.len(),
{
    if holes.len() > 0 {
        lemma_hole_walls_len(holes.drop_last(), offs.drop_last(), forward);
    }
}

pub(crate) proof fn lemma_total_len_take(rings: Seq<Seq<VertexId>>, h: int)
    requires
        0 <= h < rings.len(),
    ensures
        total_len(rings.take(h + 1)) == total_len(rings.take(h)) + rings[h].len(),
{
    assert(rings.take(h + 1).drop_last() =~= rings.take(h));
}

proof fn lemma_total_len_prefix_bound(rings: Seq<Seq<VertexId>>, h: int)
    requires
        0 <= h <= rings.len(),
    ensures
        total_len(rings.take(h)) <= total_len(rings),
    decreases rings.len() - h,
{
    if h < rings.len() {
        lemma_total_len_prefix_bound(rings, h + 1);
        lemma_total_len_take(rings, h);
    } else {
        assert(rings.take(h) =~= rings);
    }
}

/// `ids` name exactly the faces `loops`, in order, in `mesh`.
pub open spec fn faces_are<P>(mesh: Mesh<P>, ids: Seq<FaceId>, loops: Seq<FaceLoops>) -> bool {
    &&& ids.len() == loops.len()
    &&& forall|k: int| 0 <= k < ids.len() ==> face_is(mesh, #[trigger] ids[k], loops[k])
}

/// Face `id` exists in `mesh` with loops `l`.
pub open spec fn face_is<P>(mesh: Mesh<P>, id: FaceId, l: FaceLoops) -> bool {
    mesh.has_face(id) && mesh.face(id) == l
}

/// Face `g` of `prior` is present and unchanged in `later`.
pub open spec fn face_kept<P>(prior: Mesh<P>, later: Mesh<P>, g: FaceId) -> bool {
    later.has_face(g) && later.face(g) == prior.face(g)
}

/// `ids` are the consecutive fresh face ids starting at `base`.
pub open spec fn fresh_face_ids(ids: Seq<FaceId>, base: nat) -> bool {
    forall|k: int| 0 <= k < ids.len() ==> (#[trigger] ids[k]).0 == base + k
}

/// Faces of `old` other than `except` are untouched in `new`, and `new`
/// only adds faces with ids past `old`'s.
pub open spec fn keeps_other_faces<P>(prior: Mesh<P>, later: Mesh<P>, except: Option<FaceId>) -> bool {
    &&& later.face_slots() >= prior.face_slots()
    &&& forall|g: FaceId|
        #![trigger later.has_face(g)]
        (prior.has_face(g) && Some(g) != except) ==> (later.has_face(g) && later.face(g) == prior.face(g))
    &&& forall|g: FaceId|
        #![trigger later.has_face(g)]
        (g.0 < prior.face_slots() && Some(g) != except) ==> (later.has_face(g) == prior.has_face(g))
}

/// Every face of `prior` is untouched in `later`, which only adds faces
/// with ids past `prior`'s.
pub open spec fn keeps_faces<P>(prior: Mesh<P>, later: Mesh<P>) -> bool {
    &&& later.face_slots() >= prior.face_slots()
    &&& forall|g: FaceId| prior.has_face(g) ==> #[trigger] face_kept(prior, later, g)
    &&& forall|g: FaceId| g.0 < prior.face_slots() ==> (#[trigger] later.has_face(g) == prior.has_face(g))
}

pub fn reversed_ring(ring: &Vec<VertexId>) -> (r: Vec<VertexId>)
    ensures
        r@ == ring@.reverse(),
{
    let mut out: Vec<VertexId> = Vec::new();
    let n = ring.len();
    let mut i: usize = 0;
    while i < n
        invariant
            n == ring@.len(),
            i <= n,
            out@.len() == i,
            forall|k: int| 0 <= k < i ==> out@[k] == ring@[n - 1 - k],
        decreases n - i,
    {
        out.push(ring[n - 1 - i]);
        i = i + 1;
    }
    proof {
        assert(out@ =~= ring@.reverse());
    }
    out
}

pub fn reversed_each(rings: &Vec<Vec<VertexId>>) -> (r: Vec<Vec<VertexId>>)
    ensures
        rings_view(r@) == reversed_rings(rings_view(rings@)),
{
    let mut out: Vec<Vec<VertexId>> = Vec::new();
    let mut i: usize = 0;
    while i < rings.len()
        invariant
            i <= rings@.len(),
            out@.len() == i,
            forall|k: int| 0 <= k < i ==> (#[trigger] out@[k])@ == rings@[k]@.reverse(),
        decreases rings@.len() - i,
    {
        out.push(reversed_ring(&rings[i]));
        i = i + 1;
    }
    proof {
        assert(rings_view(out@) =~= reversed_rings(rings_view(rings@)));
    }
    out
}

/// Adds a wall face per edge of the ring `src` against its offset copy
/// `off`, recording the new ids in `ids`.
fn add_ring_walls<P>(mesh: &mut Mesh<P>, src: &Vec<VertexId>, off: &Vec<VertexId>, forward: bool, ids: &mut Vec<FaceId>)
    requires
        src@.len() == off@.len(),
        old(mesh).face_slots() + src@.len() < usize::MAX,
        forall|i: int| 0 <= i < src@.len() ==> old(mesh).has_vertex(#[trigger] src@[i]),
        forall|i: int| 0 <= i < off@.len() ==> old(mesh).has_vertex(#[trigger] off@[i]),
    ensures
        old(mesh).wf() ==> final(mesh).wf(),
        final(ids)@.len() == old(ids)@.len() + src@.len(),
        final(ids)@.subrange(0, old(ids)@.len() as int) == old(ids)@,
        faces_are(*final(mesh), final(ids)@.subrange(old(ids)@.len() as int, final(ids)@.len() as int), ring_walls(src@, off@, forward)),
        fresh_face_ids(final(ids)@.subrange(old(ids)@.len() as int, final(ids)@.len() as int), old(mesh).face_slots()),
        final(mesh).face_slots() == old(mesh).face_slots() + src@.len(),
        keeps_faces(*old(mesh), *final(mesh)),
        final(mesh).same_vertices(old(mesh)),
{
    let ghost start = *mesh;
    let ghost ids0 = ids@;
    let n = src.len();
    let mut i: usize = 0;
    while i < n
        invariant
            n == src@.len(),
            src@.len() == off@.len(),
            start.face_slots() + n < usize::MAX,
            i <= n,
            ids@.len() == ids0.len() + i,
            ids@.subrange(0, ids0.len() as int) == ids0,
            faces_are(*mesh, ids@.subrange(ids0.len() as int, ids@.len() as int), ring_walls(src@, off@, forward).take(i as int)),
            fresh_face_ids(ids@.subrange(ids0.len() as int, ids@.len() as int), start.face_slots()),
            mesh.face_slots() == start.face_slots() + i,
            keeps_faces(start, *mesh),
            mesh.same_vertices(&start),
            start.wf() ==> mesh.wf(),
            forall|k: int| 0 <= k < src@.len() ==> start.has_vertex(#[trigger] src@[k]),
            forall|k: int| 0 <= k < off@.len() ==> start.has_vertex(#[trigger] off@[k]),
        decreases n - i,
    {
        let a = src[i];
        let b = src[(i + 1) % n];
        let a2 = off[i];
        let b2 = off[(i + 1) % n];
        let quad = if forward {
            vec![a, b, b2, a2]
        } else {
            vec![a, a2, b2, b]
        };
        let ghost before = *mesh;
        let ghost ids_before = ids@;
        let no_holes: Vec<Vec<VertexId>> = Vec::new();
        let ghost nh = no_holes@;
        proof {
            assert(rings_view(nh) =~= Seq::<Seq<VertexId>>::empty());
            assert(start.has_vertex(src@[i as int]));
            assert(start.has_vertex(src@[(i as int + 1) % (n as int)]));
            assert(start.has_vertex(off@[i as int]));
            assert(start.has_vertex(off@[(i as int + 1) % (n as int)]));
            assert forall|v: VertexId| #[trigger] face_has_vertex((quad@, rings_view(nh)), v) implies mesh.has_vertex(v) by {
                if quad@.contains(v) {
                    let q = choose|q: int| 0 <= q < quad@.len() && quad@[q] == v;
                    assert(start.has_vertex(v));
                }
            }
        }
        let id = mesh.add_face(quad, no_holes);
        ids.push(id);
        proof {
            before.lemma_ids_in_range();
            start.lemma_ids_in_range();
            let walls = ring_walls(src@, off@, forward);
            let new_ids = ids@.subrange(ids0.len() as int, ids@.len() as int);
            let old_new_ids = ids_before.subrange(ids0.len() as int, ids_before.len() as int);
            assert(quad@ =~= wall_quad(src@[i as int], src@[(i as int + 1) % (n as int)], off@[i as int], off@[(i as int + 1) % (n as int)], forward));
            assert(rings_view(nh) =~= Seq::<Seq<VertexId>>::empty());
            assert(mesh.face(id) == walls[i as int]);
            assert forall|k: int| 0 <= k < new_ids.len() implies mesh.has_face(#[trigger] new_ids[k]) && mesh.face(new_ids[k]) == walls.take(i as int + 1)[k] by {
                if k < i {
                    assert(new_ids[k] == old_new_ids[k]);
                    assert(before.has_face(old_new_ids[k]));
                    assert(new_ids[k] != id);
                } else {
                    assert(new_ids[k] == id);
                }
            }
            assert(fresh_face_ids(new_ids, start.face_slots())) by {
                assert forall|k: int| 0 <= k < new_ids.len() implies (#[trigger] new_ids[k]).0 == start.face_slots() + k by {
                    if k < i {
                        assert(new_ids[k] == old_new_ids[k]);
                    }
                }
            }
            assert(ids@.subrange(0, ids0.len() as int) =~= ids0) by {
                assert(ids@.subrange(0, ids0.len() as int) =~= ids_before.subrange(0, ids0.len() as int));
            }
            assert forall|g: FaceId| start.has_face(g) implies #[trigger] face_kept(start, *mesh, g) by {
                assert(face_kept(start, before, g));
                assert(g != id);
            }
            assert forall|g: FaceId| g.0 < start.face_slots() implies (#[trigger] mesh.has_face(g) == start.has_face(g)) by {
                assert(g != id);
                assert(before.has_face(g) == start.has_face(g));
            }
        }
        i = i + 1;
    }
    proof {
        assert(ring_walls(src@, off@, forward).take(n as int) =~= ring_walls(src@, off@, forward));
    }
}

/// `len` consecutive fresh vertex ids starting at `base`.
pub open spec fn fresh_ring(base: nat, len: nat) -> Seq<VertexId> {
    Seq::new(len, |i: int| VertexId((base + i) as usize))
}

/// Fresh vertex ids for copies of each of `rings`, handed out ring after
/// ring starting at `base`.
pub open spec fn fresh_rings(base: nat, rings: Seq<Seq<VertexId>>) -> Seq<Seq<VertexId>> {
    Seq::new(rings.len(), |h: int| fresh_ring(base + total_len(rings.take(h)), rings[h].len()))
}

proof fn lemma_faces_are_append<P>(mesh: Mesh<P>, ids1: Seq<FaceId>, l1: Seq<FaceLoops>, ids2: Seq<FaceId>, l2: Seq<FaceLoops>)
    requires
        faces_are(mesh, ids1, l1),
        faces_are(mesh, ids2, l2),
    ensures
        faces_are(mesh, ids1 + ids2, l1 + l2),
{
    assert forall|k: int| 0 <= k < (ids1 + ids2).len() implies face_is(mesh, #[trigger] (ids1 + ids2)[k], (l1 + l2)[k]) by {
        if k < ids1.len() {
            assert((ids1 + ids2)[k] == ids1[k]);
        } else {
            assert((ids1 + ids2)[k] == ids2[k - ids1.len()]);
        }
    }
}

proof fn lemma_faces_are_kept<P>(prior: Mesh<P>, later: Mesh<P>, ids: Seq<FaceId>, l: Seq<FaceLoops>)
    requires
        faces_are(prior, ids, l),
        keeps_faces(prior, later),
    ensures
        faces_are(later, ids, l),
{
    assert forall|k: int| 0 <= k < ids.len() implies face_is(later, #[trigger] ids[k], l[k]) by {
        assert(face_is(prior, ids[k], l[k]));
        assert(face_kept(prior, later, ids[k]));
    }
}

proof fn lemma_keeps_faces_trans<P>(a: Mesh<P>, b: Mesh<P>, c: Mesh<P>)
    requires
        keeps_faces(a, b),
        keeps_faces(b, c),
    ensures
        keeps_faces(a, c),
{
    assert forall|g: FaceId| a.has_face(g) implies #[trigger] face_kept(a, c, g) by {
        assert(face_kept(a, b, g));
        assert(face_kept(b, c, g));
    }
    assert forall|g: FaceId| g.0 < a.face_slots() implies (#[trigger] c.has_face(g) == a.has_face(g)) by {
        assert(b.has_face(g) == a.has_face(g));
        assert(c.has_face(g) == b.has_face(g));
    }
}

proof fn lemma_same_vertices_trans<P>(a: Mesh<P>, b: Mesh<P>, c: Mesh<P>)
    requires
        b.same_vertices(&a),
        c.same_vertices(&b),
    ensures
        c.same_vertices(&a),
{
    assert forall|v: VertexId| #[trigger] c.has_vertex(v) == a.has_vertex(v) by {
        assert(b.has_vertex(v) == a.has_vertex(v));
    }
    assert forall|v: VertexId| a.has_vertex(v) implies #[trigger] c.pos(v) == a.pos(v) by {
        assert(b.has_vertex(v));
        assert(b.pos(v) == a.pos(v));
    }
}

/// Rings whose vertices exist, read backwards, form loops whose vertices
/// exist.
proof fn lemma_reversed_loops_exist<P>(mesh: Mesh<P>, outer: Seq<VertexId>, holes: Seq<Seq<VertexId>>)
    requires
        rings_exist(mesh, outer, holes),
    ensures
        mesh.loops_exist((outer.reverse(), reversed_rings(holes))),
{
    let rh = reversed_rings(holes);
    assert forall|i: int| 0 <= i < outer.reverse().len() implies mesh.has_vertex(#[trigger] outer.reverse()[i]) by {
        assert(outer.reverse()[i] == outer[outer.len() - 1 - i]);
    }
    assert forall|h: int, i: int| 0 <= h < rh.len() && 0 <= i < rh[h].len() implies mesh.has_vertex(#[trigger] rh[h][i]) by {
        assert(rh[h] == holes[h].reverse());
        assert(rh[h][i] == holes[h][holes[h].len() - 1 - i]);
    }
    lemma_rings_exist_loops(mesh, outer.reverse(), rh);
}

/// Adds the side walls of an extrusion: one per edge of the outer ring,
/// then one per edge of each hole ring, each against its offset copy.
fn add_walls<P>(
    mesh: &mut Mesh<P>,
    outer: &Vec<VertexId>,
    holes: &Vec<Vec<VertexId>>,
    off_outer: &Vec<VertexId>,
    off_holes: &Vec<Vec<VertexId>>,
    forward: bool,
) -> (ids: Vec<FaceId>)
    requires
        off_outer@.len() == outer@.len(),
        off_holes@.len() == holes@.len(),
        forall|h: int| 0 <= h < holes@.len() ==> (#[trigger] off_holes@[h])@.len() == holes@[h]@.len(),
        rings_exist(*old(mesh), outer@, rings_view(holes@)),
        rings_exist(*old(mesh), off_outer@, rings_view(off_holes@)),
        old(mesh).face_slots() + outer@.len() + total_len(rings_view(holes@)) < usize::MAX,
    ensures
        faces_are(
            *final(mesh),
            ids@,
            ring_walls(outer@, off_outer@, forward) + hole_walls(rings_view(holes@), rings_view(off_holes@), forward),
        ),
        fresh_face_ids(ids@, old(mesh).face_slots()),
        final(mesh).face_slots() == old(mesh).face_slots() + ids@.len(),
        keeps_faces(*old(mesh), *final(mesh)),
        final(mesh).same_vertices(old(mesh)),
        old(mesh).wf() ==> final(mesh).wf(),
{
    let ghost m0 = *mesh;
    let ghost holes_v = rings_view(holes@);
    let ghost offs_v = rings_view(off_holes@);
    let mut ids: Vec<FaceId> = Vec::new();
    proof {
        assert forall|i: int| 0 <= i < outer@.len() implies mesh.has_vertex(#[trigger] outer@[i]) by {}
    }
    add_ring_walls(mesh, outer, off_outer, forward, &mut ids);
    proof {
        assert(ids@.subrange(0, ids@.len() as int) =~= ids@);
        assert(holes_v.take(0) =~= Seq::<Seq<VertexId>>::empty());
        assert(offs_v.take(0) =~= Seq::<Seq<VertexId>>::empty());
        assert(hole_walls(holes_v.take(0), offs_v.take(0), forward) =~= Seq::<FaceLoops>::empty());
        assert(ring_walls(outer@, off_outer@, forward) + hole_walls(holes_v.take(0), offs_v.take(0), forward) =~= ring_walls(outer@, off_outer@, forward));
        assert(total_len(holes_v.take(0)) == 0);
    }
    let mut h: usize = 0;
    while h < holes.len()
        invariant
            holes_v == rings_view(holes@),
            offs_v == rings_view(off_holes@),
            off_holes@.len() == holes@.len(),
            forall|g: int| 0 <= g < holes@.len() ==> (#[trigger] off_holes@[g])@.len() == holes@[g]@.len(),
            h <= holes@.len(),
            mesh.face_slots() == m0.face_slots() + ids@.len(),
            m0.face_slots() + outer@.len() + total_len(holes_v) < usize::MAX,
            ids@.len() == outer@.len() + total_len(holes_v.take(h as int)),
            faces_are(*mesh, ids@, ring_walls(outer@, off_outer@, forward) + hole_walls(holes_v.take(h as int), offs_v.take(h as int), forward)),
            fresh_face_ids(ids@, m0.face_slots()),
            keeps_faces(m0, *mesh),
            mesh.same_vertices(&m0),
            m0.wf() ==> mesh.wf(),
            rings_exist(m0, outer@, holes_v),
            rings_exist(m0, off_outer@, offs_v),
        decreases holes@.len() - h,
    {
        let ghost before = *mesh;
        let ghost ids_before = ids@;
        proof {
            lemma_total_len_take(holes_v, h as int);
            lemma_total_len_prefix_bound(holes_v, h as int + 1);
            assert(holes_v[h as int] == holes@[h as int]@);
            assert(offs_v[h as int] == off_holes@[h as int]@);
            assert forall|i: int| 0 <= i < holes@[h as int]@.len() implies mesh.has_vertex(#[trigger] holes@[h as int]@[i]) by {
                assert(m0.has_vertex(holes_v[h as int][i]));
            }
            assert forall|i: int| 0 <= i < off_holes@[h as int]@.len() implies mesh.has_vertex(#[trigger] off_holes@[h as int]@[i]) by {
                assert(m0.has_vertex(offs_v[h as int][i]));
            }
        }
        let mut tail: Vec<FaceId> = Vec::new();
        add_ring_walls(mesh, &holes[h], &off_holes[h], forward, &mut tail);
        let ghost tail_v = tail@;
        ids.append(&mut tail);
        proof {
            assert(tail_v.subrange(0, tail_v.len() as int) =~= tail_v);
            let walls_h = ring_walls(holes_v[h as int], offs_v[h as int], forward);
            let prefix = ring_walls(outer@, off_outer@, forward) + hole_walls(holes_v.take(h as int), offs_v.take(h as int), forward);
            assert(ids@ =~= ids_before + tail_v);
            lemma_faces_are_kept(before, *mesh, ids_before, prefix);
            lemma_faces_are_append(*mesh, ids_before, prefix, tail_v, walls_h);
            assert(holes_v.take(h as int + 1).drop_last() =~= holes_v.take(h as int));
            assert(offs_v.take(h as int + 1).drop_last() =~= offs_v.take(h as int));
            assert(hole_walls(holes_v.take(h as int + 1), offs_v.take(h as int + 1), forward) == hole_walls(
                holes_v.take(h as int),
                offs_v.take(h as int),
                forward,
            ) + walls_h);
            assert(ring_walls(outer@, off_outer@, forward) + hole_walls(holes_v.take(h as int + 1), offs_v.take(h as int + 1), forward)
                =~= prefix + walls_h);
            assert forall|k: int| 0 <= k < ids@.len() implies (#[trigger] ids@[k]).0 == m0.face_slots() + k by {
                if k < ids_before.len() {
                    assert(ids@[k] == ids_before[k]);
                } else {
                    assert(ids@[k] == tail_v[k - ids_before.len()]);
                }
            }
            lemma_keeps_faces_trans(m0, before, *mesh);
            lemma_same_vertices_trans(m0, before, *mesh);
        }
        h = h + 1;
    }
    proof {
        assert(holes_v.take(holes@.len() as int) =~= holes_v);
        assert(offs_v.take(holes@.len() as int) =~= offs_v);
    }
    ids
}

/// Adds the caps of an extrusion (see `cap_faces`).
fn add_caps<P>(
    mesh: &mut Mesh<P>,
    outer: &Vec<VertexId>,
    holes: &Vec<Vec<VertexId>>,
    off_outer: &Vec<VertexId>,
    off_holes: &Vec<Vec<VertexId>>,
    forward: bool,
    attached: bool,
) -> (ids: Vec<FaceId>)
    requires
        rings_exist(*old(mesh), outer@, rings_view(holes@)),
        rings_exist(*old(mesh), off_outer@, rings_view(off_holes@)),
        old(mesh).face_slots() + 2 < usize::MAX,
    ensures
        faces_are(*final(mesh), ids@, cap_faces(outer@, rings_view(holes@), off_outer@, rings_view(off_holes@), forward, attached)),
        fresh_face_ids(ids@, old(mesh).face_slots()),
        final(mesh).face_slots() == old(mesh).face_slots() + ids@.len(),
        keeps_faces(*old(mesh), *final(mesh)),
        final(mesh).same_vertices(old(mesh)),
        old(mesh).wf() ==> final(mesh).wf(),
{
    let ghost m0 = *mesh;
    let ghost holes_v = rings_view(holes@);
    let ghost offs_v = rings_view(off_holes@);
    let ghost source_cap: FaceLoops = if forward {
        (outer@.reverse(), reversed_rings(holes_v))
    } else {
        (outer@, holes_v)
    };
    let ghost far_cap: FaceLoops = if forward {
        (off_outer@, offs_v)
    } else {
        (off_outer@.reverse(), reversed_rings(offs_v))
    };
    proof {
        lemma_rings_exist_loops(m0, outer@, holes_v);
        lemma_reversed_loops_exist(m0, outer@, holes_v);
        lemma_rings_exist_loops(m0, off_outer@, offs_v);
        lemma_reversed_loops_exist(m0, off_outer@, offs_v);
        assert(m0.loops_exist(source_cap));
        assert(m0.loops_exist(far_cap));
    }
    let mut ids: Vec<FaceId> = Vec::new();
    if !attached {
        let (cap_outer, cap_holes) = if forward {
            (reversed_ring(outer), reversed_each(holes))
        } else {
            (copy_ring(outer), copy_rings(holes))
        };
        proof {
            assert((cap_outer@, rings_view(cap_holes@)) == source_cap);
        }
        let id = mesh.add_face(cap_outer, cap_holes);
        ids.push(id);
        proof {
            assert forall|g: FaceId| m0.has_face(g) implies #[trigger] face_kept(m0, *mesh, g) by {
                assert(g != id);
            }
        }
    }
    let ghost mid = *mesh;
    let ghost ids_mid = ids@;
    let (far_outer, far_holes) = if forward {
        (copy_ring(off_outer), copy_rings(off_holes))
    } else {
        (reversed_ring(off_outer), reversed_each(off_holes))
    };
    proof {
        m0.lemma_ids_in_range();
        mid.lemma_ids_in_range();
        assert((far_outer@, rings_view(far_holes@)) == far_cap);
        assert forall|v: VertexId| #[trigger] face_has_vertex(far_cap, v) implies mid.has_vertex(v) by {
            assert(m0.has_vertex(v));
        }
    }
    let id = mesh.add_face(far_outer, far_holes);
    ids.push(id);
    proof {
        let caps = cap_faces(outer@, holes_v, off_outer@, offs_v, forward, attached);
        assert forall|k: int| 0 <= k < ids@.len() implies face_is(*mesh, #[trigger] ids@[k], caps[k]) by {
            if k < ids_mid.len() {
                assert(ids@[k] == ids_mid[k]);
                assert(ids_mid[k] != id);
            }
        }
        assert forall|g: FaceId| m0.has_face(g) implies #[trigger] face_kept(m0, *mesh, g) by {
            assert(g != id);
            assert(face_kept(m0, mid, g));
        }
        assert forall|g: FaceId| g.0 < m0.face_slots() implies (#[trigger] mesh.has_face(g) == m0.has_face(g)) by {
            assert(g != id);
            assert(mid.has_face(g) == m0.has_face(g));
        }
        lemma_same_vertices_trans(m0, mid, *mesh);
    }
    ids
}

/// The mesh has room to extrude face `face_id`: the copies of its vertices
/// and the new faces all get ids below `usize::MAX`.
pub open spec fn extrusion_room<P>(mesh: Mesh<P>, face_id: FaceId) -> bool {
    &&& mesh.vertex_slots() + mesh.face(face_id).0.len() + total_len(mesh.face(face_id).1) < usize::MAX
    &&& mesh.face_slots() + mesh.face(face_id).0.len() + total_len(mesh.face(face_id).1) + 2 < usize::MAX
}

/// Whether the mesh has room to extrude face `face_id`.
pub fn extrusion_fits<P>(mesh: &Mesh<P>, face_id: FaceId) -> (r: bool)
    requires
        mesh.has_face(face_id),
    ensures
        r == extrusion_room(*mesh, face_id),
{
    let face = mesh.get_face(face_id).unwrap();
    let ghost holes = rings_view(face.holes@);
    let mut n: usize = face.outer.len();
    let mut h: usize = 0;
    proof {
        assert(holes.take(0) =~= Seq::<Seq<VertexId>>::empty());
    }
    while h < face.holes.len()
        invariant
            holes == rings_view(face.holes@),
            face@ == mesh.face(face_id),
            h <= holes.len(),
            n == face.outer@.len() + total_len(holes.take(h as int)),
        decreases holes.len() - h,
    {
        let l = face.holes[h].len();
        proof {
            lemma_total_len_take(holes, h as int);
            lemma_total_len_prefix_bound(holes, h as int + 1);
            assert(holes[h as int] == face.holes@[h as int]@);
        }
        if n > usize::MAX - l {
            proof {
                assert(mesh.face(face_id).1 == holes);
                assert(total_len(holes) >= n + l - face.outer@.len());
            }
            return false;
        }
        n = n + l;
        h = h + 1;
    }
    proof {
        assert(holes.take(holes.len() as int) =~= holes);
    }
    let vc = mesh.vertex_count();
    let fc = mesh.face_count();
    if n >= usize::MAX - 2 {
        return false;
    }
    vc < usize::MAX - n && fc < usize::MAX - n - 2
}

/// `later` is `prior` after face `face_id` was extruded into the faces
/// `r` (see `push_pull_by`): the new faces are exactly `extrusion_faces` of
/// the source loops against fresh offset copies placed by `offset`, under
/// fresh ids; the source face is gone; every other face and every old
/// vertex is untouched.
pub open spec fn extruded<P, F: Fn(FaceId, P) -> P>(
    prior: Mesh<P>,
    later: Mesh<P>,
    face_id: FaceId,
    offset: F,
    forward: bool,
    attached: bool,
    r: Seq<FaceId>,
) -> bool {
    let (outer, holes) = prior.face(face_id);
    let base = prior.vertex_slots();
    let off_outer = fresh_ring(base, outer.len());
    let off_holes = fresh_rings(base + outer.len(), holes);
    &&& faces_are(later, r, extrusion_faces(outer, holes, off_outer, off_holes, forward, attached))
    &&& fresh_face_ids(r, prior.face_slots())
    &&& later.vertex_slots() == base + outer.len() + total_len(holes)
    &&& forall|i: int|
        0 <= i < outer.len() ==> later.has_vertex(#[trigger] off_outer[i]) && offset.ensures(
            (face_id, prior.pos(outer[i])),
            later.pos(off_outer[i]),
        )
    &&& forall|h: int, i: int|
        0 <= h < holes.len() && 0 <= i < holes[h].len() ==> later.has_vertex(#[trigger] off_holes[h][i]) && offset.ensures(
            (face_id, prior.pos(holes[h][i])),
            later.pos(off_holes[h][i]),
        )
    &&& !later.has_face(face_id)
    &&& keeps_other_faces(prior, later, Some(face_id))
    &&& forall|v: VertexId| prior.has_vertex(v) ==> #[trigger] later.has_vertex(v) && later.pos(v) == prior.pos(v)
    &&& forall|v: VertexId| v.0 < prior.vertex_slots() ==> (#[trigger] later.has_vertex(v) == prior.has_vertex(v))
}

/// Extrudes face `face_id` into a closed solid: every vertex of the face
/// gets an offset copy placed at `offset` of its position, a wall joins
/// each boundary edge (outer ring and holes alike) to its copy, and caps
/// close the ends (see `extrusion_faces`); the source face is removed.
/// `nonnegative` says the extrusion distance is not negative, which decides
/// the winding together with `attached` (a face on an existing solid's
/// boundary: no cap at the source position, always wound forward).
/// Returns the new faces in the order of `extrusion_faces`.
pub fn push_pull_by<P: Copy, F: Fn(FaceId, P) -> P>(
    mesh: &mut Mesh<P>,
    face_id: FaceId,
    offset: &F,
    nonnegative: bool,
    attached: bool,
) -> (r: Vec<FaceId>)
    requires
        old(mesh).wf(),
        old(mesh).has_face(face_id),
        forall|p: P| offset.requires((face_id, p)),
        old(mesh).vertex_slots() + old(mesh).face(face_id).0.len() + total_len(old(mesh).face(face_id).1) < usize::MAX,
        old(mesh).face_slots() + old(mesh).face(face_id).0.len() + total_len(old(mesh).face(face_id).1) + 2 < usize::MAX,
    ensures
        extruded(*old(mesh), *final(mesh), face_id, *offset, attached || nonnegative, attached, r@),
        final(mesh).wf(),
{
    let ghost m0 = *mesh;
    let ghost outer_v = m0.face(face_id).0;
    let ghost holes_v = m0.face(face_id).1;
    proof {
        lemma_wf_face_rings(m0, face_id);
    }
    let face = mesh.get_face(face_id).unwrap().clone();
    let forward = attached || nonnegative;
    proof {
        assert(face.outer@ == outer_v);
        assert(rings_view(face.holes@) == holes_v);
        assert forall|h: int, i: int| 0 <= h < face.holes@.len() && 0 <= i < face.holes@[h]@.len() implies mesh.has_vertex(
            #[trigger] face.holes@[h]@[i],
        ) by {
            assert(rings_view(face.holes@)[h] == face.holes@[h]@);
            assert(m0.has_vertex(holes_v[h][i]));
        }
    }
    let off_outer = offset_ring(mesh, face_id, &face.outer, offset);
    let ghost m1 = *mesh;
    let off_holes = offset_rings(mesh, face_id, &face.holes, offset);
    let ghost m2 = *mesh;
    let ghost fresh_outer = fresh_ring(m0.vertex_slots(), outer_v.len());
    let ghost fresh_holes = fresh_rings(m0.vertex_slots() + outer_v.len(), holes_v);
    proof {
        m0.lemma_ids_in_range();
        assert(off_outer@ =~= fresh_outer);
        assert forall|h: int| 0 <= h < holes_v.len() implies (#[trigger] rings_view(off_holes@)[h]) =~= fresh_holes[h] by {
            assert(face.holes@[h]@ == holes_v[h]);
            assert(off_holes@[h]@.len() == holes_v[h].len());
        }
        assert(rings_view(off_holes@) =~= fresh_holes);
        lemma_rings_exist_carry(m0, m2, outer_v, holes_v);
        assert forall|h: int, i: int| 0 <= h < fresh_holes.len() && 0 <= i < fresh_holes[h].len() implies m2.has_vertex(
            #[trigger] fresh_holes[h][i],
        ) by {
            assert(rings_view(off_holes@)[h] == off_holes@[h]@);
        }
        assert forall|h: int| 0 <= h < face.holes@.len() implies (#[trigger] off_holes@[h])@.len() == face.holes@[h]@.len() by {}
    }
    let mut ids = add_walls(mesh, &face.outer, &face.holes, &off_outer, &off_holes, forward);
    let ghost m3 = *mesh;
    let ghost walls_ids = ids@;
    proof {
        lemma_rings_exist_carry(m2, m3, outer_v, holes_v);
        lemma_rings_exist_carry(m2, m3, fresh_outer, fresh_holes);
        lemma_hole_walls_len(holes_v, fresh_holes, forward);
    }
    let mut caps = add_caps(mesh, &face.outer, &face.holes, &off_outer, &off_holes, forward, attached);
    let ghost m4 = *mesh;
    let ghost caps_ids = caps@;
    ids.append(&mut caps);
    mesh.remove_face(face_id);
    proof {
        let walls = ring_walls(outer_v, fresh_outer, forward) + hole_walls(holes_v, fresh_holes, forward);
        let cap = cap_faces(outer_v, holes_v, fresh_outer, fresh_holes, forward, attached);
        lemma_faces_are_kept(m3, m4, walls_ids, walls);
        assert(ids@ =~= walls_ids + caps_ids);
        lemma_faces_are_append(m4, walls_ids, walls, caps_ids, cap);
        m4.lemma_ids_in_range();
        assert forall|k: int| 0 <= k < ids@.len() implies (#[trigger] ids@[k]).0 == m0.face_slots() + k by {
            if k < walls_ids.len() {
                assert(ids@[k] == walls_ids[k]);
            } else {
                assert(ids@[k] == caps_ids[k - walls_ids.len()]);
            }
        }
        assert forall|k: int| 0 <= k < ids@.len() implies face_is(*mesh, #[trigger] ids@[k], (walls + cap)[k]) by {
            assert(face_is(m4, ids@[k], (walls + cap)[k]));
            assert(ids@[k] != face_id);
        }
        lemma_keeps_faces_trans(m2, m3, m4);
        assert forall|g: FaceId| m0.has_face(g) && Some(g) != Some(face_id) implies #[trigger] mesh.has_face(g) && mesh.face(g) == m0.face(g) by {
            assert(m2.has_face(g));
            assert(face_kept(m2, m4, g));
        }
        assert forall|g: FaceId| g.0 < m0.face_slots() && Some(g) != Some(face_id) implies (#[trigger] mesh.has_face(g) == m0.has_face(g)) by {
            assert(m4.has_face(g) == m2.has_face(g));
        }
        lemma_same_vertices_trans(m2, m3, m4);
        assert forall|i: int| 0 <= i < outer_v.len() implies mesh.has_vertex(#[trigger] fresh_outer[i]) && offset.ensures(
            (face_id, m0.pos(outer_v[i])),
            mesh.pos(fresh_outer[i]),
        ) by {
            assert(off_outer@[i] == fresh_outer[i]);
            assert(m1.has_vertex(off_outer@[i]));
            assert(m2.has_vertex(off_outer@[i]));
        }
        assert forall|g: int, i: int| 0 <= g < holes_v.len() && 0 <= i < holes_v[g].len() implies mesh.has_vertex(
            #[trigger] fresh_holes[g][i],
        ) && offset.ensures((face_id, m0.pos(holes_v[g][i])), mesh.pos(fresh_holes[g][i])) by {
            assert(rings_view(off_holes@)[g] == off_holes@[g]@);
            assert(off_holes@[g]@[i] == fresh_holes[g][i]);
            assert(face.holes@[g]@ == holes_v[g]);
            assert(m1.pos(holes_v[g][i]) == m0.pos(holes_v[g][i])) by {
                assert(m0.has_vertex(holes_v[g][i]));
                assert(m1.has_vertex(holes_v[g][i]));
            }
        }
    }
    ids
}

/// `edges` with every vertex renamed by `vm` and every face by `fm`, each
/// edge turned around when `reverse`.
pub open spec fn relabeled(
    edges: Seq<DirectedEdge>,
    vm: spec_fn(VertexId) -> VertexId,
    fm: spec_fn(FaceId) -> FaceId,
    reverse: bool,
) -> Seq<DirectedEdge> {
    edges.map_values(|e: DirectedEdge| if reverse { (vm(e.1), vm(e.0), fm(e.2)) } else { (vm(e.0), vm(e.1), fm(e.2)) })
}

/// `v` is an end of one of `edges`.
pub open spec fn edge_end(edges: Seq<DirectedEdge>, v: VertexId) -> bool {
    exists|j: int| 0 <= j < edges.len() && ((#[trigger] edges[j]).0 == v || edges[j].1 == v)
}

/// `vm` renames no two ends of `edges` to the same vertex.
pub open spec fn one_for_one(edges: Seq<DirectedEdge>, vm: spec_fn(VertexId) -> VertexId) -> bool {
    forall|x: VertexId, y: VertexId| edge_end(edges, x) && edge_end(edges, y) && #[trigger] vm(x) == #[trigger] vm(y) ==> x == y
}

proof fn lemma_relabeled_count(
    edges: Seq<DirectedEdge>,
    all: Seq<DirectedEdge>,
    vm: spec_fn(VertexId) -> VertexId,
    fm: spec_fn(FaceId) -> FaceId,
    reverse: bool,
    a: VertexId,
    b: VertexId,
)
    requires
        one_for_one(all, vm),
        forall|j: int| 0 <= j < edges.len() ==> edge_end(all, (#[trigger] edges[j]).0) && edge_end(all, edges[j].1),
        edge_end(all, a),
        edge_end(all, b),
    ensures
        edge_count(relabeled(edges, vm, fm, reverse), vm(a), vm(b)) == if reverse {
            edge_count(edges, b, a)
        } else {
            edge_count(edges, a, b)
        },
    decreases edges.len(),
{
    if edges.len() > 0 {
        let rest = edges.drop_last();
        assert forall|j: int| 0 <= j < rest.len() implies edge_end(all, (#[trigger] rest[j]).0) && edge_end(all, rest[j].1) by {
            assert(rest[j] == edges[j]);
        }
        lemma_relabeled_count(rest, all, vm, fm, reverse, a, b);
        assert(relabeled(edges, vm, fm, reverse).drop_last() =~= relabeled(rest, vm, fm, reverse));
        let l = edges.last();
        assert(edge_end(all, l.0) && edge_end(all, l.1)) by {
            assert(l == edges[edges.len() - 1]);
        }
        if vm(l.0) == vm(a) {
            assert(l.0 == a);
        }
        if vm(l.1) == vm(b) {
            assert(l.1 == b);
        }
        if vm(l.1) == vm(a) {
            assert(l.1 == a);
        }
        if vm(l.0) == vm(b) {
            assert(l.0 == b);
        }
    }
}

proof fn lemma_count_ends(edges: Seq<DirectedEdge>, a: VertexId, b: VertexId)
    requires
        edge_count(edges, a, b) > 0,
    ensures
        edge_end(edges, a),
        edge_end(edges, b),
{
    lemma_edge_count_positive(edges, a, b);
    let j = choose|j: int| 0 <= j < edges.len() && (#[trigger] edges[j]).0 == a && edges[j].1 == b;
    assert(edges[j].0 == a);
}

/// Renaming the vertices of a triangulation one for one - which is what a
/// copy does, every copied face running through one shared vertex map -
/// keeps it watertight, and keeps it broken; so does turning every edge
/// around, as a mirrored copy's reversed loops do.
pub proof fn lemma_relabeled_clean(
    edges: Seq<DirectedEdge>,
    vm: spec_fn(VertexId) -> VertexId,
    fm: spec_fn(FaceId) -> FaceId,
    reverse: bool,
)
    requires
        one_for_one(edges, vm),
    ensures
        check_manifold_is_clean(relabeled(edges, vm, fm, reverse)) <==> check_manifold_is_clean(edges),
{
    let rel = relabeled(edges, vm, fm, reverse);
    assert forall|j: int| 0 <= j < edges.len() implies edge_end(edges, (#[trigger] edges[j]).0) && edge_end(edges, edges[j].1) by {}
    if check_manifold_is_clean(edges) {
        assert forall|x: VertexId, y: VertexId| !#[trigger] is_problem_edge(rel, x, y) by {
            if is_problem_edge(rel, x, y) {
                lemma_edge_count_positive(rel, x, y);
                let j = choose|j: int| 0 <= j < rel.len() && (#[trigger] rel[j]).0 == x && rel[j].1 == y;
                let e = edges[j];
                assert(rel[j] == if reverse { (vm(e.1), vm(e.0), fm(e.2)) } else { (vm(e.0), vm(e.1), fm(e.2)) });
                let (a, b) = if reverse { (e.1, e.0) } else { (e.0, e.1) };
                assert(edge_end(edges, a) && edge_end(edges, b));
                lemma_relabeled_count(edges, edges, vm, fm, reverse, a, b);
                lemma_relabeled_count(edges, edges, vm, fm, reverse, b, a);
                if reverse {
                    assert(!is_problem_edge(edges, b, a));
                } else {
                    assert(!is_problem_edge(edges, a, b));
                }
            }
        }
    }
    if check_manifold_is_clean(rel) {
        assert forall|a: VertexId, b: VertexId| !#[trigger] is_problem_edge(edges, a, b) by {
            if is_problem_edge(edges, a, b) {
                lemma_count_ends(edges, a, b);
                lemma_relabeled_count(edges, edges, vm, fm, reverse, a, b);
                lemma_relabeled_count(edges, edges, vm, fm, reverse, b, a);
                if reverse {
                    assert(is_problem_edge(rel, vm(b), vm(a)));
                } else {
                    assert(is_problem_edge(rel, vm(a), vm(b)));
                }
            }
        }
    }
}

} // verus!
