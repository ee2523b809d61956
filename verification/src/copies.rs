use vstd::prelude::*;

use crate::document::Document;
use crate::mesh::{face_has_vertex, rings_view, Face, FaceId, Mesh, VertexId};
use crate::project::{extend_new, faces_reading, lemma_distinct_vertices_bounded, lemma_extend_new_concat, lemma_index_stable, lemma_rings_reading_take, rings_reading};

verus! {

/// Upper bound on the cells one array may produce: a mistyped count is
/// refused instead of building tens of thousands of solids.
pub const MAX_ARRAY_CELLS: usize = 400;

/// Why the counts of an array request are refused.
#[derive(Clone, Copy, PartialEq, Eq, Structural, Debug)]
pub enum ArrayCountError {
    /// Fewer than one column or one row.
    NoCells,
    /// More than `MAX_ARRAY_CELLS` cells; holds the cell count, or
    /// `usize::MAX` where the product does not fit.
    TooManyCells(usize),
}

/// The number of cells `columns` x `rows` counts, or `usize::MAX` where the
/// product does not fit.
pub open spec fn saturated_cells(columns: usize, rows: usize) -> usize {
    if columns * rows <= usize::MAX {
        (columns * rows) as usize
    } else {
        usize::MAX
    }
}

/// Checks the counts of an array request before anything is built: at
/// least one column and one row, and at most `MAX_ARRAY_CELLS` cells.
/// Returns the cell count.
pub fn check_array_counts(columns: usize, rows: usize) -> (r: Result<usize, ArrayCountError>)
    ensures
        columns < 1 || rows < 1 ==> r == Err::<usize, ArrayCountError>(ArrayCountError::NoCells),
        columns >= 1 && rows >= 1 && columns * rows <= MAX_ARRAY_CELLS ==> r == Ok::<usize, ArrayCountError>(
            (columns * rows) as usize,
        ),
        columns >= 1 && rows >= 1 && columns * rows > MAX_ARRAY_CELLS ==> r == Err::<usize, ArrayCountError>(
            ArrayCountError::TooManyCells(saturated_cells(columns, rows)),
        ),
{
    if columns < 1 || rows < 1 {
        return Err(ArrayCountError::NoCells);
    }
    let cells: usize = if columns > usize::MAX / rows {
        proof {
            assert(columns * rows > usize::MAX) by (nonlinear_arith)
                requires
                    columns > usize::MAX / rows,
                    rows >= 1,
            ;
        }
        usize::MAX
    } else {
        proof {
            assert(columns * rows <= usize::MAX) by (nonlinear_arith)
                requires
                    columns <= usize::MAX / rows,
                    rows >= 1,
            ;
        }
        columns * rows
    };
    if cells > MAX_ARRAY_CELLS {
        Err(ArrayCountError::TooManyCells(cells))
    } else {
        Ok(cells)
    }
}

/// The id of the `i`-th vertex copy made in a mesh that had `base` vertex
/// slots: copies take the next slots, in the order they are made.
pub open spec fn fresh_vertex(base: nat, i: int) -> VertexId {
    VertexId((base + i) as usize)
}

/// Loop `l` with each vertex replaced by its copy, `seen` listing the
/// copied vertices in the order their copies were made from slot `base`
/// on; reversed when `reverse`.
pub open spec fn carried(l: Seq<VertexId>, seen: Seq<VertexId>, base: nat, reverse: bool) -> Seq<VertexId> {
    let m = l.map_values(|v: VertexId| fresh_vertex(base, seen.index_of(v)));
    if reverse {
        m.reverse()
    } else {
        m
    }
}

/// The loops of a face carried as `carried` does, outer and holes alike.
pub open spec fn carried_face(
    f: (Seq<VertexId>, Seq<Seq<VertexId>>),
    seen: Seq<VertexId>,
    base: nat,
    reverse: bool,
) -> (Seq<VertexId>, Seq<Seq<VertexId>>) {
    (carried(f.0, seen, base, reverse), f.1.map_values(|h: Seq<VertexId>| carried(h, seen, base, reverse)))
}

/// Holds of the faces of `m`.
pub open spec fn in_mesh<P>(m: Mesh<P>) -> spec_fn(FaceId) -> bool {
    |f: FaceId| m.has_face(f)
}

/// The entries of `ids` that are faces of `m`, in order (repeats kept).
pub open spec fn present_in<P>(m: Mesh<P>, ids: Seq<FaceId>) -> Seq<FaceId> {
    ids.filter(in_mesh(m))
}

/// Holds of the faces of `m` whose ids are below `n`.
pub open spec fn live_below<P>(m: Mesh<P>, n: nat) -> spec_fn(FaceId) -> bool {
    |f: FaceId| f.0 < n && m.has_face(f)
}

/// Where a position-mapping closure may send a position.
pub open spec fn placed_by<P, F: Fn(P) -> P>(map_pos: F) -> spec_fn(P, P) -> bool {
    |p: P, q: P| map_pos.ensures((p,), q)
}

/// `cur` is `m0` with one fresh vertex per entry of `seen`, made in that
/// order, each where `placed` allows for its source's position; nothing
/// else about the vertices changed.
pub open spec fn copied_so_far<P>(m0: Mesh<P>, cur: Mesh<P>, seen: Seq<VertexId>, placed: spec_fn(P, P) -> bool) -> bool {
    &&& seen.no_duplicates()
    &&& forall|i: int| 0 <= i < seen.len() ==> m0.has_vertex(#[trigger] seen[i])
    &&& cur.vertex_slots() == m0.vertex_slots() + seen.len()
    &&& forall|v: VertexId| #[trigger] cur.has_vertex(v) <==> (m0.has_vertex(v) || (m0.vertex_slots() <= v.0 < cur.vertex_slots()))
    &&& forall|v: VertexId| m0.has_vertex(v) ==> #[trigger] cur.pos(v) == m0.pos(v)
    &&& forall|i: int| 0 <= i < seen.len() ==> placed(m0.pos(#[trigger] seen[i]), cur.pos(fresh_vertex(m0.vertex_slots(), i)))
}

/// `d1` is `d0` with a copy of each face of `src` appended, in order, as
/// the faces `r`: the copies share fresh vertices exactly where the
/// sources share vertices (`seen` lists the copied vertices, whose copies
/// take the next vertex slots in that order, placed as `placed` allows),
/// their loops reversed when `reverse`; a copy is a solid face when its
/// source is; the copies join no group; everything else is as it was.
pub open spec fn copies_made<P>(
    d0: Document<P>,
    d1: Document<P>,
    src: Seq<FaceId>,
    seen: Seq<VertexId>,
    r: Seq<FaceId>,
    placed: spec_fn(P, P) -> bool,
    reverse: bool,
) -> bool {
    let m0 = d0.the_mesh();
    let m1 = d1.the_mesh();
    &&& d1.wf()
    &&& m1.wf()
    &&& copied_so_far(m0, m1, seen, placed)
    &&& forall|v: VertexId| #[trigger] seen.contains(v) <==> exists|k: int| 0 <= k < src.len() && #[trigger] face_has_vertex(m0.face(src[k]), v)
    &&& seen == extend_new(Seq::empty(), faces_reading(m0, src))
    &&& r.len() == src.len()
    &&& forall|k: int| 0 <= k < r.len() ==> #[trigger] r[k] == FaceId((m0.face_slots() + k) as usize)
    &&& m1.face_slots() == m0.face_slots() + r.len()
    &&& forall|g: FaceId| g.0 < m0.face_slots() ==> #[trigger] m1.has_face(g) == m0.has_face(g)
    &&& forall|g: FaceId| m0.has_face(g) ==> #[trigger] m1.face(g) == m0.face(g)
    &&& forall|k: int|
        0 <= k < r.len() ==> m1.has_face(#[trigger] r[k]) && m1.face(r[k]) == carried_face(m0.face(src[k]), seen, m0.vertex_slots(), reverse)
    &&& forall|f: FaceId|
        #[trigger] d1.solids().contains(f) <==> (d0.solids().contains(f) || exists|k: int|
            0 <= k < r.len() && r[k] == f && #[trigger] d0.solids().contains(src[k]))
    &&& d1.same_groups(&d0)
    &&& d1.guide_list() == d0.guide_list()
}

/// Holds of every grid cell but the source's own, (0, 0).
pub open spec fn not_origin() -> spec_fn((usize, usize)) -> bool {
    |c: (usize, usize)| !(c.0 == 0 && c.1 == 0)
}

/// Cells `(0, row) .. (n - 1, row)`, as (column, row).
pub open spec fn row_cells(n: nat, row: nat) -> Seq<(usize, usize)> {
    Seq::new(n, |c: int| (c as usize, row as usize))
}

/// The cells of a `columns` x `rows` grid, row by row, as (column, row).
pub open spec fn grid_cells(columns: nat, rows: nat) -> Seq<(usize, usize)>
    decreases rows,
{
    if rows == 0 {
        Seq::empty()
    } else {
        grid_cells(columns, (rows - 1) as nat) + row_cells(columns, (rows - 1) as nat)
    }
}

/// The cells of an array that get a copy: every cell of the grid but the
/// source's own, in row-major order.
pub open spec fn array_cells(columns: nat, rows: nat) -> Seq<(usize, usize)> {
    grid_cells(columns, rows).filter(not_origin())
}

/// Where the array's position closure may send a position for `cell`.
pub open spec fn placed_at<P, F: Fn(usize, usize, P) -> P>(offset: F, cell: (usize, usize)) -> spec_fn(P, P) -> bool {
    |p: P, q: P| offset.ensures((cell.0, cell.1, p), q)
}

/// `ds` is the run of documents an array goes through from `d0`: one copy
/// of the faces `src` per cell of `cells`, in order, each placed by
/// `offset` for its cell, the copies of cell `c` being `rs[c]`.
pub open spec fn arrayed<P, F: Fn(usize, usize, P) -> P>(
    d0: Document<P>,
    ds: Seq<Document<P>>,
    seens: Seq<Seq<VertexId>>,
    rs: Seq<Seq<FaceId>>,
    src: Seq<FaceId>,
    cells: Seq<(usize, usize)>,
    offset: F,
) -> bool {
    &&& ds.len() == cells.len() + 1
    &&& seens.len() == cells.len()
    &&& rs.len() == cells.len()
    &&& ds[0] == d0
    &&& forall|c: int|
        0 <= c < cells.len() ==> copies_made(ds[c], ds[c + 1], src, seens[c], #[trigger] rs[c], placed_at(offset, cells[c]), false)
}

/// Position of `v` in `list`, if it is there.
fn vertex_position(list: &Vec<VertexId>, v: VertexId) -> (r: Option<usize>)
    requires
        list@.no_duplicates(),
    ensures
        match r {
            Some(i) => i < list@.len() && list@[i as int] == v && i as int == list@.index_of(v),
            None => !list@.contains(v),
        },
{
    let mut i: usize = 0;
    while i < list.len()
        invariant
            i <= list@.len(),
            list@.no_duplicates(),
            forall|k: int| 0 <= k < i ==> list@[k] != v,
        decreases list@.len() - i,
    {
        if list[i] == v {
            proof {
                assert(list@.contains(v));
                let c = list@.index_of(v);
                if c != i {
                    assert(list@[c] == list@[i as int]);
                }
            }
            return Some(i);
        }
        i = i + 1;
    }
    None
}

/// `l` back to front.
fn reversed_ids(l: Vec<VertexId>) -> (r: Vec<VertexId>)
    ensures
        r@ == l@.reverse(),
{
    let mut out: Vec<VertexId> = Vec::new();
    let n = l.len();
    let mut i: usize = 0;
    while i < n
        invariant
            n == l@.len(),
            i <= n,
            out@.len() == i,
            forall|k: int| 0 <= k < i ==> out@[k] == l@[n - 1 - k],
        decreases n - i,
    {
        out.push(l[n - 1 - i]);
        i = i + 1;
    }
    proof {
        assert(out@ =~= l@.reverse());
    }
    out
}

/// Carrying a loop through a longer list of copies changes nothing when the
/// shorter list already held every vertex of the loop.
proof fn lemma_carried_stable(l: Seq<VertexId>, a: Seq<VertexId>, b: Seq<VertexId>, base: nat, reverse: bool)
    requires
        a.is_prefix_of(b),
        b.no_duplicates(),
        forall|t: int| 0 <= t < l.len() ==> a.contains(#[trigger] l[t]),
    ensures
        carried(l, a, base, reverse) == carried(l, b, base, reverse),
{
    let ma = l.map_values(|v: VertexId| fresh_vertex(base, a.index_of(v)));
    let mb = l.map_values(|v: VertexId| fresh_vertex(base, b.index_of(v)));
    assert forall|t: int| 0 <= t < l.len() implies ma[t] == mb[t] by {
        lemma_index_stable(a, b, l[t]);
    }
    assert(ma =~= mb);
}

/// Every vertex of a carried loop is one of the copies.
proof fn lemma_carried_vertices_exist<P>(
    m0: Mesh<P>,
    cur: Mesh<P>,
    seen: Seq<VertexId>,
    f: (Seq<VertexId>, Seq<Seq<VertexId>>),
    reverse: bool,
    placed: spec_fn(P, P) -> bool,
    v: VertexId,
)
    requires
        copied_so_far(m0, cur, seen, placed),
        forall|w: VertexId| #[trigger] face_has_vertex(f, w) ==> seen.contains(w),
        face_has_vertex(carried_face(f, seen, m0.vertex_slots(), reverse), v),
    ensures
        cur.has_vertex(v),
{
    let cf = carried_face(f, seen, m0.vertex_slots(), reverse);
    let base = m0.vertex_slots();
    let l: Seq<VertexId> = if cf.0.contains(v) {
        f.0
    } else {
        let h = choose|h: int| 0 <= h < cf.1.len() && #[trigger] cf.1[h].contains(v);
        assert(cf.1[h] == carried(f.1[h], seen, base, reverse));
        f.1[h]
    };
    assert(carried(l, seen, base, reverse).contains(v));
    let m = l.map_values(|w: VertexId| fresh_vertex(base, seen.index_of(w)));
    let t = choose|t: int| 0 <= t < carried(l, seen, base, reverse).len() && carried(l, seen, base, reverse)[t] == v;
    let t2: int = if reverse { m.len() - 1 - t } else { t };
    assert(m[t2] == v);
    let w = l[t2];
    assert(l.contains(w));
    assert(face_has_vertex(f, w)) by {
        if !cf.0.contains(v) {
            let h = choose|h: int| 0 <= h < cf.1.len() && #[trigger] cf.1[h].contains(v);
            assert(f.1[h].contains(w));
        }
    }
    assert(seen.contains(w));
    let c = seen.index_of(w);
    assert(0 <= c < seen.len());
    assert(v == fresh_vertex(base, c));
    cur.lemma_slots_bounded();
}

/// Changing only the selection keeps a finished copy a finished copy.
proof fn lemma_copies_made_reselect<P>(
    d0: Document<P>,
    d1: Document<P>,
    d2: Document<P>,
    src: Seq<FaceId>,
    seen: Seq<VertexId>,
    r: Seq<FaceId>,
    placed: spec_fn(P, P) -> bool,
    reverse: bool,
)
    requires
        copies_made(d0, d1, src, seen, r, placed, reverse),
        d2.wf(),
        d2.the_mesh() == d1.the_mesh(),
        d2.solids() == d1.solids(),
        d2.same_groups(&d1),
        d2.guide_list() == d1.guide_list(),
    ensures
        copies_made(d0, d2, src, seen, r, placed, reverse),
{
    assert forall|g| #[trigger] d2.has_group(g) == d0.has_group(g) by {
        assert(d1.has_group(g) == d0.has_group(g));
    }
    assert forall|g| d0.has_group(g) implies #[trigger] d2.group(g) == d0.group(g) by {
        assert(d1.has_group(g));
        assert(d1.group(g) == d0.group(g));
    }
    assert forall|f| #[trigger] d2.group_of(f) == d0.group_of(f) by {
        assert(d1.group_of(f) == d0.group_of(f));
    }
}

/// A copy placed as `p1` allows is placed as any looser `p2` allows.
proof fn lemma_copies_made_placed<P>(
    d0: Document<P>,
    d1: Document<P>,
    src: Seq<FaceId>,
    seen: Seq<VertexId>,
    r: Seq<FaceId>,
    p1: spec_fn(P, P) -> bool,
    p2: spec_fn(P, P) -> bool,
    reverse: bool,
)
    requires
        copies_made(d0, d1, src, seen, r, p1, reverse),
        forall|p: P, q: P| #[trigger] p1(p, q) ==> p2(p, q),
    ensures
        copies_made(d0, d1, src, seen, r, p2, reverse),
{
    let m0 = d0.the_mesh();
    let m1 = d1.the_mesh();
    assert forall|i: int| 0 <= i < seen.len() implies p2(m0.pos(#[trigger] seen[i]), m1.pos(fresh_vertex(m0.vertex_slots(), i))) by {
        assert(p1(m0.pos(seen[i]), m1.pos(fresh_vertex(m0.vertex_slots(), i))));
    }
}

/// Filtering a pushed sequence.
proof fn lemma_filter_push<A>(s: Seq<A>, x: A, p: spec_fn(A) -> bool)
    ensures
        s.push(x).filter(p) == if p(x) {
            s.filter(p).push(x)
        } else {
            s.filter(p)
        },
{
    reveal(Seq::filter);
    assert(s.push(x).drop_last() =~= s);
}

impl<P: Copy> Document<P> {
    /// Copies the vertices of `ring` that have no copy yet (placing each
    /// with `map_pos`), and returns the ring through the copies, reversed
    /// when `reverse`.
    fn clone_ring<F: Fn(P) -> P>(
        &mut self,
        seen: &mut Vec<VertexId>,
        ring: &Vec<VertexId>,
        map_pos: &F,
        reverse: bool,
        base: usize,
        lim: usize,
        Ghost(m0): Ghost<Mesh<P>>,
    ) -> (r: Vec<VertexId>)
        requires
            old(self).wf(),
            base == m0.vertex_slots(),
            copied_so_far(m0, old(self).the_mesh(), old(seen)@, placed_by(*map_pos)),
            forall|k: int| 0 <= k < old(seen)@.len() ==> (#[trigger] old(seen)@[k]).0 < lim,
            forall|k: int| 0 <= k < ring@.len() ==> m0.has_vertex(#[trigger] ring@[k]) && ring@[k].0 < lim,
            base + lim <= usize::MAX,
            forall|p: P| map_pos.requires((p,)),
        ensures
            final(self).wf(),
            copied_so_far(m0, final(self).the_mesh(), final(seen)@, placed_by(*map_pos)),
            forall|k: int| 0 <= k < final(seen)@.len() ==> (#[trigger] final(seen)@[k]).0 < lim,
            forall|v: VertexId| #[trigger] final(seen)@.contains(v) <==> (old(seen)@.contains(v) || ring@.contains(v)),
            old(seen)@.is_prefix_of(final(seen)@),
            final(seen)@ == extend_new(old(seen)@, ring@),
            r@ == carried(ring@, final(seen)@, m0.vertex_slots(), reverse),
            final(self).the_mesh().same_faces(&old(self).the_mesh()),
            old(self).the_mesh().wf() ==> final(self).the_mesh().wf(),
            final(self).solids() == old(self).solids(),
            final(self).same_groups(old(self)),
            final(self).selected() == old(self).selected(),
            final(self).guide_list() == old(self).guide_list(),
    {
        let ghost s0 = seen@;
        let ghost d0 = *self;
        let ghost placed = placed_by(*map_pos);
        let mut out: Vec<VertexId> = Vec::new();
        let mut k: usize = 0;
        while k < ring.len()
            invariant
                self.wf(),
                base == m0.vertex_slots(),
                placed == placed_by(*map_pos),
                copied_so_far(m0, self.the_mesh(), seen@, placed),
                forall|q: int| 0 <= q < seen@.len() ==> (#[trigger] seen@[q]).0 < lim,
                forall|q: int| 0 <= q < ring@.len() ==> m0.has_vertex(#[trigger] ring@[q]) && ring@[q].0 < lim,
                base + lim <= usize::MAX,
                forall|p: P| map_pos.requires((p,)),
                k <= ring@.len(),
                forall|v: VertexId| #[trigger] seen@.contains(v) <==> (s0.contains(v) || ring@.take(k as int).contains(v)),
                s0.is_prefix_of(seen@),
                seen@ == extend_new(s0, ring@.take(k as int)),
                out@ == ring@.take(k as int).map_values(|v: VertexId| fresh_vertex(base as nat, seen@.index_of(v))),
                self.the_mesh().same_faces(&d0.the_mesh()),
                d0.the_mesh().wf() ==> self.the_mesh().wf(),
                self.solids() == d0.solids(),
                self.same_groups(&d0),
                self.selected() == d0.selected(),
                self.guide_list() == d0.guide_list(),
            decreases ring@.len() - k,
        {
            let v = ring[k];
            let ghost sb = seen@;
            let ghost ob = out@;
            proof {
                assert(ring@.take(k as int + 1) =~= ring@.take(k as int).push(v));
            }
            match vertex_position(seen, v) {
                Some(i) => {
                    proof {
                        assert(seen@.len() <= lim) by {
                            lemma_distinct_vertices_bounded(seen@, lim as int);
                        }
                        assert(seen@[i as int] == v);
                    }
                    out.push(VertexId(base + i));
                },
                None => {
                    proof {
                        let sp = seen@.push(v);
                        assert forall|x: int, y: int| 0 <= x < y < sp.len() implies sp[x] != sp[y] by {
                            if y == seen@.len() {
                                assert(seen@.contains(seen@[x]));
                            }
                        }
                        assert forall|x: int| 0 <= x < sp.len() implies (#[trigger] sp[x]).0 < lim by {
                            if x < seen@.len() {
                                assert(sp[x] == seen@[x]);
                            }
                        }
                        lemma_distinct_vertices_bounded(sp, lim as int);
                    }
                    let p = self.mesh_ref().position(v);
                    let q = map_pos(p);
                    let ghost mb = self.the_mesh();
                    let id = self.add_loaded_vertex(q);
                    seen.push(v);
                    out.push(id);
                    proof {
                        let m1 = self.the_mesh();
                        assert(seen@[sb.len() as int] == v);
                        assert(seen@.no_duplicates()) by {
                            assert forall|x: int, y: int| 0 <= x < y < seen@.len() implies seen@[x] != seen@[y] by {
                                if y == sb.len() {
                                    assert(sb.contains(seen@[x]));
                                }
                            }
                        }
                        assert forall|w: VertexId| #[trigger] m1.has_vertex(w) <==> (m0.has_vertex(w) || (m0.vertex_slots() <= w.0 < m1.vertex_slots())) by {
                            if w != id {
                                assert(m1.has_vertex(w) == mb.has_vertex(w));
                            }
                        }
                        assert forall|w: VertexId| m0.has_vertex(w) implies #[trigger] m1.pos(w) == m0.pos(w) by {
                            m0.lemma_ids_in_range();
                            assert(w != id);
                            assert(mb.has_vertex(w));
                        }
                        assert forall|i: int| 0 <= i < seen@.len() implies placed(m0.pos(#[trigger] seen@[i]), m1.pos(fresh_vertex(m0.vertex_slots(), i))) by {
                            if i < sb.len() {
                                assert(seen@[i] == sb[i]);
                                assert(fresh_vertex(m0.vertex_slots(), i) != id);
                                assert(mb.has_vertex(fresh_vertex(m0.vertex_slots(), i)));
                            } else {
                                assert(fresh_vertex(m0.vertex_slots(), i) == id);
                                assert(mb.pos(v) == m0.pos(v));
                            }
                        }
                        assert(seen@.index_of(v) == sb.len()) by {
                            assert(seen@[sb.len() as int] == v);
                            assert(seen@.contains(v));
                            let c = seen@.index_of(v);
                            if c != sb.len() {
                                assert(seen@[c] == seen@[sb.len() as int]);
                            }
                        }
                    }
                },
            }
            proof {
                assert(sb.is_prefix_of(seen@));
                assert forall|t: int| 0 <= t < ring@.take(k as int).len() implies sb.contains(#[trigger] ring@.take(k as int)[t]) by {
                    assert(ring@.take(k as int).contains(ring@.take(k as int)[t]));
                }
                let f1 = |w: VertexId| fresh_vertex(base as nat, sb.index_of(w));
                let f2 = |w: VertexId| fresh_vertex(base as nat, seen@.index_of(w));
                assert forall|t: int| 0 <= t < ring@.take(k as int).len() implies f1(ring@.take(k as int)[t]) == f2(ring@.take(k as int)[t]) by {
                    lemma_index_stable(sb, seen@, ring@.take(k as int)[t]);
                }
                assert(ring@.take(k as int).map_values(f1) =~= ring@.take(k as int).map_values(f2));
                assert(seen@.contains(v));
                assert(out@ =~= ring@.take(k as int + 1).map_values(f2));
                assert forall|w: VertexId| #[trigger] seen@.contains(w) <==> (s0.contains(w) || ring@.take(k as int + 1).contains(w)) by {
                    if ring@.take(k as int + 1).contains(w) {
                        let t = choose|t: int| 0 <= t < ring@.take(k as int + 1).len() && #[trigger] ring@.take(k as int + 1)[t] == w;
                        if t < k {
                            assert(ring@.take(k as int)[t] == w);
                        }
                    }
                    if ring@.take(k as int).contains(w) {
                        let t = choose|t: int| 0 <= t < ring@.take(k as int).len() && #[trigger] ring@.take(k as int)[t] == w;
                        assert(ring@.take(k as int + 1)[t] == w);
                    }
                    if sb.contains(w) {
                        let t = choose|t: int| 0 <= t < sb.len() && #[trigger] sb[t] == w;
                        assert(seen@[t] == w);
                    }
                    if seen@.contains(w) && !sb.contains(w) {
                        let t = choose|t: int| 0 <= t < seen@.len() && #[trigger] seen@[t] == w;
                        assert(t == sb.len());
                        assert(ring@.take(k as int + 1)[k as int] == w);
                    }
                }
                assert(s0.is_prefix_of(seen@));
                assert(ring@.take(k as int + 1).drop_last() =~= ring@.take(k as int));
                assert(ring@.take(k as int + 1).last() == v);
            }
            k = k + 1;
        }
        proof {
            assert(ring@.take(ring@.len() as int) =~= ring@);
        }
        if reverse {
            reversed_ids(out)
        } else {
            out
        }
    }
    /// Copies the loops of `face` as `clone_ring` does, outer loop first,
    /// then each hole in order.
    fn clone_face_loops<F: Fn(P) -> P>(
        &mut self,
        seen: &mut Vec<VertexId>,
        face: &Face,
        map_pos: &F,
        reverse: bool,
        base: usize,
        lim: usize,
        Ghost(m0): Ghost<Mesh<P>>,
    ) -> (r: (Vec<VertexId>, Vec<Vec<VertexId>>))
        requires
            old(self).wf(),
            base == m0.vertex_slots(),
            copied_so_far(m0, old(self).the_mesh(), old(seen)@, placed_by(*map_pos)),
            forall|k: int| 0 <= k < old(seen)@.len() ==> (#[trigger] old(seen)@[k]).0 < lim,
            forall|v: VertexId| #[trigger] face_has_vertex(face@, v) ==> m0.has_vertex(v) && v.0 < lim,
            base + lim <= usize::MAX,
            forall|p: P| map_pos.requires((p,)),
        ensures
            final(self).wf(),
            copied_so_far(m0, final(self).the_mesh(), final(seen)@, placed_by(*map_pos)),
            forall|k: int| 0 <= k < final(seen)@.len() ==> (#[trigger] final(seen)@[k]).0 < lim,
            forall|v: VertexId| #[trigger] final(seen)@.contains(v) <==> (old(seen)@.contains(v) || face_has_vertex(face@, v)),
            old(seen)@.is_prefix_of(final(seen)@),
            final(seen)@ == extend_new(old(seen)@, face@.0 + rings_reading(face@.1)),
            (r.0@, rings_view(r.1@)) == carried_face(face@, final(seen)@, m0.vertex_slots(), reverse),
            final(self).the_mesh().same_faces(&old(self).the_mesh()),
            old(self).the_mesh().wf() ==> final(self).the_mesh().wf(),
            final(self).solids() == old(self).solids(),
            final(self).same_groups(old(self)),
            final(self).selected() == old(self).selected(),
            final(self).guide_list() == old(self).guide_list(),
    {
        let ghost s0 = seen@;
        let ghost d0 = *self;
        let ghost fv = face@;
        proof {
            assert forall|k: int| 0 <= k < face.outer@.len() implies m0.has_vertex(#[trigger] face.outer@[k]) && face.outer@[k].0 < lim by {
                assert(fv.0.contains(face.outer@[k]));
                assert(face_has_vertex(fv, face.outer@[k]));
            }
        }
        let outer = self.clone_ring(seen, &face.outer, map_pos, reverse, base, lim, Ghost(m0));
        let ghost s1 = seen@;
        proof {
            assert(fv.1.take(0) =~= Seq::<Seq<VertexId>>::empty());
            assert(fv.0 + rings_reading(fv.1.take(0)) =~= fv.0);
        }
        let mut holes: Vec<Vec<VertexId>> = Vec::new();
        let mut h: usize = 0;
        while h < face.holes.len()
            invariant
                fv == face@,
                self.wf(),
                base == m0.vertex_slots(),
                copied_so_far(m0, self.the_mesh(), seen@, placed_by(*map_pos)),
                forall|k: int| 0 <= k < seen@.len() ==> (#[trigger] seen@[k]).0 < lim,
                forall|v: VertexId| #[trigger] face_has_vertex(fv, v) ==> m0.has_vertex(v) && v.0 < lim,
                base + lim <= usize::MAX,
                forall|p: P| map_pos.requires((p,)),
                h <= face.holes@.len(),
                s1.is_prefix_of(seen@),
                s0.is_prefix_of(s1),
                seen@ == extend_new(s0, fv.0 + rings_reading(fv.1.take(h as int))),
                forall|v: VertexId|
                    #[trigger] seen@.contains(v) <==> (s0.contains(v) || fv.0.contains(v) || exists|q: int| 0 <= q < h && #[trigger] fv.1[q].contains(v)),
                forall|t: int| 0 <= t < fv.0.len() ==> s1.contains(#[trigger] fv.0[t]),
                outer@ == carried(fv.0, s1, base as nat, reverse),
                holes@.len() == h,
                forall|q: int| 0 <= q < h ==> (#[trigger] holes@[q])@ == carried(fv.1[q], seen@, base as nat, reverse),
                self.the_mesh().same_faces(&d0.the_mesh()),
                d0.the_mesh().wf() ==> self.the_mesh().wf(),
                self.solids() == d0.solids(),
                self.same_groups(&d0),
                self.selected() == d0.selected(),
                self.guide_list() == d0.guide_list(),
            decreases face.holes@.len() - h,
        {
            let ghost sb = seen@;
            proof {
                assert(fv.1[h as int] == face.holes@[h as int]@);
                assert forall|k: int| 0 <= k < face.holes@[h as int]@.len() implies m0.has_vertex(#[trigger] face.holes@[h as int]@[k]) && face.holes@[h as int]@[k].0 < lim by {
                    assert(fv.1[h as int].contains(face.holes@[h as int]@[k]));
                    assert(face_has_vertex(fv, face.holes@[h as int]@[k]));
                }
            }
            let hole = self.clone_ring(seen, &face.holes[h], map_pos, reverse, base, lim, Ghost(m0));
            holes.push(hole);
            proof {
                lemma_rings_reading_take(fv.1, h as int);
                lemma_extend_new_concat(s0, fv.0 + rings_reading(fv.1.take(h as int)), fv.1[h as int]);
                assert(fv.0 + rings_reading(fv.1.take(h as int)) + fv.1[h as int] =~= fv.0 + rings_reading(fv.1.take(h as int + 1)));
                assert forall|q: int| 0 <= q < h + 1 implies (#[trigger] holes@[q])@ == carried(fv.1[q], seen@, base as nat, reverse) by {
                    if q < h {
                        assert forall|t: int| 0 <= t < fv.1[q].len() implies sb.contains(#[trigger] fv.1[q][t]) by {
                            assert(fv.1[q].contains(fv.1[q][t]));
                        }
                        lemma_carried_stable(fv.1[q], sb, seen@, base as nat, reverse);
                    }
                }
                assert forall|v: VertexId|
                    #[trigger] seen@.contains(v) <==> (s0.contains(v) || fv.0.contains(v) || exists|q: int| 0 <= q < h + 1 && #[trigger] fv.1[q].contains(v)) by {
                    if exists|q: int| 0 <= q < h + 1 && #[trigger] fv.1[q].contains(v) {
                        let q = choose|q: int| 0 <= q < h + 1 && #[trigger] fv.1[q].contains(v);
                        if q == h {
                            assert(face.holes@[h as int]@.contains(v));
                        }
                    }
                    if seen@.contains(v) && !sb.contains(v) {
                        assert(face.holes@[h as int]@.contains(v));
                        assert(fv.1[h as int].contains(v));
                    }
                }
            }
            h = h + 1;
        }
        proof {
            assert(fv.1.take(fv.1.len() as int) =~= fv.1);
            lemma_carried_stable(fv.0, s1, seen@, base as nat, reverse);
            assert(fv.1.len() == face.holes@.len());
            assert(rings_view(holes@) =~= fv.1.map_values(|hh: Seq<VertexId>| carried(hh, seen@, base as nat, reverse)));
            assert forall|v: VertexId| #[trigger] seen@.contains(v) <==> (s0.contains(v) || face_has_vertex(fv, v)) by {
                if face_has_vertex(fv, v) && !fv.0.contains(v) {
                    let q = choose|q: int| 0 <= q < fv.1.len() && #[trigger] fv.1[q].contains(v);
                }
            }
        }
        (outer, holes)
    }

    /// Copies each face of `face_ids` whose id is below `n_src` and which
    /// is present (repeats included), through one shared vertex map, so
    /// faces sharing vertices keep sharing them in the copy (see
    /// `copies_made`). `lim` bounds the ids of the vertices copied.
    fn clone_core<F: Fn(P) -> P>(&mut self, face_ids: &[FaceId], map_pos: &F, reverse: bool, n_src: usize, lim: usize) -> (r: Vec<FaceId>)
        requires
            old(self).wf(),
            old(self).the_mesh().wf(),
            forall|p: P| map_pos.requires((p,)),
            n_src <= old(self).the_mesh().face_slots(),
            forall|f: FaceId, v: VertexId|
                f.0 < n_src && old(self).the_mesh().has_face(f) && #[trigger] face_has_vertex(old(self).the_mesh().face(f), v) ==> v.0 < lim,
            old(self).the_mesh().vertex_slots() + lim <= usize::MAX,
            old(self).the_mesh().face_slots() + face_ids@.len() <= usize::MAX,
        ensures
            exists|seen: Seq<VertexId>|
                copies_made(
                    *old(self),
                    *final(self),
                    face_ids@.filter(live_below(old(self).the_mesh(), n_src as nat)),
                    seen,
                    r@,
                    placed_by(*map_pos),
                    reverse,
                ),
            final(self).selected() == old(self).selected(),
    {
        let ghost d0 = *self;
        let ghost m0 = self.the_mesh();
        let ghost pred = live_below(m0, n_src as nat);
        let ghost placed = placed_by(*map_pos);
        let base = self.mesh_ref().vertex_count();
        let f0 = self.mesh_ref().face_count();
        let mut seen: Vec<VertexId> = Vec::new();
        let mut r: Vec<FaceId> = Vec::new();
        let ghost mut src: Seq<FaceId> = Seq::empty();
        let mut i: usize = 0;
        proof {
            assert(face_ids@.take(0).filter(pred) =~= Seq::<FaceId>::empty()) by {
                reveal(Seq::filter);
            }
            assert(copied_so_far(m0, self.the_mesh(), seen@, placed)) by {
                assert(self.the_mesh() == m0);
            }
            assert forall|f: FaceId| #[trigger] self.solids().contains(f) <==> (d0.solids().contains(f) || exists|k: int|
                0 <= k < r@.len() && r@[k] == f && #[trigger] d0.solids().contains(src[k])) by {}
        }
        while i < face_ids.len()
            invariant
                self.wf(),
                self.the_mesh().wf(),
                m0.wf(),
                base == m0.vertex_slots(),
                f0 == m0.face_slots(),
                pred == live_below(m0, n_src as nat),
                placed == placed_by(*map_pos),
                forall|p: P| map_pos.requires((p,)),
                n_src <= f0,
                forall|f: FaceId, v: VertexId| f.0 < n_src && m0.has_face(f) && #[trigger] face_has_vertex(m0.face(f), v) ==> v.0 < lim,
                base + lim <= usize::MAX,
                f0 + face_ids@.len() <= usize::MAX,
                i <= face_ids@.len(),
                src == face_ids@.take(i as int).filter(pred),
                src.len() <= i,
                forall|k: int| 0 <= k < src.len() ==> (#[trigger] src[k]).0 < n_src && m0.has_face(src[k]),
                copied_so_far(m0, self.the_mesh(), seen@, placed),
                forall|q: int| 0 <= q < seen@.len() ==> (#[trigger] seen@[q]).0 < lim,
                forall|v: VertexId| #[trigger] seen@.contains(v) <==> exists|k: int| 0 <= k < src.len() && #[trigger] face_has_vertex(m0.face(src[k]), v),
                seen@ == extend_new(Seq::empty(), faces_reading(m0, src)),
                r@.len() == src.len(),
                forall|k: int| 0 <= k < r@.len() ==> #[trigger] r@[k] == FaceId((f0 + k) as usize),
                self.the_mesh().face_slots() == f0 + r@.len(),
                forall|g: FaceId| g.0 < f0 ==> #[trigger] self.the_mesh().has_face(g) == m0.has_face(g),
                forall|g: FaceId| m0.has_face(g) ==> #[trigger] self.the_mesh().face(g) == m0.face(g),
                forall|k: int|
                    0 <= k < r@.len() ==> self.the_mesh().has_face(#[trigger] r@[k]) && self.the_mesh().face(r@[k]) == carried_face(
                        m0.face(src[k]),
                        seen@,
                        base as nat,
                        reverse,
                    ),
                forall|f: FaceId|
                    #[trigger] self.solids().contains(f) <==> (d0.solids().contains(f) || exists|k: int|
                        0 <= k < r@.len() && r@[k] == f && #[trigger] d0.solids().contains(src[k])),
                self.same_groups(&d0),
                self.selected() == d0.selected(),
                self.guide_list() == d0.guide_list(),
            decreases face_ids@.len() - i,
        {
            let f = face_ids[i];
            proof {
                reveal(Seq::filter);
                assert(face_ids@.take(i as int + 1).drop_last() =~= face_ids@.take(i as int));
                assert(face_ids@.take(i as int + 1).last() == f);
            }
            if f.0 < n_src && self.mesh_ref().contains_face(f) {
                proof {
                    assert(m0.has_face(f));
                    assert(pred(f));
                }
                let face = self.mesh_ref().get_face(f).unwrap().clone();
                let was_solid = self.is_solid(f);
                let ghost sb = seen@;
                let ghost mb = self.the_mesh();
                let ghost db = *self;
                let ghost rb = r@;
                let ghost srcb = src;
                proof {
                    assert(face@ == m0.face(f));
                    assert forall|v: VertexId| #[trigger] face_has_vertex(face@, v) implies m0.has_vertex(v) && v.0 < lim by {}
                    assert(was_solid == d0.solids().contains(f)) by {
                        if was_solid && !d0.solids().contains(f) {
                            let k = choose|k: int| 0 <= k < r@.len() && r@[k] == f && #[trigger] d0.solids().contains(src[k]);
                        }
                    }
                }
                let (outer, holes) = self.clone_face_loops(&mut seen, &face, map_pos, reverse, base, lim, Ghost(m0));
                let ghost mc = self.the_mesh();
                proof {
                    assert(mc.face_slots() == f0 + r@.len());
                    assert forall|v: VertexId| #[trigger] face_has_vertex((outer@, rings_view(holes@)), v) implies mc.has_vertex(v) by {
                        let cf = carried_face(m0.face(f), seen@, base as nat, reverse);
                        assert((outer@, rings_view(holes@)) == cf);
                        lemma_carried_vertices_exist(m0, mc, seen@, m0.face(f), reverse, placed, v);
                    }
                }
                let id = self.add_loaded_face(outer, holes, was_solid);
                r.push(id);
                proof {
                    src = src.push(f);
                    assert(src.drop_last() =~= srcb);
                    assert(src.last() == f);
                    lemma_extend_new_concat(Seq::empty(), faces_reading(m0, srcb), face@.0 + rings_reading(face@.1));
                    assert(faces_reading(m0, srcb) + (face@.0 + rings_reading(face@.1)) =~= faces_reading(m0, src));
                    let m1 = self.the_mesh();
                    assert(copied_so_far(m0, m1, seen@, placed)) by {
                        assert forall|v: VertexId| #[trigger] m1.has_vertex(v) <==> (m0.has_vertex(v) || (m0.vertex_slots() <= v.0 < m1.vertex_slots())) by {
                            assert(m1.has_vertex(v) == mc.has_vertex(v));
                        }
                        assert forall|v: VertexId| m0.has_vertex(v) implies #[trigger] m1.pos(v) == m0.pos(v) by {
                            assert(mc.has_vertex(v));
                        }
                        assert forall|q: int| 0 <= q < seen@.len() implies placed(m0.pos(#[trigger] seen@[q]), m1.pos(fresh_vertex(m0.vertex_slots(), q))) by {
                            mc.lemma_slots_bounded();
                            assert(mc.has_vertex(fresh_vertex(m0.vertex_slots(), q)));
                        }
                    }
                    assert(id == FaceId((f0 + rb.len()) as usize));
                    assert forall|k: int| 0 <= k < r@.len() implies #[trigger] r@[k] == FaceId((f0 + k) as usize) by {
                        if k < rb.len() {
                            assert(r@[k] == rb[k]);
                        }
                    }
                    assert forall|g: FaceId| g.0 < f0 implies #[trigger] m1.has_face(g) == m0.has_face(g) by {
                        assert(g != id);
                        assert(m1.has_face(g) == mc.has_face(g));
                        assert(mc.has_face(g) == mb.has_face(g));
                    }
                    assert forall|g: FaceId| m0.has_face(g) implies #[trigger] m1.face(g) == m0.face(g) by {
                        m0.lemma_ids_in_range();
                        assert(g != id);
                        assert(mb.has_face(g));
                        assert(mc.face(g) == mb.face(g));
                    }
                    assert forall|k: int|
                        0 <= k < r@.len() implies m1.has_face(#[trigger] r@[k]) && m1.face(r@[k]) == carried_face(
                            m0.face(src[k]),
                            seen@,
                            base as nat,
                            reverse,
                        ) by {
                        if k < rb.len() {
                            assert(r@[k] == rb[k]);
                            assert(src[k] == src.drop_last()[k]);
                            assert(r@[k] != id);
                            assert(mb.has_face(rb[k]));
                            assert(mc.face(rb[k]) == mb.face(rb[k]));
                            let fk = m0.face(src[k]);
                            assert forall|t: int| 0 <= t < fk.0.len() implies sb.contains(#[trigger] fk.0[t]) by {
                                assert(fk.0.contains(fk.0[t]));
                                assert(face_has_vertex(fk, fk.0[t]));
                            }
                            lemma_carried_stable(fk.0, sb, seen@, base as nat, reverse);
                            assert forall|q: int| 0 <= q < fk.1.len() implies #[trigger] carried(fk.1[q], sb, base as nat, reverse) == carried(fk.1[q], seen@, base as nat, reverse) by {
                                assert forall|t: int| 0 <= t < fk.1[q].len() implies sb.contains(#[trigger] fk.1[q][t]) by {
                                    assert(fk.1[q].contains(fk.1[q][t]));
                                    assert(face_has_vertex(fk, fk.1[q][t]));
                                }
                                lemma_carried_stable(fk.1[q], sb, seen@, base as nat, reverse);
                            }
                            assert(carried_face(fk, sb, base as nat, reverse) =~= carried_face(fk, seen@, base as nat, reverse)) by {
                                assert(fk.1.map_values(|hh: Seq<VertexId>| carried(hh, sb, base as nat, reverse)) =~= fk.1.map_values(|hh: Seq<VertexId>| carried(hh, seen@, base as nat, reverse)));
                            }
                        }
                    }
                    assert forall|v: VertexId| #[trigger] seen@.contains(v) <==> exists|k: int| 0 <= k < src.len() && #[trigger] face_has_vertex(m0.face(src[k]), v) by {
                        if seen@.contains(v) && !sb.contains(v) {
                            assert(face_has_vertex(m0.face(src[src.len() - 1]), v));
                        }
                        if sb.contains(v) {
                            let k = choose|k: int| 0 <= k < srcb.len() && #[trigger] face_has_vertex(m0.face(srcb[k]), v);
                            assert(src[k] == srcb[k]);
                        }
                        if exists|k: int| 0 <= k < src.len() && #[trigger] face_has_vertex(m0.face(src[k]), v) {
                            let k = choose|k: int| 0 <= k < src.len() && #[trigger] face_has_vertex(m0.face(src[k]), v);
                            if k < srcb.len() {
                                assert(srcb[k] == src[k]);
                                assert(sb.contains(v));
                            }
                        }
                    }
                    assert forall|g: FaceId|
                        #[trigger] self.solids().contains(g) <==> (d0.solids().contains(g) || exists|k: int|
                            0 <= k < r@.len() && r@[k] == g && #[trigger] d0.solids().contains(src[k])) by {
                        if exists|k: int| 0 <= k < r@.len() && r@[k] == g && #[trigger] d0.solids().contains(src[k]) {
                            let k = choose|k: int| 0 <= k < r@.len() && r@[k] == g && #[trigger] d0.solids().contains(src[k]);
                            if k < rb.len() {
                                assert(src.drop_last()[k] == src[k]);
                                assert(rb[k] == g);
                            }
                        }
                        if db.solids().contains(g) && !d0.solids().contains(g) {
                            let k = choose|k: int| 0 <= k < rb.len() && rb[k] == g && #[trigger] d0.solids().contains(srcb[k]);
                            assert(src[k] == srcb[k]);
                            assert(r@[k] == g);
                        }
                        if g == id && was_solid {
                            assert(r@[rb.len() as int] == g);
                            assert(d0.solids().contains(src[rb.len() as int]));
                        }
                    }
                }
            }
            i = i + 1;
        }
        proof {
            assert(face_ids@.take(face_ids@.len() as int) =~= face_ids@);
            assert(copies_made(d0, *self, src, seen@, r@, placed, reverse));
        }
        r
    }

    /// Clones `face_ids` into new faces through a single shared vertex
    /// map, so faces that share vertices in the source (every face of a
    /// solid) keep sharing them in the copy, which is what keeps a copied
    /// solid manifold on its own. `map_pos` places each new vertex from its
    /// source's position; `reverse_winding` reverses every loop (outer and
    /// holes), which a reflection needs to keep outer loops
    /// counter-clockwise. Absent ids are skipped. Copies are solid faces
    /// when their source is, and join no group.
    pub fn clone_faces_mapped<F: Fn(P) -> P>(&mut self, face_ids: &[FaceId], map_pos: &F, reverse_winding: bool) -> (r: Vec<FaceId>)
        requires
            old(self).wf(),
            old(self).the_mesh().wf(),
            forall|p: P| map_pos.requires((p,)),
            2 * old(self).the_mesh().vertex_slots() <= usize::MAX,
            old(self).the_mesh().face_slots() + face_ids@.len() <= usize::MAX,
        ensures
            exists|seen: Seq<VertexId>|
                copies_made(
                    *old(self),
                    *final(self),
                    present_in(old(self).the_mesh(), face_ids@),
                    seen,
                    r@,
                    placed_by(*map_pos),
                    reverse_winding,
                ),
            final(self).selected() == old(self).selected(),
    {
        let n = self.mesh_ref().face_count();
        let lim = self.mesh_ref().vertex_count();
        let ghost m = self.the_mesh();
        proof {
            m.lemma_ids_in_range();
            assert(live_below(m, n as nat) =~= in_mesh(m));
            assert forall|f: FaceId, v: VertexId| f.0 < n && m.has_face(f) && #[trigger] face_has_vertex(m.face(f), v) implies v.0 < lim by {
                assert(m.has_vertex(v));
            }
        }
        let r = self.clone_core(face_ids, map_pos, reverse_winding, n, lim);
        proof {
            assert(face_ids@.filter(live_below(m, n as nat)) == present_in(m, face_ids@));
        }
        r
    }

    /// Copies `face_ids` with each new vertex placed by `map_pos` (a
    /// translation, for the caller), and leaves just the copy selected.
    pub fn duplicate_faces<F: Fn(P) -> P>(&mut self, face_ids: &[FaceId], map_pos: &F) -> (r: Vec<FaceId>)
        requires
            old(self).wf(),
            old(self).the_mesh().wf(),
            forall|p: P| map_pos.requires((p,)),
            2 * old(self).the_mesh().vertex_slots() <= usize::MAX,
            old(self).the_mesh().face_slots() + face_ids@.len() <= usize::MAX,
        ensures
            exists|seen: Seq<VertexId>|
                copies_made(*old(self), *final(self), present_in(old(self).the_mesh(), face_ids@), seen, r@, placed_by(*map_pos), false),
            final(self).selected() == r@.to_set(),
    {
        let ghost d0 = *self;
        let r = self.clone_faces_mapped(face_ids, map_pos, false);
        let ghost d1 = *self;
        self.select(r.as_slice());
        proof {
            let seen = choose|seen: Seq<VertexId>|
                copies_made(d0, d1, present_in(d0.the_mesh(), face_ids@), seen, r@, placed_by(*map_pos), false);
            lemma_copies_made_reselect(d0, d1, *self, present_in(d0.the_mesh(), face_ids@), seen, r@, placed_by(*map_pos), false);
        }
        r
    }

    /// Copies `face_ids` with each new vertex placed by `reflect` (a
    /// reflection across a world plane, for the caller), reversing every
    /// loop so the copy faces outward, and leaves just the copy selected;
    /// the sources are left untouched.
    pub fn mirror_faces<F: Fn(P) -> P>(&mut self, face_ids: &[FaceId], reflect: &F) -> (r: Vec<FaceId>)
        requires
            old(self).wf(),
            old(self).the_mesh().wf(),
            forall|p: P| reflect.requires((p,)),
            2 * old(self).the_mesh().vertex_slots() <= usize::MAX,
            old(self).the_mesh().face_slots() + face_ids@.len() <= usize::MAX,
        ensures
            exists|seen: Seq<VertexId>|
                copies_made(*old(self), *final(self), present_in(old(self).the_mesh(), face_ids@), seen, r@, placed_by(*reflect), true),
            final(self).selected() == r@.to_set(),
    {
        let ghost d0 = *self;
        let r = self.clone_faces_mapped(face_ids, reflect, true);
        let ghost d1 = *self;
        self.select(r.as_slice());
        proof {
            let seen = choose|seen: Seq<VertexId>|
                copies_made(d0, d1, present_in(d0.the_mesh(), face_ids@), seen, r@, placed_by(*reflect), true);
            lemma_copies_made_reselect(d0, d1, *self, present_in(d0.the_mesh(), face_ids@), seen, r@, placed_by(*reflect), true);
        }
        r
    }

    /// The entries of `face_ids` below `n` that are faces, in order.
    fn live_sources(&self, face_ids: &[FaceId], n: usize) -> (r: Vec<FaceId>)
        ensures
            r@ == face_ids@.filter(live_below(self.the_mesh(), n as nat)),
    {
        let ghost pred = live_below(self.the_mesh(), n as nat);
        let mut out: Vec<FaceId> = Vec::new();
        let mut i: usize = 0;
        while i < face_ids.len()
            invariant
                pred == live_below(self.the_mesh(), n as nat),
                i <= face_ids@.len(),
                out@ == face_ids@.take(i as int).filter(pred),
            decreases face_ids@.len() - i,
        {
            proof {
                assert(face_ids@.take(i as int + 1) =~= face_ids@.take(i as int).push(face_ids@[i as int]));
                lemma_filter_push(face_ids@.take(i as int), face_ids@[i as int], pred);
            }
            let f = face_ids[i];
            if f.0 < n && self.mesh_ref().contains_face(f) {
                out.push(f);
            }
            i = i + 1;
        }
        proof {
            assert(face_ids@.take(face_ids@.len() as int) =~= face_ids@);
        }
        out
    }

    /// Copies `face_ids` into a `columns` x `rows` grid, `offset` placing
    /// each new vertex of the copy in cell (column, row) from its source's
    /// position (the caller steps a center-to-center pitch along world X
    /// per column and Y per row). The counts include the source, which
    /// stays in cell (0, 0), so only the other cells get copies. When any
    /// copy was made, the whole grid is left selected: the present sources
    /// and every copy.
    pub fn array_faces<F: Fn(usize, usize, P) -> P>(&mut self, face_ids: &[FaceId], columns: usize, rows: usize, offset: &F) -> (r: Vec<FaceId>)
        requires
            old(self).wf(),
            old(self).the_mesh().wf(),
            forall|c: usize, w: usize, p: P| offset.requires((c, w, p)),
            old(self).the_mesh().face_slots() + columns * rows * face_ids@.len() <= usize::MAX,
            old(self).the_mesh().vertex_slots() + columns * rows * old(self).the_mesh().vertex_slots() <= usize::MAX,
        ensures
            exists|ds: Seq<Document<P>>, seens: Seq<Seq<VertexId>>, rs: Seq<Seq<FaceId>>|
                {
                    &&& arrayed(
                        *old(self),
                        ds,
                        seens,
                        rs,
                        present_in(old(self).the_mesh(), face_ids@),
                        array_cells(columns as nat, rows as nat),
                        *offset,
                    )
                    &&& r@ == crate::document::concat(rs)
                    &&& final(self).the_mesh() == ds.last().the_mesh()
                    &&& final(self).solids() == ds.last().solids()
                    &&& final(self).same_groups(&ds.last())
                    &&& final(self).guide_list() == ds.last().guide_list()
                },
            final(self).wf(),
            final(self).selected() == if r@.len() > 0 {
                (present_in(old(self).the_mesh(), face_ids@) + r@).to_set()
            } else {
                old(self).selected()
            },
    {
        let ghost d0 = *self;
        let ghost m0 = self.the_mesh();
        let ghost src = present_in(m0, face_ids@);
        let n0 = self.mesh_ref().face_count();
        let v0 = self.mesh_ref().vertex_count();
        let ghost len = face_ids@.len();
        let ghost total = columns * rows;
        let ghost mut ds: Seq<Document<P>> = seq![d0];
        let ghost mut seens: Seq<Seq<VertexId>> = Seq::empty();
        let ghost mut rs: Seq<Seq<FaceId>> = Seq::empty();
        let ghost mut cells: Seq<(usize, usize)> = Seq::empty();
        let ghost mut t: int = 0;
        let mut r: Vec<FaceId> = Vec::new();
        let sources = self.live_sources(face_ids, n0);
        proof {
            m0.lemma_ids_in_range();
            assert(live_below(m0, n0 as nat) =~= in_mesh(m0));
            assert(sources@ == src);
            assert(grid_cells(columns as nat, 0).filter(not_origin()) =~= Seq::<(usize, usize)>::empty()) by {
                reveal(Seq::filter);
            }
            assert(crate::document::concat(rs) =~= Seq::<FaceId>::empty());
            face_ids@.lemma_filter_len(in_mesh(m0));
            assert(0 * columns == 0) by (nonlinear_arith);
        }
        let mut row: usize = 0;
        while row < rows
            invariant
                self.wf(),
                self.the_mesh().wf(),
                m0.wf(),
                n0 == m0.face_slots(),
                v0 == m0.vertex_slots(),
                src == present_in(m0, face_ids@),
                src.len() <= len,
                len == face_ids@.len(),
                total == columns * rows,
                forall|c: usize, w: usize, p: P| offset.requires((c, w, p)),
                n0 + total * len <= usize::MAX,
                v0 + total * v0 <= usize::MAX,
                row <= rows,
                t == row * columns,
                cells == grid_cells(columns as nat, row as nat).filter(not_origin()),
                arrayed(d0, ds, seens, rs, src, cells, *offset),
                ds.last() == *self,
                r@ == crate::document::concat(rs),
                rs.len() + (if t > 0 { 1int } else { 0int }) == t,
                self.the_mesh().face_slots() <= n0 + rs.len() * len,
                self.the_mesh().face_slots() >= n0,
                self.the_mesh().vertex_slots() <= v0 + rs.len() * v0,
                forall|g: FaceId| g.0 < n0 ==> #[trigger] self.the_mesh().has_face(g) == m0.has_face(g),
                forall|g: FaceId| m0.has_face(g) ==> #[trigger] self.the_mesh().face(g) == m0.face(g),
                self.selected() == d0.selected(),
            decreases rows - row,
        {
            let mut col: usize = 0;
            proof {
                assert(row_cells(columns as nat, row as nat).take(0) =~= Seq::<(usize, usize)>::empty());
                assert(grid_cells(columns as nat, row as nat) + row_cells(columns as nat, row as nat).take(0) =~= grid_cells(columns as nat, row as nat));
            }
            while col < columns
                invariant
                    self.wf(),
                    self.the_mesh().wf(),
                    m0.wf(),
                    n0 == m0.face_slots(),
                    v0 == m0.vertex_slots(),
                    src == present_in(m0, face_ids@),
                    src.len() <= len,
                    len == face_ids@.len(),
                    total == columns * rows,
                    forall|c: usize, w: usize, p: P| offset.requires((c, w, p)),
                    n0 + total * len <= usize::MAX,
                    v0 + total * v0 <= usize::MAX,
                    row < rows,
                    col <= columns,
                    t == row * columns + col,
                    cells == (grid_cells(columns as nat, row as nat) + row_cells(columns as nat, row as nat).take(col as int)).filter(not_origin()),
                    arrayed(d0, ds, seens, rs, src, cells, *offset),
                    ds.last() == *self,
                    r@ == crate::document::concat(rs),
                    rs.len() + (if t > 0 { 1int } else { 0int }) == t,
                    self.the_mesh().face_slots() <= n0 + rs.len() * len,
                    self.the_mesh().face_slots() >= n0,
                    self.the_mesh().vertex_slots() <= v0 + rs.len() * v0,
                    forall|g: FaceId| g.0 < n0 ==> #[trigger] self.the_mesh().has_face(g) == m0.has_face(g),
                    forall|g: FaceId| m0.has_face(g) ==> #[trigger] self.the_mesh().face(g) == m0.face(g),
                    self.selected() == d0.selected(),
                decreases columns - col,
            {
                let ghost prefix = grid_cells(columns as nat, row as nat) + row_cells(columns as nat, row as nat).take(col as int);
                proof {
                    assert(grid_cells(columns as nat, row as nat) + row_cells(columns as nat, row as nat).take(col as int + 1) =~= prefix.push((col, row)));
                    lemma_filter_push(prefix, (col, row), not_origin());
                    assert(row * columns + col < total) by (nonlinear_arith)
                        requires
                            row < rows,
                            col < columns,
                            total == columns * rows,
                    ;
                }
                if !(row == 0 && col == 0) {
                    let cell = |p: P| -> (q: P)
                        requires
                            offset.requires((col, row, p)),
                        ensures
                            offset.ensures((col, row, p), q),
                        { offset(col, row, p) };
                    let ghost dc = *self;
                    let ghost mc = self.the_mesh();
                    let ghost done = rs.len();
                    proof {
                        assert(t >= 1) by (nonlinear_arith)
                            requires
                                t == row * columns + col,
                                !(row == 0 && col == 0),
                                col < columns,
                        ;
                        assert(done + 1 <= total);
                        assert((done + 1) * len <= total * len) by (nonlinear_arith)
                            requires
                                done + 1 <= total,
                        ;
                        assert((done + 1) * v0 <= total * v0) by (nonlinear_arith)
                            requires
                                done + 1 <= total,
                        ;
                        assert(done * len + len == (done + 1) * len) by (nonlinear_arith);
                        assert(done * v0 + v0 == (done + 1) * v0) by (nonlinear_arith);
                        assert forall|f: FaceId, v: VertexId|
                            f.0 < n0 && mc.has_face(f) && #[trigger] face_has_vertex(mc.face(f), v) implies v.0 < v0 by {
                            assert(m0.has_face(f));
                            assert(m0.has_vertex(v));
                            m0.lemma_ids_in_range();
                        }
                    }
                    let mut got = self.clone_core(face_ids, &cell, false, n0, v0);
                    let ghost gv = got@;
                    r.append(&mut got);
                    proof {
                        let pl = placed_by(cell);
                        assert(live_below(mc, n0 as nat) =~= in_mesh(m0)) by {
                            m0.lemma_ids_in_range();
                        }
                        assert(face_ids@.filter(live_below(mc, n0 as nat)) == src);
                        let seen = choose|seen: Seq<VertexId>| copies_made(dc, *self, src, seen, gv, pl, false);
                        assert(copies_made(dc, *self, src, seen, gv, pl, false));
                        lemma_copies_made_placed(dc, *self, src, seen, gv, pl, placed_at(*offset, (col, row)), false);
                        let ghost dsb = ds;
                        let ghost rsb = rs;
                        let ghost ssb = seens;
                        let ghost cb = cells;
                        ds = ds.push(*self);
                        seens = seens.push(seen);
                        rs = rs.push(gv);
                        cells = cells.push((col, row));
                        assert forall|c: int|
                            0 <= c < cells.len() implies copies_made(ds[c], ds[c + 1], src, seens[c], #[trigger] rs[c], placed_at(*offset, cells[c]), false) by {
                            if c < cb.len() {
                                assert(ds[c] == dsb[c]);
                                assert(ds[c + 1] == dsb[c + 1]);
                                assert(rs[c] == rsb[c]);
                                assert(seens[c] == ssb[c]);
                                assert(cells[c] == cb[c]);
                                assert(copies_made(dsb[c], dsb[c + 1], src, ssb[c], rsb[c], placed_at(*offset, cb[c]), false));
                            } else {
                                assert(ds[c] == dc);
                            }
                        }
                        assert(rs.drop_last() =~= rsb);
                        assert(r@ =~= crate::document::concat(rs));
                        assert forall|g: FaceId| m0.has_face(g) implies #[trigger] self.the_mesh().face(g) == m0.face(g) by {
                            m0.lemma_ids_in_range();
                            assert(mc.has_face(g));
                            assert(self.the_mesh().face(g) == mc.face(g));
                        }
                        assert(seen.len() <= v0) by {
                            assert forall|x: int| 0 <= x < seen.len() implies (#[trigger] seen[x]).0 < v0 by {
                                assert(seen.contains(seen[x]));
                                let k = choose|k: int| 0 <= k < src.len() && #[trigger] face_has_vertex(mc.face(src[k]), seen[x]);
                                assert(src[k].0 < n0 && mc.has_face(src[k])) by {
                                    broadcast use vstd::seq_lib::group_filter_ensures;
                                    m0.lemma_ids_in_range();
                                }
                                assert(m0.has_vertex(seen[x]));
                                m0.lemma_ids_in_range();
                            }
                            lemma_distinct_vertices_bounded(seen, v0 as int);
                        }
                    }
                }
                col = col + 1;
                proof {
                    t = t + 1;
                }
            }
            proof {
                assert(row_cells(columns as nat, row as nat).take(columns as int) =~= row_cells(columns as nat, row as nat));
                assert(grid_cells(columns as nat, row as nat + 1) == grid_cells(columns as nat, row as nat) + row_cells(columns as nat, row as nat));
                assert((row + 1) * columns == row * columns + columns) by (nonlinear_arith);
            }
            row = row + 1;
        }
        let ghost d_end = *self;
        if r.len() > 0 {
            let mut sel = sources;
            let mut copies = crate::mesh::copy_face_ids(&r);
            sel.append(&mut copies);
            self.select(sel.as_slice());
        }
        proof {
            assert(cells == array_cells(columns as nat, rows as nat));
            assert(arrayed(d0, ds, seens, rs, src, cells, *offset));
            assert(self.same_groups(&ds.last())) by {
                assert forall|g| #[trigger] self.has_group(g) == d_end.has_group(g) by {}
            }
        }
        r
    }

}

} // verus!
