use vstd::prelude::*;

use crate::copies::present_in;
use crate::document::{flat, solid_id_list, Document};
use crate::mesh::{FaceId, Mesh, VertexId};
use crate::pushpull::{all_edges, check_manifold_is_clean, is_manifold, triangulation_view};
use crate::snapshot::{tris_exist, tris_views};

verus! {

/// `n` as four little-endian bytes.
pub open spec fn le_u32(n: u32) -> Seq<u8> {
    seq![(n % 256) as u8, ((n / 256) % 256) as u8, ((n / 65536) % 256) as u8, ((n / 16777216) % 256) as u8]
}

/// A triangle's record in a binary STL file: its 48 encoded bytes (facet
/// normal, then the three corners, twelve little-endian `f32`s) and a
/// two-byte attribute count of zero.
pub open spec fn stl_record(encoded: Seq<u8>) -> Seq<u8> {
    encoded + seq![0u8, 0u8]
}

/// A binary STL file: an 80-byte zero header, the triangle count as a
/// little-endian `u32` (wrapped to 32 bits), then one record per triangle.
pub open spec fn stl_bytes(count: nat, encoded: Seq<Seq<u8>>) -> Seq<u8> {
    Seq::new(80, |i: int| 0u8) + le_u32((count % 0x1_0000_0000) as u32) + flat(encoded.map_values(|e: Seq<u8>| stl_record(e)))
}

/// The corner positions of triangle `t` in `m`.
pub open spec fn corners<P>(m: Mesh<P>, t: [VertexId; 3]) -> [P; 3] {
    [m.pos(t[0]), m.pos(t[1]), m.pos(t[2])]
}

/// `out` is the binary STL file of the faces `ids` that `mesh` has: face
/// `k` of them triangulated as `tv[k]`, and the `i`-th triangle of all of
/// them, in order, encoded as `enc[i]`.
pub open spec fn written_as<P, T: Fn(FaceId) -> Vec<[VertexId; 3]>, E: Fn([P; 3]) -> [u8; 48]>(
    mesh: Mesh<P>,
    ids: Seq<FaceId>,
    triangulate: T,
    encode: E,
    tv: Seq<Vec<[VertexId; 3]>>,
    enc: Seq<[u8; 48]>,
    out: Seq<u8>,
) -> bool {
    let src = present_in(mesh, ids);
    &&& tv.len() == src.len()
    &&& forall|k: int| 0 <= k < src.len() ==> triangulate.ensures((src[k],), #[trigger] tv[k])
    &&& stl_records_of(mesh, flat(tris_views(tv)), encode, enc, out)
}

/// `out` is the binary STL file of the triangles `all`, in order, the
/// `i`-th encoded as `enc[i]`.
pub open spec fn stl_records_of<P, E: Fn([P; 3]) -> [u8; 48]>(
    mesh: Mesh<P>,
    all: Seq<[VertexId; 3]>,
    encode: E,
    enc: Seq<[u8; 48]>,
    out: Seq<u8>,
) -> bool {
    &&& enc.len() == all.len()
    &&& forall|i: int| 0 <= i < all.len() ==> encode.ensures((corners(mesh, all[i]),), #[trigger] enc[i])
    &&& out == stl_bytes(all.len(), enc.map_values(|e: [u8; 48]| e@))
}

fn push_le_u32(out: &mut Vec<u8>, n: u32)
    ensures
        final(out)@ == old(out)@ + le_u32(n),
{
    out.push((n % 256) as u8);
    out.push(((n / 256) % 256) as u8);
    out.push(((n / 65536) % 256) as u8);
    out.push(((n / 16777216) % 256) as u8);
    proof {
        assert(final(out)@ =~= old(out)@ + le_u32(n));
    }
}

/// Writes the faces `face_ids` that `mesh` has as a binary STL file: each
/// face triangulated by `triangulate`, in order, and each triangle's
/// corner positions turned by `encode` into its 48 record bytes (the
/// facet normal, recomputed from the triangle's own winding, then the
/// corners; see `stl_bytes`).
pub fn write_binary_stl<P: Copy, T: Fn(FaceId) -> Vec<[VertexId; 3]>, E: Fn([P; 3]) -> [u8; 48]>(
    mesh: &Mesh<P>,
    face_ids: &[FaceId],
    triangulate: &T,
    encode: &E,
) -> (out: Vec<u8>)
    requires
        forall|f: FaceId| triangulate.requires((f,)),
        forall|f: FaceId, t: Vec<[VertexId; 3]>| triangulate.ensures((f,), t) ==> tris_exist(*mesh, t@),
        forall|c: [P; 3]| encode.requires((c,)),
    ensures
        exists|tv: Seq<Vec<[VertexId; 3]>>, enc: Seq<[u8; 48]>| #[trigger] written_as(*mesh, face_ids@, *triangulate, *encode, tv, enc, out@),
{
    let ghost src = present_in(*mesh, face_ids@);
    let ghost pred = crate::copies::in_mesh(*mesh);
    let mut tris: Vec<[VertexId; 3]> = Vec::new();
    let ghost mut tv: Seq<Vec<[VertexId; 3]>> = Seq::empty();
    let mut i: usize = 0;
    while i < face_ids.len()
        invariant
            pred == crate::copies::in_mesh(*mesh),
            forall|f: FaceId| triangulate.requires((f,)),
            forall|f: FaceId, t: Vec<[VertexId; 3]>| triangulate.ensures((f,), t) ==> tris_exist(*mesh, t@),
            i <= face_ids@.len(),
            tv.len() == face_ids@.take(i as int).filter(pred).len(),
            forall|k: int| 0 <= k < tv.len() ==> triangulate.ensures((face_ids@.take(i as int).filter(pred)[k],), #[trigger] tv[k]),
            tris@ == flat(tris_views(tv)),
            tris_exist(*mesh, tris@),
        decreases face_ids@.len() - i,
    {
        let f = face_ids[i];
        let ghost s0 = face_ids@.take(i as int).filter(pred);
        proof {
            assert(face_ids@.take(i as int + 1) =~= face_ids@.take(i as int).push(f));
            reveal(Seq::filter);
            assert(face_ids@.take(i as int).push(f).drop_last() =~= face_ids@.take(i as int));
        }
        if mesh.contains_face(f) {
            let mut t = triangulate(f);
            let ghost tvb = tv;
            let ghost tb = tris@;
            let ghost t_v = t@;
            proof {
                tv = tv.push(t);
                assert(tris_views(tv).drop_last() =~= tris_views(tvb));
                assert(tris_views(tv).last() == t_v);
            }
            tris.append(&mut t);
            proof {
                assert forall|k: int| 0 <= k < tv.len() implies triangulate.ensures((face_ids@.take(i as int + 1).filter(pred)[k],), #[trigger] tv[k]) by {
                    if k < tvb.len() {
                        assert(tv[k] == tvb[k]);
                        assert(face_ids@.take(i as int + 1).filter(pred)[k] == s0[k]);
                    }
                }
                assert forall|q: int| 0 <= q < tris@.len() implies mesh.has_vertex((#[trigger] tris@[q])[0]) && mesh.has_vertex(tris@[q][1]) && mesh.has_vertex(tris@[q][2]) by {
                    if q >= tb.len() {
                        assert(tris@[q] == t_v[q - tb.len()]);
                    } else {
                        assert(tris@[q] == tb[q]);
                    }
                }
            }
        }
        i = i + 1;
    }
    proof {
        assert(face_ids@.take(face_ids@.len() as int) =~= face_ids@);
    }
    let out = write_triangles(mesh, &tris, encode);
    proof {
        let enc = choose|enc: Seq<[u8; 48]>| stl_records_of(*mesh, tris@, *encode, enc, out@);
        assert(written_as(*mesh, face_ids@, *triangulate, *encode, tv, enc, out@));
    }
    out
}

/// Writes the triangles `tris` as a binary STL file, each one's corner
/// positions turned by `encode` into its 48 record bytes.
fn write_triangles<P: Copy, E: Fn([P; 3]) -> [u8; 48]>(mesh: &Mesh<P>, tris: &Vec<[VertexId; 3]>, encode: &E) -> (out: Vec<u8>)
    requires
        tris_exist(*mesh, tris@),
        forall|c: [P; 3]| encode.requires((c,)),
    ensures
        exists|enc: Seq<[u8; 48]>| stl_records_of(*mesh, tris@, *encode, enc, out@),
{
    let n = tris.len();
    let mut out: Vec<u8> = Vec::new();
    let mut h: usize = 0;
    while h < 80
        invariant
            h <= 80,
            out@ == Seq::new(h as nat, |i: int| 0u8),
        decreases 80 - h,
    {
        out.push(0u8);
        proof {
            assert(out@ =~= Seq::new(h as nat + 1, |i: int| 0u8));
        }
        h = h + 1;
    }
    let count: u32 = ((n as u64) % 4294967296u64) as u32;
    push_le_u32(&mut out, count);
    let ghost head = out@;
    let ghost mut enc: Seq<[u8; 48]> = Seq::empty();
    let mut k: usize = 0;
    while k < tris.len()
        invariant
            tris_exist(*mesh, tris@),
            forall|c: [P; 3]| encode.requires((c,)),
            k <= tris@.len(),
            enc.len() == k,
            forall|q: int| 0 <= q < k ==> encode.ensures((corners(*mesh, tris@[q]),), #[trigger] enc[q]),
            out@ == head + flat(enc.map_values(|e: [u8; 48]| e@).map_values(|e: Seq<u8>| stl_record(e))),
        decreases tris@.len() - k,
    {
        let t = tris[k];
        let c = [mesh.position(t[0]), mesh.position(t[1]), mesh.position(t[2])];
        proof {
            assert(c@ == corners(*mesh, t)@);
            assert(c == corners(*mesh, t));
        }
        let e = encode(c);
        let ghost ob = out@;
        let ghost encb = enc;
        let mut j: usize = 0;
        while j < 48
            invariant
                j <= 48,
                out@ == ob + e@.take(j as int),
            decreases 48 - j,
        {
            out.push(e[j]);
            proof {
                assert(out@ =~= ob + e@.take(j as int + 1));
            }
            j = j + 1;
        }
        out.push(0u8);
        out.push(0u8);
        proof {
            enc = enc.push(e);
            assert(e@.take(48) =~= e@);
            let ev = enc.map_values(|x: [u8; 48]| x@);
            let evb = encb.map_values(|x: [u8; 48]| x@);
            assert(ev =~= evb.push(e@));
            let rv = ev.map_values(|x: Seq<u8>| stl_record(x));
            let rvb = evb.map_values(|x: Seq<u8>| stl_record(x));
            assert(rv.drop_last() =~= rvb);
            assert(rv.last() == stl_record(e@));
            assert(out@ =~= head + flat(rv));
        }
        k = k + 1;
    }
    proof {
        assert(out@ =~= stl_bytes(tris@.len(), enc.map_values(|e: [u8; 48]| e@)));
        assert(stl_records_of(*mesh, tris@, *encode, enc, out@));
    }
    out
}

/// Why a document cannot be exported for printing.
#[derive(Clone, Copy, PartialEq, Eq, Structural, Debug)]
pub enum ExportError {
    /// The document has no face at all.
    EmptyDocument,
    /// Every face is a flat sketch: there is no solid to print.
    NothingPrintable,
    /// The solid faces do not close up: an edge is open or doubled.
    NotWatertight,
}

/// Each face `ids[k]` with its triangles `tv[k]`.
pub open spec fn paired(ids: Seq<FaceId>, tv: Seq<Seq<[VertexId; 3]>>) -> Seq<(FaceId, Seq<[VertexId; 3]>)> {
    Seq::new(ids.len(), |k: int| (ids[k], tv[k]))
}

/// Export of `d` with solid faces gave `r`: `ids` are the solid faces in
/// id order, face `ids[k]` triangulated once as `tv[k]`; the export is
/// refused exactly when those triangles do not close up, and otherwise
/// it is the binary STL file of them, in order, triangle `i` encoded as
/// `enc[i]`.
pub open spec fn exported<P, T: Fn(FaceId) -> Vec<[VertexId; 3]>, E: Fn([P; 3]) -> [u8; 48]>(
    d: Document<P>,
    ids: Seq<FaceId>,
    triangulate: T,
    encode: E,
    tv: Seq<Vec<[VertexId; 3]>>,
    enc: Seq<[u8; 48]>,
    r: Result<Vec<u8>, ExportError>,
) -> bool {
    &&& solid_id_list(d, ids)
    &&& tv.len() == ids.len()
    &&& forall|k: int| 0 <= k < ids.len() ==> triangulate.ensures((ids[k],), #[trigger] tv[k])
    &&& (r == Err::<Vec<u8>, ExportError>(ExportError::NotWatertight)) <==> !check_manifold_is_clean(all_edges(paired(ids, tris_views(tv))))
    &&& r is Ok ==> stl_records_of(d.the_mesh(), flat(tris_views(tv)), encode, enc, r->Ok_0@)
}

impl<P: Copy> Document<P> {
    /// The STL file of the document's solids, or why there is none: an
    /// empty document and one with only flat sketches have nothing to
    /// print, and solids that do not close up (an open or doubled edge,
    /// as after erasing part of a solid) would not slice, so they are
    /// refused. Each solid face is triangulated once by `triangulate`;
    /// the same triangles are checked and written.
    pub fn stl_export<T: Fn(FaceId) -> Vec<[VertexId; 3]>, E: Fn([P; 3]) -> [u8; 48]>(
        &self,
        triangulate: &T,
        encode: &E,
    ) -> (r: Result<Vec<u8>, ExportError>)
        requires
            forall|f: FaceId| triangulate.requires((f,)),
            forall|f: FaceId, t: Vec<[VertexId; 3]>| triangulate.ensures((f,), t) ==> tris_exist(self.the_mesh(), t@),
            forall|c: [P; 3]| encode.requires((c,)),
        ensures
            (r == Err::<Vec<u8>, ExportError>(ExportError::EmptyDocument)) <==> !(exists|f: FaceId| self.the_mesh().has_face(f)),
            (r == Err::<Vec<u8>, ExportError>(ExportError::NothingPrintable)) <==> ((exists|f: FaceId| self.the_mesh().has_face(f)) && !(exists|
                f: FaceId,
            | self.the_mesh().has_face(f) && self.solids().contains(f))),
            (exists|f: FaceId| self.the_mesh().has_face(f) && self.solids().contains(f)) ==> exists|
                ids: Seq<FaceId>,
                tv: Seq<Vec<[VertexId; 3]>>,
                enc: Seq<[u8; 48]>,
            | #[trigger] exported(*self, ids, *triangulate, *encode, tv, enc, r),
    {
        let m = self.mesh_ref();
        let ids = self.solid_boundary_face_ids();
        if ids.len() == 0 {
            let all = m.face_ids();
            proof {
                assert(!(exists|f: FaceId| self.the_mesh().has_face(f) && self.solids().contains(f))) by {
                    if exists|f: FaceId| self.the_mesh().has_face(f) && self.solids().contains(f) {
                        let f = choose|f: FaceId| self.the_mesh().has_face(f) && self.solids().contains(f);
                        assert(ids@.contains(f));
                    }
                }
            }
            if all.len() == 0 {
                proof {
                    assert(!(exists|f: FaceId| self.the_mesh().has_face(f))) by {
                        if exists|f: FaceId| self.the_mesh().has_face(f) {
                            let f = choose|f: FaceId| self.the_mesh().has_face(f);
                            assert(all@.contains(f));
                        }
                    }
                }
                return Err(ExportError::EmptyDocument);
            } else {
                proof {
                    assert(self.the_mesh().has_face(all@[0]));
                }
                return Err(ExportError::NothingPrintable);
            }
        }
        proof {
            assert(self.the_mesh().has_face(ids@[0]) && self.solids().contains(ids@[0]));
        }
        let mut listed: Vec<(FaceId, Vec<[VertexId; 3]>)> = Vec::new();
        let mut tris: Vec<[VertexId; 3]> = Vec::new();
        let ghost mut tv: Seq<Vec<[VertexId; 3]>> = Seq::empty();
        let mut k: usize = 0;
        while k < ids.len()
            invariant
                *m == self.the_mesh(),
                forall|f: FaceId| triangulate.requires((f,)),
                forall|f: FaceId, t: Vec<[VertexId; 3]>| triangulate.ensures((f,), t) ==> tris_exist(self.the_mesh(), t@),
                k <= ids@.len(),
                tv.len() == k,
                listed@.len() == k,
                forall|q: int| 0 <= q < k ==> triangulate.ensures((ids@[q],), #[trigger] tv[q]),
                forall|q: int| 0 <= q < k ==> #[trigger] listed@[q] == (ids@[q], tv[q]),
                tris@ == flat(tris_views(tv)),
                tris_exist(self.the_mesh(), tris@),
            decreases ids@.len() - k,
        {
            let f = ids[k];
            let t = triangulate(f);
            let ghost tb = tris@;
            let mut j: usize = 0;
            while j < t.len()
                invariant
                    j <= t@.len(),
                    tris@ == tb + t@.take(j as int),
                decreases t@.len() - j,
            {
                tris.push(t[j]);
                proof {
                    assert(tris@ =~= tb + t@.take(j as int + 1));
                }
                j = j + 1;
            }
            let ghost tvb = tv;
            let ghost t_v = t@;
            listed.push((f, t));
            proof {
                tv = tv.push(listed@[k as int].1);
                assert(t@.take(t@.len() as int) =~= t@);
                assert(tris_views(tv).drop_last() =~= tris_views(tvb));
                assert(tris_views(tv).last() == t_v);
                assert forall|q: int| 0 <= q < k + 1 implies triangulate.ensures((ids@[q],), #[trigger] tv[q]) by {
                    if q < k {
                        assert(tv[q] == tvb[q]);
                    }
                }
                assert forall|q: int| 0 <= q < k + 1 implies #[trigger] listed@[q] == (ids@[q], tv[q]) by {
                    if q < k {
                        assert(tv[q] == tvb[q]);
                    }
                }
                assert(tris_exist(self.the_mesh(), t_v));
                assert forall|q: int| 0 <= q < tris@.len() implies self.the_mesh().has_vertex((#[trigger] tris@[q])[0])
                    && self.the_mesh().has_vertex(tris@[q][1]) && self.the_mesh().has_vertex(tris@[q][2]) by {
                    if q >= tb.len() {
                        assert(tris@[q] == t_v[q - tb.len()]);
                    } else {
                        assert(tris@[q] == tb[q]);
                    }
                }
            }
            k = k + 1;
        }
        proof {
            assert(triangulation_view(listed@) =~= paired(ids@, tris_views(tv)));
        }
        if !is_manifold(&listed) {
            let r = Err(ExportError::NotWatertight);
            proof {
                assert(exported(*self, ids@, *triangulate, *encode, tv, Seq::empty(), r));
            }
            return r;
        }
        let out = write_triangles(m, &tris, encode);
        let r = Ok(out);
        proof {
            let enc = choose|enc: Seq<[u8; 48]>| stl_records_of(*m, tris@, *encode, enc, out@);
            assert(exported(*self, ids@, *triangulate, *encode, tv, enc, r));
        }
        r
    }
}

} // verus!
