# craft3d

The core of a small push/pull solid modeller for 3D-printable parts,
verified with Verus.

- `src/` is the library. It holds the combinatorics of the model - face
  loops, face detection over planar edge graphs, extrusion, watertightness
  checks, sketch resplitting, copies, groups, selection, undo history, the
  project file and STL layouts - with contracts proved by Verus. Vertex
  positions are a type parameter the library never inspects: whatever needs
  floating point (normals, plane projections, angle sorts, triangulation,
  polygon offsets) is computed by the caller and handed in as values or
  closures.
- `app/` is the program around it: the floating-point geometry, the JSON
  command loop on standard input and output, and file I/O.
- `tests/` runs the library, on its own and through the same geometry the
  program uses.

Laws of the library stand in `src/` as public proof functions, among them
`history::lemma_undo_redo_inverse`, `pushpull::lemma_clean_iff_edges_pair_up`,
`closed::lemma_push_pull_closed` and `project::lemma_save_load_round_trip`.

## Storage

Vertices, faces and groups live in `Vec<Option<..>>` arenas addressed by
plain integer ids (`VertexId`, `FaceId`, `GroupId`); sets of faces (the
selection, group members, the solid faces) are vectors kept free of
duplicates, an invariant of each type. A slot map (the `slotmap` crate)
and hash sets would be the usual choice here. They are not used because:

- a slot map's key types are declared with that crate's `new_key_type!`
  macro, which cannot stand in verified code;
- Verus rejects a type specification of `slotmap::SlotMap` itself: its
  `K: Key` bound is a trait of that crate, and the declaration fails in
  Verus's trait checker;
- the contracts rest on ids that verified code can compare and order, and
  on fresh ids being consecutive and never reused: extrusions, copies and
  the project file round trip name the ids they create exactly;
- hash maps and sets keyed by the library's own id types carry no
  specification Verus can use, whereas a vector with a no-duplicates
  invariant states exactly what the set membership means.

One visible difference follows: an erased face's id is never handed out
again, where a slot map would reuse the slot under a new version.
