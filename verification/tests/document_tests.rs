use craft3d::copies::{check_array_counts, ArrayCountError, MAX_ARRAY_CELLS};
use craft3d::document::Document;
use craft3d::layout::{print_grid_columns, print_layout};
use craft3d::mesh::{FaceId, Mesh, VertexId};
use craft3d::project::{ProjectFace, ProjectFile, ProjectGroup};
use craft3d::pushpull::is_manifold;
use craft3d::stl::write_binary_stl;

type P = [f64; 3];

fn doc_rect(doc: &mut Document<P>, x0: f64, y0: f64, x1: f64, y1: f64) -> FaceId {
    let a = doc.mesh.add_vertex([x0, y0, 0.0]);
    let b = doc.mesh.add_vertex([x1, y0, 0.0]);
    let c = doc.mesh.add_vertex([x1, y1, 0.0]);
    let d = doc.mesh.add_vertex([x0, y1, 0.0]);
    doc.mesh.add_face(vec![a, b, c, d], vec![])
}

fn doc_fan(mesh: &Mesh<P>, f: FaceId) -> Vec<[VertexId; 3]> {
    let outer = &mesh.get_face(f).unwrap().outer;
    (1..outer.len() - 1).map(|i| [outer[0], outer[i], outer[i + 1]]).collect()
}

fn doc_is_manifold(doc: &Document<P>, faces: &[FaceId]) -> bool {
    let tris: Vec<(FaceId, Vec<[VertexId; 3]>)> = faces.iter().map(|&f| (f, doc_fan(doc.mesh_ref(), f))).collect();
    is_manifold(&tris)
}

fn doc_box(doc: &mut Document<P>, x: f64, y: f64, size: f64, height: f64) -> Vec<FaceId> {
    let f = doc_rect(doc, x, y, x + size, y + size);
    let up = move |_f: FaceId, p: P| [p[0], p[1], p[2] + height];
    doc.push_pull(f, &up, height >= 0.0)
}

fn doc_face_count(doc: &Document<P>) -> usize {
    doc.mesh_ref().face_ids().len()
}

fn doc_positions(doc: &Document<P>, f: FaceId) -> Vec<P> {
    doc.mesh_ref().get_face(f).unwrap().outer.iter().map(|&v| doc.mesh_ref().position(v)).collect()
}

#[test]
fn push_pull_with_a_stale_face_id_is_a_no_op_not_a_panic() {
    let mut doc = Document::<P>::new();
    let f = doc_rect(&mut doc, 0.0, 0.0, 1.0, 1.0);
    doc.erase_face(f);
    let up = |_f: FaceId, p: P| [p[0], p[1], p[2] + 1.0];
    assert!(doc.push_pull(f, &up, true).is_empty());
    assert!(doc.push_pull(FaceId(99), &up, true).is_empty());
}

#[test]
fn push_pull_faces_extrudes_every_selected_face_along_its_own_normal() {
    let mut doc = Document::<P>::new();
    let a = doc_rect(&mut doc, 0.0, 0.0, 1.0, 1.0);
    let b = doc_rect(&mut doc, 5.0, 0.0, 6.0, 1.0);
    let up = |_f: FaceId, p: P| [p[0], p[1], p[2] + 2.0];
    let new_faces = doc.push_pull_faces(&[a, b], &up, true);
    assert_eq!(new_faces.len(), 12);
    assert!(doc_is_manifold(&doc, &new_faces[..6]));
    assert!(doc_is_manifold(&doc, &new_faces[6..]));
    for &f in &new_faces {
        assert!(doc.is_solid(f));
    }
}

#[test]
fn erase_face_removes_it_from_its_group() {
    let mut doc = Document::<P>::new();
    let a = doc_rect(&mut doc, 0.0, 0.0, 1.0, 1.0);
    let b = doc_rect(&mut doc, 2.0, 0.0, 3.0, 1.0);
    let g = doc.group_faces(&[a, b], "pair".to_string());
    doc.erase_face(a);
    assert_eq!(doc.get_group(g).unwrap().face_ids, vec![b]);
    assert_eq!(doc.group_of_face(a), None);
    assert_eq!(doc.group_of_face(b), Some(g));
}

#[test]
fn translate_moves_only_the_given_faces() {
    let mut doc = Document::<P>::new();
    let a = doc_rect(&mut doc, 0.0, 0.0, 1.0, 1.0);
    let b = doc_rect(&mut doc, 5.0, 5.0, 6.0, 6.0);
    let b_before = doc_positions(&doc, b);
    let shift = |p: P| [p[0] + 10.0, p[1], p[2]];
    doc.translate_faces(&[a], &shift);
    assert_eq!(doc_positions(&doc, a), vec![[10.0, 0.0, 0.0], [11.0, 0.0, 0.0], [11.0, 1.0, 0.0], [10.0, 1.0, 0.0]]);
    assert_eq!(doc_positions(&doc, b), b_before);
}

#[test]
fn moving_part_of_a_solid_moves_each_shared_vertex_once() {
    let mut doc = Document::<P>::new();
    let faces = doc_box(&mut doc, 0.0, 0.0, 1.0, 1.0);
    // Every face of the box: each of the 8 corners is shared by three of
    // them, and must still move just once.
    let shift = |p: P| [p[0], p[1], p[2] + 5.0];
    doc.translate_faces(&faces, &shift);
    let mut zs: Vec<f64> = doc.unique_vertices(&faces).iter().map(|&v| doc.mesh_ref().position(v)[2]).collect();
    zs.sort_by(|x, y| x.partial_cmp(y).unwrap());
    assert_eq!(zs, vec![5.0, 5.0, 5.0, 5.0, 6.0, 6.0, 6.0, 6.0]);
    assert!(doc_is_manifold(&doc, &faces));
}

#[test]
fn guides_are_not_moved_by_geometry_transforms() {
    let mut doc = Document::<P>::new();
    let face_id = doc_rect(&mut doc, 0.0, 0.0, 2.0, 2.0);
    doc.add_guide([0.0, 0.0, 0.0], [1.0, 1.0, 0.0]);
    let up = |p: P| [p[0], p[1], p[2] + 10.0];
    doc.translate_faces(&[face_id], &up);
    assert_eq!(doc.guides_ref().len(), 1);
    assert_eq!(doc.guides_ref()[0].a, [0.0, 0.0, 0.0]);
    assert_eq!(doc.guides_ref()[0].b, [1.0, 1.0, 0.0]);
}

#[test]
fn solid_boundary_face_ids_excludes_flat_sketches() {
    let mut doc = Document::<P>::new();
    let sketch = doc_rect(&mut doc, 10.0, 10.0, 11.0, 11.0);
    let solid = doc_box(&mut doc, 0.0, 0.0, 1.0, 1.0);
    let ids = doc.solid_boundary_face_ids();
    assert_eq!(ids.len(), 6);
    assert!(!ids.contains(&sketch));
    for f in solid {
        assert!(ids.contains(&f));
    }
    assert_eq!(doc.sketch_face_ids(), vec![sketch]);
}

#[test]
fn pushing_a_grouped_sketch_keeps_the_solid_in_the_group() {
    let mut doc = Document::<P>::new();
    let f = doc_rect(&mut doc, 0.0, 0.0, 1.0, 1.0);
    let g = doc.group_faces(&[f], "part".to_string());
    let up = |_f: FaceId, p: P| [p[0], p[1], p[2] + 1.0];
    let faces = doc.push_pull(f, &up, true);
    assert_eq!(doc.get_group(g).unwrap().face_ids, faces);
    for &x in &faces {
        assert_eq!(doc.group_of_face(x), Some(g));
    }
    assert_eq!(doc.group_of_face(f), None);
}

#[test]
fn duplicate_of_a_box_is_an_independent_manifold_copy() {
    let mut doc = Document::<P>::new();
    let box_faces = doc_box(&mut doc, 0.0, 0.0, 1.0, 1.0);
    let shift = |p: P| [p[0] + 5.0, p[1], p[2]];
    let copies = doc.duplicate_faces(&box_faces, &shift);
    assert_eq!(copies.len(), 6);
    assert!(doc_is_manifold(&doc, &copies));
    assert!(doc_is_manifold(&doc, &box_faces));
    let original: Vec<VertexId> = doc.unique_vertices(&box_faces);
    for v in doc.unique_vertices(&copies) {
        assert!(!original.contains(&v), "the copy shares no vertex with its source");
        assert!(doc.mesh_ref().position(v)[0] >= 5.0);
    }
    for &c in &copies {
        assert!(doc.is_solid(c));
        assert!(doc.selected_ids().contains(&c));
    }
    assert_eq!(doc.selected_ids().len(), 6);
}

#[test]
fn an_array_pitch_smaller_than_the_part_overlaps_instead_of_clamping() {
    let mut doc = Document::<P>::new();
    let box_faces = doc_box(&mut doc, 0.0, 0.0, 2.0, 1.0);
    let shift = |col: usize, row: usize, p: P| [p[0] + col as f64 * 1.5, p[1] + row as f64 * 1.5, p[2]];
    let copies = doc.array_faces(&box_faces, 2, 1, &shift);
    let xs: Vec<f64> = doc.unique_vertices(&copies).iter().map(|&v| doc.mesh_ref().position(v)[0]).collect();
    let min = xs.iter().cloned().fold(f64::INFINITY, f64::min);
    assert_eq!(min, 1.5, "a pitch smaller than the part overlaps instead of being clamped");
}

#[test]
fn each_mirrored_loop_is_its_source_reflected_and_reversed() {
    let mut doc = Document::<P>::new();
    let box_faces = doc_box(&mut doc, 1.0, 0.0, 1.0, 1.0);
    let before: Vec<Vec<P>> = box_faces.iter().map(|&f| doc_positions(&doc, f)).collect();
    let reflect = |p: P| [-p[0], p[1], p[2]];
    let copies = doc.mirror_faces(&box_faces, &reflect);
    assert_eq!(copies.len(), 6);
    let after: Vec<Vec<P>> = box_faces.iter().map(|&f| doc_positions(&doc, f)).collect();
    assert_eq!(before, after);
    assert!(doc_is_manifold(&doc, &copies));
    // Each copy's loop is its source's loop, reflected and reversed.
    for (k, &c) in copies.iter().enumerate() {
        let mut src: Vec<P> = before[k].iter().map(|p| [-p[0], p[1], p[2]]).collect();
        src.reverse();
        assert_eq!(doc_positions(&doc, c), src);
    }
}

#[test]
fn group_and_ungroup_round_trip() {
    let mut doc = Document::<P>::new();
    let a = doc_rect(&mut doc, 0.0, 0.0, 1.0, 1.0);
    let b = doc_rect(&mut doc, 2.0, 0.0, 3.0, 1.0);
    let g1 = doc.group_faces(&[a], "first".to_string());
    let g2 = doc.group_faces(&[a, b], "second".to_string());
    assert!(doc.get_group(g1).unwrap().face_ids.is_empty(), "regrouping takes the face out of its old group");
    assert_eq!(doc.get_group(g2).unwrap().name, "second");
    doc.select_group(g2);
    assert_eq!(doc.selected_ids().len(), 2);
    doc.ungroup(g2);
    assert!(doc.get_group(g2).is_none());
    assert_eq!(doc.group_of_face(a), None);
    assert_eq!(doc.group_of_face(b), None);
    assert_eq!(doc.group_count(), 2);
}

#[test]
fn check_model_counts_parts_and_broken_parts() {
    let mut doc = Document::<P>::new();
    let first = doc_box(&mut doc, 0.0, 0.0, 1.0, 1.0);
    doc_box(&mut doc, 5.0, 0.0, 1.0, 1.0);
    let tri = |f: FaceId| doc_fan(doc.mesh_ref(), f);
    let report = doc.check_model(&tri);
    assert_eq!(report.part_count, 2);
    assert_eq!(report.broken_part_count, 0);
    assert!(report.is_watertight());

    doc.erase_face(first[0]);
    let tri = |f: FaceId| doc_fan(doc.mesh_ref(), f);
    let report = doc.check_model(&tri);
    assert_eq!(report.part_count, 2);
    assert_eq!(report.broken_part_count, 1);
    assert_eq!(report.open_edges.len(), 4);
    assert!(!report.is_watertight());
}

#[test]
fn snapshot_lists_each_used_vertex_once() {
    let mut doc = Document::<P>::new();
    let faces = doc_box(&mut doc, 0.0, 0.0, 1.0, 1.0);
    let g = doc.group_faces(&faces[..2], "two".to_string());
    let tri = |f: FaceId| doc_fan(doc.mesh_ref(), f);
    let snap = doc.snapshot(&tri);
    assert_eq!(snap.vertices.len(), 8);
    assert_eq!(snap.faces.len(), 6);
    assert_eq!(snap.groups.len(), 1);
    assert_eq!(snap.groups[0].name, "two");
    for fs in &snap.faces {
        assert_eq!(fs.triangles.len(), 2);
        assert_eq!(fs.outer.len(), 4);
        assert!(fs.holes.is_empty());
        let expected = if faces[..2].contains(&fs.id) { Some(g) } else { None };
        assert_eq!(fs.group_id, expected);
        for (k, &v) in doc.mesh_ref().get_face(fs.id).unwrap().outer.iter().enumerate() {
            assert_eq!(snap.vertices[fs.outer[k] as usize], doc.mesh_ref().position(v));
        }
    }
}

fn doc_encode(c: [P; 3]) -> [u8; 48] {
    let u = [c[1][0] - c[0][0], c[1][1] - c[0][1], c[1][2] - c[0][2]];
    let w = [c[2][0] - c[0][0], c[2][1] - c[0][1], c[2][2] - c[0][2]];
    let n = [u[1] * w[2] - u[2] * w[1], u[2] * w[0] - u[0] * w[2], u[0] * w[1] - u[1] * w[0]];
    let len = (n[0] * n[0] + n[1] * n[1] + n[2] * n[2]).sqrt();
    let n = if len > 0.0 { [n[0] / len, n[1] / len, n[2] / len] } else { [0.0, 0.0, 0.0] };
    let mut out = [0u8; 48];
    let comps = [n[0], n[1], n[2], c[0][0], c[0][1], c[0][2], c[1][0], c[1][1], c[1][2], c[2][0], c[2][1], c[2][2]];
    for (k, x) in comps.iter().enumerate() {
        out[k * 4..k * 4 + 4].copy_from_slice(&(*x as f32).to_le_bytes());
    }
    out
}

#[test]
fn writes_a_valid_binary_stl_header_and_triangle_count_for_a_cube() {
    let mut doc = Document::<P>::new();
    let faces = doc_box(&mut doc, 0.0, 0.0, 1.0, 1.0);
    let tri = |f: FaceId| doc_fan(doc.mesh_ref(), f);
    let bytes = write_binary_stl(doc.mesh_ref(), &faces, &tri, &doc_encode);
    assert!(bytes.len() > 84);
    assert!(bytes[..80].iter().all(|&b| b == 0));
    let triangle_count = u32::from_le_bytes(bytes[80..84].try_into().unwrap());
    assert_eq!(triangle_count, 12);
    assert_eq!(bytes.len(), 84 + (triangle_count as usize) * 50);
    for i in 0..12 {
        assert_eq!(&bytes[84 + i * 50 + 48..84 + i * 50 + 50], &[0u8, 0u8]);
    }
}

#[test]
fn every_triangle_normal_is_unit_length_and_points_away_from_the_cube_center() {
    let mut doc = Document::<P>::new();
    let faces = doc_box(&mut doc, -1.0, -1.0, 2.0, 2.0);
    let center = [0.0, 0.0, 1.0];
    let tri = |f: FaceId| doc_fan(doc.mesh_ref(), f);
    let bytes = write_binary_stl(doc.mesh_ref(), &faces, &tri, &doc_encode);
    let count = u32::from_le_bytes(bytes[80..84].try_into().unwrap()) as usize;
    for i in 0..count {
        let base = 84 + i * 50;
        let read = |o: usize| f32::from_le_bytes(bytes[base + o..base + o + 4].try_into().unwrap()) as f64;
        let n = [read(0), read(4), read(8)];
        assert!(((n[0] * n[0] + n[1] * n[1] + n[2] * n[2]).sqrt() - 1.0).abs() < 1e-4);
        let v0 = [read(12), read(16), read(20)];
        let d = n[0] * (v0[0] - center[0]) + n[1] * (v0[1] - center[1]) + n[2] * (v0[2] - center[2]);
        assert!(d > 0.0, "normal should point outward from the solid's interior");
    }
}

#[test]
fn stl_skips_absent_faces() {
    let mut doc = Document::<P>::new();
    let faces = doc_box(&mut doc, 0.0, 0.0, 1.0, 1.0);
    doc.erase_face(faces[0]);
    let tri = |f: FaceId| doc_fan(doc.mesh_ref(), f);
    let bytes = write_binary_stl(doc.mesh_ref(), &faces, &tri, &doc_encode);
    assert_eq!(u32::from_le_bytes(bytes[80..84].try_into().unwrap()), 10);
}

#[test]
fn loading_a_project_file_with_out_of_range_indices_is_not_a_panic() {
    let project = ProjectFile {
        vertices: vec![[0.0, 0.0, 0.0], [1.0, 0.0, 0.0], [1.0, 1.0, 0.0]],
        faces: vec![
            ProjectFace { outer: vec![0, 1, 2], holes: vec![], solid: false },
            ProjectFace { outer: vec![0, 1, 999], holes: vec![], solid: false },
            ProjectFace { outer: vec![0, 1, 2], holes: vec![vec![7]], solid: false },
        ],
        groups: vec![ProjectGroup { name: "g".to_string(), face_indices: vec![0, 42] }],
        guides: vec![],
    };
    let keep = |_p: P| true;
    let doc = Document::from_project_file(&project, &keep);

    let ids = doc.mesh_ref().face_ids();
    assert_eq!(ids.len(), 2);
    assert!(ids.iter().all(|&f| doc.mesh_ref().get_face(f).unwrap().holes.is_empty()), "the unresolvable hole loop should be dropped");
    assert_eq!(doc.group_count(), 1);
    assert_eq!(doc.get_group(craft3d::document::GroupId(0)).unwrap().face_ids.len(), 1, "the dangling face index should be dropped");
}

#[test]
fn loading_a_project_file_with_degenerate_faces_drops_them() {
    let project = ProjectFile {
        vertices: vec![[0.0, 0.0, 0.0], [1.0, 0.0, 0.0], [1.0, 1.0, 0.0]],
        faces: vec![
            ProjectFace { outer: vec![0, 1], holes: vec![], solid: false },
            ProjectFace { outer: vec![], holes: vec![], solid: false },
            ProjectFace { outer: vec![0, 1, 2], holes: vec![], solid: false },
        ],
        groups: vec![],
        guides: vec![],
    };
    let keep = |_p: P| true;
    let doc = Document::from_project_file(&project, &keep);
    assert_eq!(doc.mesh_ref().face_ids().len(), 1, "the 2-vertex and empty loops must be dropped");
}

#[test]
fn project_file_round_trip_preserves_vertex_positions() {
    let mut doc = Document::<P>::new();
    let f = doc_rect(&mut doc, 1.5, -2.5, 4.0, 3.0);
    let project = doc.to_project_file();
    let keep = |_p: P| true;
    let reloaded = Document::from_project_file(&project, &keep);
    let rf = reloaded.mesh_ref().face_ids()[0];
    assert_eq!(doc_positions(&doc, f), doc_positions(&reloaded, rf));
}

#[test]
fn guides_round_trip_through_the_project_file() {
    let mut doc = Document::<P>::new();
    doc.add_guide([1.0, 2.0, 3.0], [4.0, 5.0, 6.0]);
    doc.add_guide([-1.0, 0.0, 2.5], [7.0, -3.0, 0.0]);
    let project = doc.to_project_file();
    let keep = |_p: P| true;
    let reloaded = Document::from_project_file(&project, &keep);
    assert_eq!(reloaded.guides_ref().len(), 2);
    assert_eq!(reloaded.guides_ref()[0].a, [1.0, 2.0, 3.0]);
    assert_eq!(reloaded.guides_ref()[0].b, [4.0, 5.0, 6.0]);
    assert_eq!(reloaded.guides_ref()[1].a, [-1.0, 0.0, 2.5]);
    assert_eq!(reloaded.guides_ref()[1].b, [7.0, -3.0, 0.0]);
}

#[test]
fn a_guide_with_an_unusable_end_is_dropped_on_load() {
    let mut doc = Document::<P>::new();
    doc.add_guide([f64::NAN, 0.0, 0.0], [1.0, 0.0, 0.0]);
    doc.add_guide([0.0, 0.0, 0.0], [1.0, 0.0, 0.0]);
    let project = doc.to_project_file();
    let finite = |p: P| p.iter().all(|x| x.is_finite());
    let reloaded = Document::from_project_file(&project, &finite);
    assert_eq!(reloaded.guides_ref().len(), 1);
}

#[test]
fn print_grid_is_as_square_as_it_gets() {
    assert_eq!(print_grid_columns(0), 0);
    assert_eq!(print_grid_columns(1), 1);
    assert_eq!(print_grid_columns(2), 2);
    assert_eq!(print_grid_columns(4), 2);
    assert_eq!(print_grid_columns(5), 3);
    assert_eq!(print_grid_columns(9), 3);
    assert_eq!(print_grid_columns(10), 4);
    assert_eq!(print_layout(5), vec![(0, 0), (1, 0), (2, 0), (0, 1), (1, 1)]);
    let cells = print_layout(7);
    for i in 0..7 {
        for j in 0..i {
            assert_ne!(cells[i], cells[j]);
        }
    }
}

#[test]
fn array_counts_need_a_cell_and_stay_under_the_limit() {
    assert_eq!(check_array_counts(0, 3), Err(ArrayCountError::NoCells));
    assert_eq!(check_array_counts(3, 0), Err(ArrayCountError::NoCells));
    assert_eq!(check_array_counts(3, 2), Ok(6));
    assert_eq!(check_array_counts(20, 20), Ok(MAX_ARRAY_CELLS));
    assert_eq!(check_array_counts(21, 20), Err(ArrayCountError::TooManyCells(420)));
    assert_eq!(check_array_counts(usize::MAX, 2), Err(ArrayCountError::TooManyCells(usize::MAX)));
}
