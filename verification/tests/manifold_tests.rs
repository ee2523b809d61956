use craft3d::mesh::{FaceId, Mesh, VertexId};
use craft3d::pushpull::{check_manifold, is_manifold, push_pull_by};

type P = [f64; 3];

/// A rectangle on z = 0, counter-clockwise seen from +Z.
fn manifold_rect(mesh: &mut Mesh<P>, x0: f64, y0: f64, x1: f64, y1: f64) -> FaceId {
    let a = mesh.add_vertex([x0, y0, 0.0]);
    let b = mesh.add_vertex([x1, y0, 0.0]);
    let c = mesh.add_vertex([x1, y1, 0.0]);
    let d = mesh.add_vertex([x0, y1, 0.0]);
    mesh.add_face(vec![a, b, c, d], vec![])
}

/// Fan triangulation of a convex face without holes.
fn manifold_fan(mesh: &Mesh<P>, f: FaceId) -> Vec<[VertexId; 3]> {
    let outer = &mesh.get_face(f).unwrap().outer;
    (1..outer.len() - 1).map(|i| [outer[0], outer[i], outer[i + 1]]).collect()
}

fn manifold_tris(mesh: &Mesh<P>, faces: &[FaceId]) -> Vec<(FaceId, Vec<[VertexId; 3]>)> {
    faces.iter().map(|&f| (f, manifold_fan(mesh, f))).collect()
}

/// Builds a unit box and returns (mesh, its 6 face ids).
fn manifold_unit_box() -> (Mesh<P>, Vec<FaceId>) {
    let mut mesh = Mesh::new();
    let face_id = manifold_rect(&mut mesh, 0.0, 0.0, 1.0, 1.0);
    let up = |_f: FaceId, p: P| [p[0], p[1], p[2] + 1.0];
    let faces = push_pull_by(&mut mesh, face_id, &up, true, false);
    (mesh, faces)
}

#[test]
fn push_pull_square_makes_a_manifold_box_with_six_faces() {
    let (mesh, new_faces) = manifold_unit_box();
    assert_eq!(new_faces.len(), 6);
    assert!(is_manifold(&manifold_tris(&mesh, &new_faces)));
}

#[test]
fn push_pull_negative_distance_is_still_manifold() {
    let mut mesh = Mesh::new();
    let face_id = manifold_rect(&mut mesh, 0.0, 0.0, 1.0, 1.0);
    let down = |_f: FaceId, p: P| [p[0], p[1], p[2] - 2.0];
    let new_faces = push_pull_by(&mut mesh, face_id, &down, false, false);
    assert_eq!(new_faces.len(), 6);
    assert!(is_manifold(&manifold_tris(&mesh, &new_faces)));
}

#[test]
fn push_pull_removes_the_source_face_and_adds_fresh_vertices() {
    let mut mesh = Mesh::new();
    let face_id = manifold_rect(&mut mesh, 0.0, 0.0, 2.0, 1.0);
    let up = |_f: FaceId, p: P| [p[0], p[1], p[2] + 3.0];
    let new_faces = push_pull_by(&mut mesh, face_id, &up, true, false);
    assert!(!mesh.contains_face(face_id));
    assert_eq!(mesh.vertex_count(), 8);
    // Four walls first, then the source-position cap and the far cap.
    assert_eq!(new_faces.len(), 6);
    let far = mesh.get_face(new_faces[5]).unwrap();
    for &v in &far.outer {
        assert_eq!(mesh.position(v)[2], 3.0);
    }
    let near = mesh.get_face(new_faces[4]).unwrap();
    for &v in &near.outer {
        assert_eq!(mesh.position(v)[2], 0.0);
    }
}

#[test]
fn an_attached_push_pull_emits_no_source_cap() {
    let mut mesh = Mesh::new();
    let face_id = manifold_rect(&mut mesh, 0.0, 0.0, 1.0, 1.0);
    let up = |_f: FaceId, p: P| [p[0], p[1], p[2] + 1.0];
    let new_faces = push_pull_by(&mut mesh, face_id, &up, true, true);
    assert_eq!(new_faces.len(), 5);
}

#[test]
fn check_manifold_reports_nothing_for_a_closed_solid() {
    let (mesh, faces) = manifold_unit_box();
    let issues = check_manifold(&manifold_tris(&mesh, &faces));
    assert!(issues.is_empty());
    assert!(issues.open_edges.is_empty());
    assert!(issues.duplicate_edges.is_empty());
    assert!(issues.problem_faces.is_empty());
}

#[test]
fn erasing_a_face_reports_the_hole_rim_and_the_faces_around_it() {
    let (mut mesh, faces) = manifold_unit_box();
    let erased = faces[0];
    let erased_edge_count = mesh.get_face(erased).unwrap().outer.len();
    mesh.remove_face(erased);
    let remaining: Vec<FaceId> = faces.into_iter().filter(|&f| f != erased).collect();

    let issues = check_manifold(&manifold_tris(&mesh, &remaining));
    assert!(!issues.is_empty());
    assert!(issues.duplicate_edges.is_empty(), "a plain hole isn't duplicated geometry");
    assert_eq!(issues.open_edges.len(), erased_edge_count);
    assert_eq!(issues.problem_faces.len(), 4);
    for &fid in &issues.problem_faces {
        assert!(mesh.contains_face(fid));
    }
}

#[test]
fn a_doubled_face_is_reported_as_duplicate_not_open() {
    let (mut mesh, mut faces) = manifold_unit_box();
    let doubled = mesh.get_face(faces[0]).unwrap().clone();
    faces.push(mesh.add_face(doubled.outer, doubled.holes));

    let issues = check_manifold(&manifold_tris(&mesh, &faces));
    assert!(!issues.is_empty());
    assert!(issues.open_edges.is_empty());
    let outer = mesh.get_face(faces[0]).unwrap().outer.clone();
    for i in 0..outer.len() {
        let (a, b) = (outer[i], outer[(i + 1) % outer.len()]);
        assert!(
            issues.duplicate_edges.contains(&(a, b)) || issues.duplicate_edges.contains(&(b, a)),
            "boundary edge {i} of the doubled face should be reported as duplicated"
        );
    }
}

#[test]
fn is_manifold_still_agrees_with_check_manifold() {
    let (mut mesh, faces) = manifold_unit_box();
    assert!(is_manifold(&manifold_tris(&mesh, &faces)));
    let erased = faces[0];
    mesh.remove_face(erased);
    let remaining: Vec<FaceId> = faces.into_iter().filter(|&f| f != erased).collect();
    assert!(!is_manifold(&manifold_tris(&mesh, &remaining)));
}

#[test]
fn a_single_triangle_is_open_on_all_three_edges() {
    let tris = vec![(FaceId(0), vec![[VertexId(0), VertexId(1), VertexId(2)]])];
    let issues = check_manifold(&tris);
    assert_eq!(issues.open_edges.len(), 3);
    assert!(issues.duplicate_edges.is_empty());
    assert_eq!(issues.problem_faces, vec![FaceId(0)]);
}

#[test]
fn two_opposite_triangles_close_each_other() {
    let tris = vec![
        (FaceId(0), vec![[VertexId(0), VertexId(1), VertexId(2)]]),
        (FaceId(1), vec![[VertexId(0), VertexId(2), VertexId(1)]]),
    ];
    assert!(check_manifold(&tris).is_empty());
    assert!(is_manifold(&tris));
}
