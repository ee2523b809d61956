use craft3d::face_detect::{
    assemble_faces, merge_holes_sharing_an_edge, merge_two_loops_on_shared_edge, neighbor_lists, split_edges, trace_cycles,
};
use craft3d::mesh::{FaceId, Mesh, VertexId};
use craft3d::resplit::{add_detected_faces, loop_covers_any, loop_graph, matches_any_loop, unfilled_holes};
use craft3d::selection::Selection;

fn vids(ids: &[usize]) -> Vec<VertexId> {
    ids.iter().map(|&i| VertexId(i)).collect()
}

#[test]
fn two_squares_sharing_an_edge_merge_into_one_loop() {
    let merged = merge_two_loops_on_shared_edge(&[0, 1, 2, 3], &[1, 4, 5, 2]);
    assert_eq!(merged, Some(vec![0, 1, 4, 5, 2, 3]));
}

#[test]
fn loops_sharing_no_edge_do_not_merge() {
    assert_eq!(merge_two_loops_on_shared_edge(&[0, 1, 2], &[3, 4, 5]), None);
    // Sharing an edge in the same direction is not a shared boundary.
    assert_eq!(merge_two_loops_on_shared_edge(&[0, 1, 2], &[0, 1, 5]), None);
}

#[test]
fn hole_loops_sharing_an_edge_merge_and_the_rest_stay() {
    let holes = merge_holes_sharing_an_edge(vec![vec![0, 1, 2, 3], vec![1, 4, 5, 2], vec![7, 8, 9]]);
    assert_eq!(holes, vec![vec![0, 1, 4, 5, 2, 3], vec![7, 8, 9]]);
}

#[test]
fn three_holes_in_a_row_fuse_into_one() {
    let holes = merge_holes_sharing_an_edge(vec![vec![0, 1, 2, 3], vec![1, 4, 5, 2], vec![4, 6, 7, 5]]);
    assert_eq!(holes.len(), 1);
    assert_eq!(holes[0].len(), 8);
}

#[test]
fn neighbor_lists_record_each_neighbor_once_in_order_of_appearance() {
    let lists = neighbor_lists(4, &[(0, 1), (1, 2), (2, 0), (0, 1), (3, 3)]);
    assert_eq!(lists, vec![vec![1, 2], vec![0, 2], vec![1, 0], vec![]]);
}

#[test]
fn a_square_traces_into_its_inside_and_outside_cycles() {
    // Points (0,0), (1,0), (1,1), (0,1); each neighbour list sorted
    // clockwise around its vertex.
    let edges = [(0, 1), (1, 2), (2, 3), (3, 0)];
    let nbrs = vec![vec![3, 1], vec![0, 2], vec![3, 1], vec![2, 0]];
    let cycles = trace_cycles(&edges, &nbrs);
    assert_eq!(cycles, vec![vec![0, 1, 2, 3], vec![1, 0, 3, 2]]);
}

#[test]
fn a_diagonal_splits_the_square_into_two_triangles() {
    // Same square plus the diagonal 0-2.
    let edges = [(0, 1), (1, 2), (2, 3), (3, 0), (0, 2)];
    let nbrs = vec![vec![3, 2, 1], vec![0, 2], vec![3, 1, 0], vec![2, 0]];
    let cycles = trace_cycles(&edges, &nbrs);
    assert_eq!(cycles.len(), 3);
    assert!(cycles.contains(&vec![0, 1, 2]));
    assert!(cycles.contains(&vec![2, 3, 0]));
}

#[test]
fn a_point_partway_along_an_edge_splits_it() {
    let split = split_edges(&[(0, 1), (1, 2), (2, 2)], &vec![vec![3], vec![], vec![]]);
    assert_eq!(split, vec![(0, 3), (3, 1), (1, 2)]);
    let chain = split_edges(&[(0, 1)], &vec![vec![4, 5]]);
    assert_eq!(chain, vec![(0, 4), (4, 5), (5, 1)]);
}

#[test]
fn nested_square_becomes_ring_hole_and_own_face() {
    let loops = vec![vec![0, 1, 2, 3], vec![4, 5, 6, 7]];
    let faces = assemble_faces(&loops, &vec![None, Some(0)]);
    assert_eq!(faces.len(), 2);
    assert_eq!(faces[0].outer, vec![0, 1, 2, 3]);
    assert_eq!(faces[0].holes, vec![vec![7, 6, 5, 4]], "a hole is wound opposite its outer loop");
    assert_eq!(faces[1].outer, vec![4, 5, 6, 7]);
    assert!(faces[1].holes.is_empty());
}

#[test]
fn matches_any_loop_ignores_start_and_direction() {
    let subject = vids(&[1, 2, 3]);
    assert!(matches_any_loop(&subject, &[vids(&[3, 1, 2])]));
    assert!(matches_any_loop(&subject, &[vids(&[9, 9, 9]), vids(&[3, 2, 1])]));
    assert!(!matches_any_loop(&subject, &[vids(&[1, 2, 3, 4])]));
    assert!(!matches_any_loop(&subject, &[]));
}

#[test]
fn loop_covers_any_tolerates_split_edges() {
    let subject = vids(&[1, 5, 2, 3]);
    assert!(loop_covers_any(&subject, &[vids(&[1, 2, 3])]));
    assert!(!loop_covers_any(&subject, &[vids(&[1, 2, 4])]));
    assert!(!loop_covers_any(&subject, &[]));
}

#[test]
fn holes_filled_by_an_outer_loop_are_not_protected() {
    let holes = vec![vids(&[1, 2, 3]), vids(&[7, 8, 9])];
    let outers = vec![vids(&[3, 2, 1])];
    assert_eq!(unfilled_holes(&holes, &outers), vec![vids(&[7, 8, 9])]);
}

#[test]
fn loop_graph_welds_a_vertex_onto_an_earlier_point() {
    let rings = vec![vids(&[0, 1, 2]), vids(&[3, 4, 5])];
    let weld = |a: VertexId, b: VertexId| a == VertexId(0) && b == VertexId(3);
    let (reps, edges) = loop_graph(&rings, &weld);
    assert_eq!(reps, vids(&[0, 1, 2, 4, 5]));
    assert_eq!(edges, vec![(0, 1), (1, 2), (2, 0), (0, 3), (3, 4), (4, 0)]);
}

#[test]
fn detected_faces_covering_a_protected_hole_are_not_added() {
    let mut mesh: Mesh<[f64; 2]> = Mesh::new();
    let reps: Vec<VertexId> = (0..8).map(|i| mesh.add_vertex([i as f64, 0.0])).collect();
    let detected = assemble_faces(&vec![vec![0, 1, 2, 3], vec![4, 5, 6, 7]], &vec![None, Some(0)]);
    let protected = vec![vids(&[4, 5, 6, 7])];
    let made = add_detected_faces(&mut mesh, &detected, &reps, &protected);
    assert_eq!(made, vec![FaceId(0)]);
    let face = mesh.get_face(made[0]).unwrap();
    assert_eq!(face.outer, vids(&[0, 1, 2, 3]));
    assert_eq!(face.holes, vec![vids(&[7, 6, 5, 4])]);
}

#[test]
fn clearing_a_selection_empties_it() {
    let mut s = Selection::new();
    s.set_to(&[FaceId(1), FaceId(2), FaceId(1)]);
    assert_eq!(s.faces.len(), 2);
    assert!(s.contains(FaceId(1)));
    assert!(s.contains(FaceId(2)));
    s.remove(FaceId(2));
    assert!(!s.contains(FaceId(2)));
    s.clear();
    assert!(s.faces.is_empty());
}
