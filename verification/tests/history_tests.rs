use craft3d::document::Document;
use craft3d::history::{History, MAX_UNDO_STEPS};
use craft3d::mesh::FaceId;
use craft3d::pushpull::push_pull_by;

type P = [f64; 3];

/// Adds an axis-aligned rectangle on z = 0, wound counter-clockwise seen
/// from +Z, as one face.
fn history_rect(doc: &mut Document<P>, x0: f64, y0: f64, x1: f64, y1: f64) -> FaceId {
    let a = doc.mesh.add_vertex([x0, y0, 0.0]);
    let b = doc.mesh.add_vertex([x1, y0, 0.0]);
    let c = doc.mesh.add_vertex([x1, y1, 0.0]);
    let d = doc.mesh.add_vertex([x0, y1, 0.0]);
    doc.mesh.add_face(vec![a, b, c, d], vec![])
}

fn history_face_count(doc: &Document<P>) -> usize {
    doc.mesh_ref().face_ids().len()
}

#[test]
fn undo_reverts_the_last_recorded_mutation() {
    let mut history = History::new(Document::<P>::new());
    history.record();
    history_rect(&mut history.document, 0.0, 0.0, 1.0, 1.0);
    assert_eq!(history_face_count(&history.document), 1);

    history.undo();
    assert_eq!(history_face_count(&history.document), 0);
}

#[test]
fn redo_reapplies_an_undone_mutation() {
    let mut history = History::new(Document::<P>::new());
    history.record();
    history_rect(&mut history.document, 0.0, 0.0, 1.0, 1.0);
    history.undo();
    assert_eq!(history_face_count(&history.document), 0);

    history.redo();
    assert_eq!(history_face_count(&history.document), 1);
}

#[test]
fn a_new_edit_after_undo_clears_the_redo_stack() {
    let mut history = History::new(Document::<P>::new());
    history.record();
    history_rect(&mut history.document, 0.0, 0.0, 1.0, 1.0);
    history.undo();

    history.record();
    history_rect(&mut history.document, 4.0, 4.0, 6.0, 6.0);
    assert_eq!(history.redo_len(), 0);
    assert_eq!(history_face_count(&history.document), 1);
}

#[test]
fn an_array_of_copies_undoes_in_one_step() {
    let mut history = History::new(Document::<P>::new());
    history.record();
    let sketch_id = history_rect(&mut history.document, 0.0, 0.0, 1.0, 1.0);
    history.record();
    let up = |_f: FaceId, p: P| [p[0], p[1], p[2] + 1.0];
    let box_faces = history.document.push_pull(sketch_id, &up, true);
    let faces_before = history_face_count(&history.document);

    history.record();
    let shift = |col: usize, row: usize, p: P| [p[0] + col as f64 * 30.0, p[1] + row as f64 * 30.0, p[2]];
    history.document.array_faces(&box_faces, 3, 2, &shift);
    assert_eq!(history_face_count(&history.document), faces_before + 5 * 6);

    history.undo();
    assert_eq!(history_face_count(&history.document), faces_before, "one undo must remove every copy in the grid");
}

#[test]
fn clearing_guides_undoes_in_one_step() {
    let mut history = History::new(Document::<P>::new());
    for i in 0..3 {
        history.record();
        history.document.add_guide([i as f64, 0.0, 0.0], [i as f64, 1.0, 0.0]);
    }
    assert_eq!(history.document.guides_ref().len(), 3);

    history.record();
    history.document.clear_guides();
    assert!(history.document.guides_ref().is_empty());

    history.undo();
    assert_eq!(history.document.guides_ref().len(), 3, "one undo must restore every cleared guide");
}

#[test]
fn undo_after_a_measurement_removes_just_that_guide() {
    let mut history = History::new(Document::<P>::new());
    history.record();
    history.document.add_guide([0.0, 0.0, 0.0], [1.0, 0.0, 0.0]);
    history.record();
    history.document.add_guide([0.0, 0.0, 0.0], [0.0, 1.0, 0.0]);
    assert_eq!(history.document.guides_ref().len(), 2);

    history.undo();
    assert_eq!(history.document.guides_ref().len(), 1, "undo after a measurement should remove only that guide");
}

#[test]
fn undo_and_redo_on_empty_stacks_are_no_ops() {
    let mut history = History::new(Document::<P>::new());
    history.undo();
    history.redo();
    assert_eq!(history_face_count(&history.document), 0);
}

#[test]
fn undo_stack_is_capped_at_max_undo_steps() {
    let mut history = History::new(Document::<P>::new());
    for _ in 0..(MAX_UNDO_STEPS + 10) {
        history.record();
        history_rect(&mut history.document, 0.0, 0.0, 1.0, 1.0);
    }
    assert_eq!(history.undo_len(), MAX_UNDO_STEPS);
}

#[test]
fn undo_then_redo_restores_the_edited_document() {
    let mut history = History::new(Document::<P>::new());
    history.record();
    history_rect(&mut history.document, 0.0, 0.0, 1.0, 1.0);
    history.record();
    history_rect(&mut history.document, 2.0, 0.0, 3.0, 1.0);
    assert_eq!(history_face_count(&history.document), 2);
    history.undo();
    assert_eq!(history_face_count(&history.document), 1);
    assert_eq!(history.redo_len(), 1);
    history.redo();
    assert_eq!(history_face_count(&history.document), 2);
    assert_eq!(history.undo_len(), 2);
    assert_eq!(history.redo_len(), 0);
}

#[test]
fn pushing_a_stand_alone_mesh_face_directly_makes_six_faces() {
    let mut doc = Document::<P>::new();
    let f = history_rect(&mut doc, 0.0, 0.0, 1.0, 1.0);
    let up = |_f: FaceId, p: P| [p[0], p[1], p[2] + 1.0];
    let r = push_pull_by(&mut doc.mesh, f, &up, true, false);
    assert_eq!(r.len(), 6);
}
