use spriter::codec::DecodeError;
use spriter::editor::{Editor, EditorStep};

#[test]
fn dimensions_commit_only_once() {
    let mut ed = Editor::new();
    assert_eq!(ed.step, EditorStep::Uncommitted);
    assert!(ed.commit_dimensions(5, 2));
    assert_eq!(ed.step, EditorStep::DimensionsSet);
    assert_eq!(ed.sprite.width.value(), 5);
    assert_eq!(ed.sprite.height.value(), 2);
    assert_eq!(ed.rows.len(), 2);
    assert!(!ed.commit_dimensions(9, 9));
    assert_eq!(ed.sprite.width.value(), 5);
}

#[test]
fn add_frame_needs_committed_dimensions() {
    let mut ed = Editor::new();
    assert!(!ed.add_frame_action());
    assert_eq!(ed.sprite.get_frame_count(), 0);
    ed.commit_dimensions(3, 1);
    assert!(ed.add_frame_action());
    assert_eq!(ed.sprite.get_frame_count(), 1);
    assert_eq!(ed.sprite.ind, Some(0));
    assert_eq!(ed.step, EditorStep::Editing);
    assert_eq!(ed.rows, vec![String::new()]);
}

#[test]
fn navigation_saturates_at_both_ends() {
    let mut ed = Editor::new();
    ed.commit_dimensions(1, 1);
    ed.add_frame_action();
    ed.add_frame_action();
    assert_eq!(ed.sprite.ind, Some(1));
    // right from the last frame: the move is refused, nothing changes
    assert!(!ed.navigate(true));
    assert_eq!(ed.sprite.ind, Some(1));
    assert!(ed.navigate(false));
    assert_eq!(ed.sprite.ind, Some(0));
    // left from the first frame: saturation targets index 0 again
    assert!(ed.navigate(false));
    assert_eq!(ed.sprite.ind, Some(0));
    assert!(ed.navigate(true));
    assert_eq!(ed.sprite.ind, Some(1));
}

#[test]
fn navigation_reloads_rows() {
    let mut ed = Editor::new();
    ed.commit_dimensions(2, 1);
    ed.add_frame_action();
    ed.rows = vec!["AA".to_string()];
    ed.flush_rows();
    ed.add_frame_action();
    ed.rows = vec!["BB".to_string()];
    ed.flush_rows();
    assert!(ed.navigate(false));
    assert_eq!(ed.rows, vec!["AA".to_string()]);
    assert!(ed.navigate(true));
    assert_eq!(ed.rows, vec!["BB".to_string()]);
}

#[test]
fn export_flushes_pending_edits() {
    let mut ed = Editor::new();
    ed.commit_dimensions(1, 1);
    ed.add_frame_action();
    ed.rows = vec!["Z".to_string()];
    let doc = ed.export_action().unwrap();
    assert!(doc.contains("[[[90]]]"));
    assert_eq!(ed.sprite.current_frame_rows(), vec!["Z".to_string()]);
}

#[test]
fn export_before_commit_is_refused() {
    let mut ed = Editor::new();
    assert_eq!(ed.export_action(), None);
}

#[test]
fn import_installs_whole_store() {
    let doc = "{\"frame_count\":1,\"width\":2,\"height\":1,\"sprite\":\"[[[72,73]]]\"}";
    let mut ed = Editor::new();
    assert_eq!(ed.import_action(doc), Ok(()));
    assert_eq!(ed.step, EditorStep::Editing);
    assert_eq!(ed.sprite.width.value(), 2);
    assert_eq!(ed.sprite.ind, Some(0));
    assert_eq!(ed.rows, vec!["HI".to_string()]);
}

#[test]
fn failed_import_changes_nothing() {
    let mut ed = Editor::new();
    ed.commit_dimensions(4, 4);
    let before_w = ed.sprite.width.value();
    assert_eq!(
        ed.import_action("{\"width\":1}"),
        Err(DecodeError::MissingField(spriter::codec::FieldName::Height))
    );
    assert_eq!(ed.sprite.width.value(), before_w);
    assert_eq!(ed.step, EditorStep::DimensionsSet);
}

#[test]
fn end_to_end_export_import() {
    let mut ed = Editor::new();
    assert!(ed.commit_dimensions(5, 2));
    assert!(ed.add_frame_action());
    ed.rows = vec!["AB".to_string(), "CD".to_string()];
    ed.flush_rows();
    let doc = ed.export_action().unwrap();

    let mut fresh = Editor::new();
    assert_eq!(fresh.import_action(&doc), Ok(()));
    assert_eq!(fresh.sprite.width.value(), 5);
    assert_eq!(fresh.sprite.height.value(), 2);
    assert_eq!(fresh.sprite.get_frame_count(), 1);
    assert_eq!(fresh.rows, vec!["AB".to_string(), "CD".to_string()]);
}

#[test]
fn store_with_three_frames_bounds_check() {
    let mut ed = Editor::new();
    ed.commit_dimensions(1, 1);
    ed.add_frame_action();
    ed.add_frame_action();
    ed.add_frame_action();
    assert_eq!(ed.sprite.move_ind(1), Ok(()));
    assert_eq!(ed.sprite.ind, Some(1));
    assert_eq!(
        ed.sprite.move_ind(5),
        Err(spriter::sprite_format::IndexMoveError::IndexOutOfBounds(5))
    );
    assert_eq!(ed.sprite.ind, Some(1));
    assert_eq!(ed.sprite.move_ind(2), Ok(()));
    assert_eq!(ed.sprite.ind, Some(2));
}

#[test]
fn import_of_empty_sprite_leaves_no_index() {
    let doc = "{\"frame_count\":0,\"width\":3,\"height\":3,\"sprite\":\"[]\"}";
    let mut ed = Editor::new();
    assert_eq!(ed.import_action(doc), Ok(()));
    assert_eq!(ed.sprite.ind, None);
    assert_eq!(ed.sprite.get_frame_count(), 0);
    assert_eq!(ed.rows.len(), 0);
}
