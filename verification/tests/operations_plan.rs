use comfysort_engine::domain::CollisionPolicy;
use comfysort_engine::operations::{
    cross_device_step, CrossDeviceStep, journal_message, resolve_collision, undo_record, CompletedOp, EngineError, OperationEngine, OperationKind,
    OperationStatus,
};

fn taken_in(existing: &'static [&'static str]) -> impl Fn(&str) -> bool {
    move |p: &str| existing.contains(&p)
}

#[test]
fn collision_uses_explorer_suffixes() {
    let taken = taken_in(&["/d/a.jpg", "/d/a (2).jpg"]);
    let resolved = resolve_collision("/d/a.jpg", CollisionPolicy::Rename, &taken).unwrap();
    assert_eq!(resolved, "/d/a (3).jpg");
}

#[test]
fn a_free_path_is_used_as_is() {
    let taken = taken_in(&[]);
    for policy in [CollisionPolicy::Rename, CollisionPolicy::Skip, CollisionPolicy::Overwrite] {
        assert_eq!(resolve_collision("/d/a.jpg", policy, &taken).unwrap(), "/d/a.jpg");
    }
}

#[test]
fn skip_refuses_and_overwrite_keeps_a_taken_path() {
    let taken = taken_in(&["/d/a.jpg"]);
    assert_eq!(
        resolve_collision("/d/a.jpg", CollisionPolicy::Skip, &taken),
        Err(EngineError::DestinationExists)
    );
    assert_eq!(resolve_collision("/d/a.jpg", CollisionPolicy::Overwrite, &taken).unwrap(), "/d/a.jpg");
}

#[test]
fn rename_numbers_names_without_extension() {
    let taken = taken_in(&["/d/notes"]);
    assert_eq!(resolve_collision("/d/notes", CollisionPolicy::Rename, &taken).unwrap(), "/d/notes (2)");
}

#[test]
fn rename_gives_up_when_every_candidate_is_taken() {
    let taken = |_: &str| true;
    assert_eq!(resolve_collision("/d/a.jpg", CollisionPolicy::Rename, &taken), Err(EngineError::NoRenameCandidate));
}

#[test]
fn plan_puts_the_file_name_in_the_destination() {
    let taken = taken_in(&[]);
    let p = OperationEngine::plan("/in/photo.png", "/out/keep", CollisionPolicy::Rename, &taken).unwrap();
    assert_eq!(p, "/out/keep/photo.png");
}

#[test]
fn plan_refuses_a_source_without_file_name() {
    let taken = taken_in(&[]);
    assert_eq!(OperationEngine::plan("/", "/out", CollisionPolicy::Rename, &taken), Err(EngineError::NoFileName));
}

#[test]
fn undo_is_last_in_first_out() {
    let mut engine = OperationEngine::new("/out/.comfysort/journal.jsonl".to_owned());
    assert!(!engine.can_undo());
    let free = taken_in(&[]);
    assert_eq!(engine.undo_last(&free).unwrap_err(), EngineError::NothingToUndo);
    engine.record_completed(OperationKind::Move, "/in/a.jpg", "/out/keep/a.jpg");
    engine.record_completed(OperationKind::Copy, "/in/b.jpg", "/out/keep/b.jpg");
    assert!(engine.can_undo());
    let last = engine.undo_last(&free).unwrap();
    assert_eq!(last.kind, OperationKind::Copy);
    assert_eq!(last.source_path, "/in/b.jpg");
    let first = engine.undo_last(&free).unwrap();
    assert_eq!(first.kind, OperationKind::Move);
    assert_eq!(first.resolved_path, "/out/keep/a.jpg");
    assert!(!engine.can_undo());
}

#[test]
fn undoing_a_move_is_refused_when_the_original_path_is_taken() {
    let mut engine = OperationEngine::new("/j".to_owned());
    engine.record_completed(OperationKind::Move, "/in/a.jpg", "/out/a.jpg");
    let taken = taken_in(&["/in/a.jpg"]);
    assert_eq!(engine.undo_last(&taken).unwrap_err(), EngineError::SourceExists);
    // The operation left the stack either way.
    assert!(!engine.can_undo());
}

#[test]
fn undoing_a_folder_delete_is_refused_when_the_folder_is_back() {
    let mut engine = OperationEngine::new("/j".to_owned());
    engine.record_completed(OperationKind::DeleteFolder, "/out/group", "/out/.comfysort/.trash/group");
    let taken = taken_in(&["/out/group"]);
    assert_eq!(engine.undo_last(&taken).unwrap_err(), EngineError::FolderExists);
}

#[test]
fn revert_specific_takes_the_matching_operation_out_of_the_middle() {
    let mut engine = OperationEngine::new("/j".to_owned());
    let free = taken_in(&[]);
    engine.record_completed(OperationKind::Move, "/in/a.jpg", "/out/a.jpg");
    engine.record_completed(OperationKind::Copy, "/in/b.jpg", "/out/b.jpg");
    engine.record_completed(OperationKind::Move, "/in/c.jpg", "/out/c.jpg");
    assert_eq!(engine.revert_specific("/in/x.jpg", "/out/x.jpg", &free).unwrap_err(), EngineError::NotFound);
    let op = engine.revert_specific("/in/b.jpg", "/out/b.jpg", &free).unwrap();
    assert_eq!(op.kind, OperationKind::Copy);
    assert_eq!(engine.undo_last(&free).unwrap().source_path, "/in/c.jpg");
    assert_eq!(engine.undo_last(&free).unwrap().source_path, "/in/a.jpg");
}

#[test]
fn journal_messages_name_kind_and_status() {
    assert_eq!(journal_message(OperationKind::Move, OperationStatus::Intent), "Move Intent");
    assert_eq!(journal_message(OperationKind::UndoDeleteFolder, OperationStatus::Succeeded), "UndoDeleteFolder Succeeded");
}

#[test]
fn undo_records_reverse_the_paths() {
    let op = CompletedOp { kind: OperationKind::Move, source_path: "/in/a".into(), resolved_path: "/out/a".into() };
    assert_eq!(undo_record(&op), Some((OperationKind::UndoMove, "/out/a".to_owned(), "/in/a".to_owned())));
    let op = CompletedOp { kind: OperationKind::Copy, source_path: "/in/a".into(), resolved_path: "/out/a".into() };
    assert_eq!(undo_record(&op), Some((OperationKind::UndoCopy, "/out/a".to_owned(), "/out/a".to_owned())));
    let op = CompletedOp { kind: OperationKind::UndoMove, source_path: "/in/a".into(), resolved_path: "/out/a".into() };
    assert_eq!(undo_record(&op), None);
}

#[test]
fn a_cross_volume_move_removes_the_source_only_after_a_full_copy() {
    assert_eq!(cross_device_step(10, Some(10)), CrossDeviceStep::RemoveSource);
    assert_eq!(cross_device_step(7, Some(10)), CrossDeviceStep::RemoveCopyAndFail);
    assert_eq!(cross_device_step(12, Some(10)), CrossDeviceStep::RemoveCopyAndFail);
    assert_eq!(cross_device_step(7, None), CrossDeviceStep::RemoveSource);
}
