use yarra_editor::definitions::{DefinitionWorkingSet, LibraryChecks};
use yarra_editor::commands::EditorCommand;
use yarra_editor::coverage::CoverageWorkingSet;
use yarra_editor::history::EditorHistory;
use yarra_editor::objects::{
    DirtyObjectSnapshot, EditorObjectWorkingSet, EditorSelection, ObjectSaveOutcome,
    ObjectTransform, SourceObjectRecord, SourceObjectViewRecord, SourceObjectWrite, SourceObjectWriteCommit,
};
use yarra_editor::project_store::ProjectEditorStore;
use yarra_editor::world::{CellCoord, StableObjectId, WorldSpaceId};

fn transform(placement: u64) -> ObjectTransform {
    ObjectTransform { space: WorldSpaceId(1), owner_cell: CellCoord { x: 0, z: 0 }, placement }
}

fn record(id: u128, revision: i64) -> SourceObjectViewRecord {
    SourceObjectViewRecord {
        object: SourceObjectRecord { id: StableObjectId(id), definition: 5, transform: transform(0), source_revision: revision },
        presentation: 9,
    }
}

fn placement(objects: &EditorObjectWorkingSet, id: u128) -> Option<u64> {
    objects.current_view(StableObjectId(id)).map(|v| v.object.transform.placement)
}

#[test]
fn moves_are_one_undo_step_and_redo_reapplies_them() {
    let mut objects = EditorObjectWorkingSet::new();
    let mut history: EditorHistory<EditorCommand> = EditorHistory::new();
    let mut dense = CoverageWorkingSet::new();
    objects.pin(record(1, 3));
    objects.pin(record(2, 3));
    assert!(history.apply_transforms(&mut objects, &[(StableObjectId(1), transform(7)), (StableObjectId(2), transform(8))]));
    assert_eq!((placement(&objects, 1), placement(&objects, 2)), (Some(7), Some(8)));
    assert_eq!(objects.dirty_count(), 2);
    assert_eq!(history.undo_len(), 1);
    assert!(history.undo(&mut objects, &mut dense, &mut DefinitionWorkingSet::new(), &[], &passing(), false));
    assert_eq!((placement(&objects, 1), placement(&objects, 2)), (Some(0), Some(0)));
    assert_eq!(objects.dirty_count(), 0);
    assert!(history.redo(&mut objects, &mut dense, &mut DefinitionWorkingSet::new(), &[], &passing(), false));
    assert_eq!(placement(&objects, 2), Some(8));
    assert!(!history.apply_transforms(&mut objects, &[(StableObjectId(1), transform(7))]));
    assert!(!history.apply_transforms(&mut objects, &[(StableObjectId(1), transform(1)), (StableObjectId(1), transform(2))]));
    assert!(!history.apply_transforms(&mut objects, &[(StableObjectId(3), transform(1))]));
}

#[test]
fn creation_and_deletion_are_undoable() {
    let mut objects = EditorObjectWorkingSet::new();
    let mut history: EditorHistory<EditorCommand> = EditorHistory::new();
    let mut dense = CoverageWorkingSet::new();
    assert!(history.create(&mut objects, record(4, 0)));
    assert!(!history.create(&mut objects, record(4, 0)));
    assert_eq!(objects.status(StableObjectId(4)), "Unsaved object command");
    assert!(history.delete_many(&mut objects, &[StableObjectId(4)]));
    assert!(objects.is_deleted(StableObjectId(4)));
    assert_eq!(objects.status(StableObjectId(4)), "Unsaved deletion command");
    assert!(history.undo(&mut objects, &mut dense, &mut DefinitionWorkingSet::new(), &[], &passing(), false));
    assert_eq!(placement(&objects, 4), Some(0));
    assert!(history.undo(&mut objects, &mut dense, &mut DefinitionWorkingSet::new(), &[], &passing(), false));
    assert!(objects.is_deleted(StableObjectId(4)));
    assert!(!history.undo(&mut objects, &mut dense, &mut DefinitionWorkingSet::new(), &[], &passing(), false));
    assert_eq!(history.redo_len(), 2);
}

#[test]
fn saving_reports_each_stage_and_blocks_edits() {
    let mut objects = EditorObjectWorkingSet::new();
    let mut project = ProjectEditorStore::new();
    objects.pin(record(1, 3));
    assert!(objects.set_transforms(&[(StableObjectId(1), transform(5))]));
    let writes = objects.queue_save(&mut project, 64).unwrap();
    assert_eq!(
        writes,
        vec![SourceObjectWrite::UpdateTransform { object: StableObjectId(1), expected_source_revision: 3, transform: transform(5) }]
    );
    assert!(objects.saving());
    assert!(!objects.can_edit(StableObjectId(1)));
    assert_eq!(objects.status(StableObjectId(1)), "Saving object transaction 1\u{2026}");
    let mut saved = record(1, 4).object;
    saved.transform = transform(5);
    objects.finish_save(1, ObjectSaveOutcome::Committed(vec![SourceObjectWriteCommit::Updated(saved)]));
    assert!(!objects.saving());
    assert_eq!(objects.status(StableObjectId(1)), "Saved source revision 4; cooked runtime data is unchanged");
    assert_eq!(objects.adopt_runtime_generation(), 1);
    assert_eq!(objects.status(StableObjectId(1)), "No local changes");
    assert_eq!(objects.status(StableObjectId(9)), "Object is not in the editor working set");
}

#[test]
fn conflicts_can_be_rebased_or_reloaded() {
    let mut objects = EditorObjectWorkingSet::new();
    let mut project = ProjectEditorStore::new();
    let mut history: EditorHistory<EditorCommand> = EditorHistory::new();
    objects.pin(record(1, 3));
    assert!(history.apply_transforms(&mut objects, &[(StableObjectId(1), transform(5))]));
    objects.queue_save(&mut project, 64).unwrap();
    let actual = SourceObjectRecord { source_revision: 6, definition: 8, ..record(1, 6).object };
    objects.finish_save(1, ObjectSaveOutcome::Conflict { object: StableObjectId(1), actual: Some(actual) });
    assert!(objects.has_conflict(StableObjectId(1)));
    assert_eq!(objects.status(StableObjectId(1)), "Conflict: database is at revision 6; local command was preserved");
    assert!(objects.queue_save(&mut project, 64).is_none());
    assert!(objects.rebase_conflict(StableObjectId(1), &mut history));
    assert_eq!(history.undo_len(), 0);
    let view = objects.current_view(StableObjectId(1)).unwrap();
    assert_eq!((view.object.transform.placement, view.object.definition), (5, 8));
    assert!(objects.dirty(StableObjectId(1)));
    assert!(objects.discard_all(&mut history));
    assert_eq!(objects.current_view(StableObjectId(1)).unwrap().object, actual);
    assert!(!objects.reload_conflict(StableObjectId(1), &mut history));
}

#[test]
fn snapshots_round_trip_and_selection_follows_toggles() {
    let mut objects = EditorObjectWorkingSet::new();
    objects.pin(record(2, 1));
    objects.pin(record(1, 1));
    assert!(objects.set_transforms(&[(StableObjectId(2), transform(3)), (StableObjectId(1), transform(4))]));
    let snapshots = objects.dirty_snapshots();
    assert_eq!(snapshots.len(), 2);
    assert_eq!(snapshots[0].presentation.object.id, StableObjectId(1));
    let mut fresh = EditorObjectWorkingSet::new();
    for snapshot in snapshots {
        assert!(fresh.restore_dirty_snapshot(snapshot));
    }
    assert_eq!(placement(&fresh, 2), Some(3));
    assert!(!fresh.restore_dirty_snapshot(DirtyObjectSnapshot { presentation: record(7, 1), base: None, current: None }));

    let mut selection = EditorSelection::new();
    assert!(selection.toggle(record(1, 1), &mut fresh));
    assert!(selection.toggle(record(2, 1), &mut fresh));
    assert_eq!(selection.selected_id(), Some(StableObjectId(2)));
    assert!(selection.toggle(record(2, 1), &mut fresh));
    assert_eq!(selection.selected_ids(), &[StableObjectId(1)]);
    assert_eq!(selection.selected_id(), Some(StableObjectId(1)));
    assert!(selection.can_edit(&fresh));
    assert!(selection.select_id(StableObjectId(2), &fresh));
    assert!(selection.contains(StableObjectId(2)) && !selection.contains(StableObjectId(1)));
    assert!(selection.clear(&fresh));
    assert_eq!(selection.selected_id(), None);
    assert_eq!(fresh.desired_proxy_views(&[]).len(), 2);
}

fn passing() -> LibraryChecks {
    LibraryChecks { catalog: Ok(()), plans: Ok(()) }
}
