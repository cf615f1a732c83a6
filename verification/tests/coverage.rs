use yarra_editor::definitions::{DefinitionWorkingSet, LibraryChecks};
use yarra_editor::commands::EditorCommand;
use yarra_editor::history::EditorHistory;
use yarra_editor::objects::EditorObjectWorkingSet;
use yarra_editor::coverage::{
    CoverageDefinition, CoverageWorkingSet, DenseSaveOutcome, DirtyDenseSnapshot,
};
use yarra_editor::layers::LayerId;
use yarra_editor::project_store::ProjectEditorStore;
use yarra_editor::stamps::{CoverageTile, EnvironmentCellRecord};
use yarra_editor::world::{CellCoord, WorldSpaceId};

fn layer() -> LayerId {
    LayerId(u128::from_be_bytes([1; 16]))
}

fn record(x: i32, value: u8) -> EnvironmentCellRecord {
    EnvironmentCellRecord {
        space: WorldSpaceId(1),
        cell: CellCoord { x, z: 0 },
        source_revision: 1,
        definition_revision: 1,
        tiles: vec![CoverageTile { layer: layer(), samples: vec![value; 9] }],
    }
}

fn queue(dense: &mut CoverageWorkingSet) -> u64 {
    let mut project = ProjectEditorStore::new();
    dense.queue_save(&mut project, false, false).unwrap();
    // The first request of a fresh store.
    1
}

#[test]
fn environment_undo_redo_rebases_on_saved_revision_and_retains_runtime_delta() {
    let before = record(0, 60);
    let mut after = record(0, 180);
    let mut dense = CoverageWorkingSet::from_environment_records(std::slice::from_ref(&before));
    let mut history: EditorHistory<EditorCommand> = EditorHistory::new();
    let mut objects = EditorObjectWorkingSet::new();
    dense.apply_environment_records(std::slice::from_ref(&after), &[]).unwrap();
    assert!(history.record_environment_stroke(vec![before.clone()], vec![after.clone()]));
    let request = queue(&mut dense);
    after.source_revision = 2;
    dense.finish_save(request, DenseSaveOutcome::Committed(vec![after.clone()]));
    assert_eq!(dense.dirty_count(), 0);
    assert_eq!(dense.runtime_divergent_records().len(), 1);
    assert!(history.undo(&mut objects, &mut dense, &mut DefinitionWorkingSet::new(), &[], &passing(), false));
    let undone = dense.environment_record(before.space, before.cell).unwrap();
    assert_eq!(undone.tiles, before.tiles);
    assert_eq!(undone.source_revision, 2);
    assert_eq!(dense.dirty_count(), 1);
    assert!(dense.runtime_divergent_records().is_empty());
    assert_eq!(dense.preview_records().len(), 1);
    assert!(history.redo(&mut objects, &mut dense, &mut DefinitionWorkingSet::new(), &[], &passing(), false));
    assert_eq!(dense.environment_record(before.space, before.cell), Some(&after));
    assert_eq!(dense.dirty_count(), 0);
    assert_eq!(dense.runtime_divergent_records().len(), 1);
    dense.adopt_runtime_generation();
    assert!(dense.runtime_divergent_records().is_empty());
    assert!(history.undo(&mut objects, &mut dense, &mut DefinitionWorkingSet::new(), &[], &passing(), false));
    assert_eq!(dense.runtime_divergent_records().len(), 1);
    assert_eq!(history.environment_cells(), vec![(before.space, before.cell)]);
    assert!(!history.record_environment_stroke(vec![before.clone()], vec![before.clone()]));
}

#[test]
fn rejected_large_gesture_does_not_apply_any_cells() {
    let records = (0..65).map(|x| record(x, 60)).collect::<Vec<_>>();
    let mut dense = CoverageWorkingSet::from_environment_records(&records);
    let changed = (0..65).map(|x| record(x, 180)).collect::<Vec<_>>();
    assert!(dense.apply_environment_records(&changed, &[]).is_err());
    assert_eq!(dense.dirty_count(), 0);
    for r in &records {
        assert_eq!(dense.environment_record(r.space, r.cell), Some(r));
    }
    dense.apply_environment_records(&changed[..64], &[]).unwrap();
    assert_eq!(dense.dirty_count(), 64);
}

#[test]
fn absent_empty_cell_is_clean_and_cancel_restores_it() {
    let mut before = record(0, 0);
    before.source_revision = 0;
    before.tiles.clear();
    let mut dense = CoverageWorkingSet::from_environment_records(std::slice::from_ref(&before));
    assert_eq!(dense.dirty_count(), 0);
    dense.apply_environment_records(&[record(0, 120)], &[]).unwrap();
    assert_eq!(dense.dirty_count(), 1);
    dense.apply_environment_records(&[before], &[]).unwrap();
    assert_eq!(dense.dirty_count(), 0);
    assert!(dense.runtime_divergent_records().is_empty());
}

#[test]
fn coverage_commands_are_checked_before_anything_applies() {
    let mut dense = CoverageWorkingSet::from_environment_records(&[record(0, 1), record(1, 1)]);
    let revision = dense.edit_revision();
    assert_eq!(
        dense.apply_environment_records(&[record(0, 2), record(5, 2)], &[]),
        Err("Wait for this area to load before editing".to_string())
    );
    assert_eq!(
        dense.apply_environment_records(&[record(0, 2), record(0, 3)], &[]),
        Err("Duplicate cell in coverage command".to_string())
    );
    let definition = CoverageDefinition {
        space: WorldSpaceId(1),
        layers: vec![layer()],
        mask_resolution: 4,
        revision: 1,
    };
    assert_eq!(
        dense.apply_environment_records(&[record(0, 2)], std::slice::from_ref(&definition)),
        Err("Coverage command does not match the current layers".to_string())
    );
    let moved = CoverageDefinition { mask_resolution: 3, revision: 2, ..definition.clone() };
    assert_eq!(
        dense.apply_environment_records(&[record(0, 2)], &[moved]),
        Err("Resolve the pending save or changed layer definition first".to_string())
    );
    assert_eq!(dense.edit_revision(), revision);
    assert_eq!(dense.dirty_count(), 0);
    let fitting = CoverageDefinition { mask_resolution: 3, ..definition };
    dense.apply_environment_records(&[record(1, 9)], &[fitting]).unwrap();
    assert_eq!(dense.dirty_count(), 1);
    assert_eq!(dense.edit_revision(), 1);
    // Writing the same coverage again changes nothing.
    dense.apply_environment_records(&[record(1, 9)], &[]).unwrap();
    assert_eq!(dense.edit_revision(), 1);
}

#[test]
fn saves_write_dirty_cells_in_cell_order_and_settle_conflicts() {
    let mut dense = CoverageWorkingSet::from_environment_records(&[record(3, 1), record(-2, 1), record(0, 1)]);
    dense.apply_environment_records(&[record(3, 5), record(-2, 5)], &[]).unwrap();
    dense.set_gesture_active(true);
    let mut project = ProjectEditorStore::new();
    assert!(dense.queue_save(&mut project, false, false).is_none());
    dense.set_gesture_active(false);
    assert!(dense.queue_save(&mut project, true, false).is_none());
    let writes = dense.queue_save(&mut project, false, false).unwrap();
    let cells: Vec<i32> = writes.iter().map(|w| w.record.cell.x).collect();
    assert_eq!(cells, vec![-2, 3]);
    assert!(writes.iter().all(|w| w.expected_source_revision == Some(1)));
    assert!(dense.saving());
    assert_eq!(dense.status(), Some("saving dense transaction 1".to_string()));
    let request = 1;
    let mut actual = record(3, 7);
    actual.source_revision = 4;
    dense.finish_save(
        request,
        DenseSaveOutcome::Conflict { key: (WorldSpaceId(1), CellCoord { x: 3, z: 0 }), actual: Some(actual) },
    );
    assert!(!dense.saving());
    assert_eq!(dense.conflict_count(), 1);
    assert_eq!(dense.status(), Some("dense source conflict; local patch retained".to_string()));
    assert!(dense.can_accept_database_conflicts());
    assert!(dense.can_keep_local_conflicts());
    assert_eq!(dense.keep_local_conflicts(), 1);
    assert_eq!(dense.conflict_count(), 0);
    let kept = dense.environment_record(WorldSpaceId(1), CellCoord { x: 3, z: 0 }).unwrap();
    assert_eq!(kept.source_revision, 4);
    assert_eq!(kept.tiles[0].samples[0], 5);
    assert_eq!(dense.dirty_count(), 2);
}

#[test]
fn accepting_database_conflicts_takes_their_records() {
    let mut dense = CoverageWorkingSet::from_environment_records(&[record(0, 1)]);
    dense.apply_environment_records(&[record(0, 5)], &[]).unwrap();
    let request = queue(&mut dense);
    let mut actual = record(0, 8);
    actual.source_revision = 3;
    dense.finish_save(
        request,
        DenseSaveOutcome::Conflict { key: (WorldSpaceId(1), CellCoord { x: 0, z: 0 }), actual: Some(actual.clone()) },
    );
    assert_eq!(dense.accept_database_conflicts(), 1);
    assert_eq!(dense.environment_record(WorldSpaceId(1), CellCoord { x: 0, z: 0 }), Some(&actual));
    assert_eq!(dense.dirty_count(), 0);
    assert_eq!(dense.status(), None);
}

#[test]
fn failed_saves_report_and_recovery_snapshots_round_trip() {
    let mut dense = CoverageWorkingSet::from_environment_records(&[record(0, 1), record(1, 1)]);
    dense.apply_environment_records(&[record(1, 6)], &[]).unwrap();
    let request = queue(&mut dense);
    dense.finish_save(request, DenseSaveOutcome::Failed("disk full".into()));
    assert_eq!(dense.status(), Some("dense save failed: disk full".to_string()));
    let snapshots = dense.dirty_snapshots();
    assert_eq!(snapshots.len(), 1);
    let mut fresh = CoverageWorkingSet::new();
    for snapshot in snapshots {
        assert!(fresh.restore_dirty_snapshot(snapshot));
    }
    assert_eq!(fresh.dirty_count(), 1);
    assert_eq!(fresh.environment_record(WorldSpaceId(1), CellCoord { x: 1, z: 0 }), Some(&record(1, 6)));
    let clean = DirtyDenseSnapshot { base: Some(record(2, 1)), current: record(2, 1), runtime: None };
    assert!(!fresh.restore_dirty_snapshot(clean));
    let mut invalid = record(2, 1);
    invalid.definition_revision = 0;
    assert!(!fresh.restore_dirty_snapshot(DirtyDenseSnapshot { base: None, current: invalid, runtime: None }));
}

#[test]
fn queries_evict_only_unpinned_cells_and_load_saved_records() {
    let mut dense = CoverageWorkingSet::from_environment_records(&[record(0, 1), record(1, 1), record(2, 1)]);
    dense.apply_environment_records(&[record(0, 4)], &[]).unwrap();
    dense.reconcile(1, &[record(5, 2)], &[(WorldSpaceId(1), CellCoord { x: 2, z: 0 })], &[]);
    assert_eq!(dense.environment_record_count(), 3);
    assert!(dense.environment_record(WorldSpaceId(1), CellCoord { x: 1, z: 0 }).is_none());
    assert!(dense.environment_record(WorldSpaceId(1), CellCoord { x: 0, z: 0 }).is_some());
    assert_eq!(dense.environment_record(WorldSpaceId(1), CellCoord { x: 5, z: 0 }), Some(&record(5, 2)));
    // The same query is taken in once.
    dense.reconcile(1, &[], &[], &[]);
    assert_eq!(dense.environment_record_count(), 3);
    // A loaded record does not replace pinned local work, nor a space in definition conflict.
    dense.reconcile(2, &[record(0, 9), record(5, 9)], &[], &[WorldSpaceId(1)]);
    assert_eq!(dense.environment_record(WorldSpaceId(1), CellCoord { x: 0, z: 0 }), Some(&{
        let mut r = record(0, 4);
        r.source_revision = 1;
        r
    }));
    assert_eq!(dense.environment_record(WorldSpaceId(1), CellCoord { x: 5, z: 0 }), Some(&record(5, 2)));
    assert!(dense.retained_bytes() > 0);
    assert_eq!(dense.current_records().len(), 2);
}

fn passing() -> LibraryChecks {
    LibraryChecks { catalog: Ok(()), plans: Ok(()) }
}

#[test]
fn an_accepted_command_never_leaves_more_dirty_cells_than_one_save_writes() {
    let records = (0..66).map(|x| record(x, 60)).collect::<Vec<_>>();
    let mut dense = CoverageWorkingSet::from_environment_records(&records);
    let changed = (0..64).map(|x| record(x, 180)).collect::<Vec<_>>();
    dense.apply_environment_records(&changed, &[]).unwrap();
    assert_eq!(
        dense.apply_environment_records(&[record(64, 180)], &[]).unwrap_err(),
        "Save these changes before painting more area"
    );
    assert_eq!(dense.dirty_count(), 64);
    // Reverting one cell makes room for another.
    dense.apply_environment_records(&[record(0, 60), record(64, 180)], &[]).unwrap();
    assert_eq!(dense.dirty_count(), 64);
}
