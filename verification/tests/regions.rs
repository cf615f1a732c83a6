use yarra_editor::history::EditorHistory;
use yarra_editor::regions::{
    DirtyRegionSnapshot, GroundCoverRegionId, GroundCoverRegionWorkingSet, GroundCoverRegionWrite,
    GroundCoverRegionWriteCommit, RegionSaveOutcome, SourceGroundCoverRegionRecord,
};
use yarra_editor::world::WorldSpaceId;

fn region(id: u8) -> SourceGroundCoverRegionRecord {
    SourceGroundCoverRegionRecord {
        id: GroundCoverRegionId(u128::from_be_bytes([id; 16])),
        layer: u128::from_be_bytes([2; 16]),
        space: WorldSpaceId(1),
        enabled: true,
        content: u64::from(id),
        fields_valid: true,
        source_revision: 0,
    }
}

fn queue(working: &mut GroundCoverRegionWorkingSet, request: u64) -> Vec<GroundCoverRegionWrite> {
    let mut sent = Vec::new();
    assert!(working.queue_save(64, |writes| {
        sent = writes;
        Some(request)
    }));
    sent
}

#[test]
fn unsaved_region_create_and_delete_are_reversible_working_states() {
    let mut working = GroundCoverRegionWorkingSet::new();
    let record = region(7);
    assert!(working.create(record));
    assert_eq!(working.dirty_count(), 1);
    assert_eq!(working.delete(record.id), Some(record));
    assert_eq!(working.dirty_count(), 0);
    assert!(working.restore(record));
    assert_eq!(working.dirty_count(), 1);
}

#[test]
fn dirty_region_snapshot_restores_a_sparse_creation() {
    let record = region(9);
    let mut working = GroundCoverRegionWorkingSet::new();
    assert!(working.restore_dirty_snapshot(DirtyRegionSnapshot { base: None, current: Some(record) }));
    assert_eq!(working.dirty_snapshots().len(), 1);
    assert_eq!(working.current(&[], record.id), Some(record));
}

#[test]
fn replaying_region_values_uses_the_latest_revision() {
    let before = region(4);
    let saved = SourceGroundCoverRegionRecord { content: 40, source_revision: 3, ..before };
    let mut working = GroundCoverRegionWorkingSet::new();
    working.pin_source(saved);
    assert!(working.replace(before));
    let current = working.current(&[], before.id).unwrap();
    assert_eq!(current.content, before.content);
    assert_eq!(current.source_revision, 3);
}

#[test]
fn saving_a_region_edit_keeps_preview_diverged_until_publication_adoption() {
    let record = region(6);
    let mut working = GroundCoverRegionWorkingSet::new();
    assert!(working.create(record));
    assert_eq!(queue(&mut working, 12), vec![GroundCoverRegionWrite::Create { record }]);
    let committed = SourceGroundCoverRegionRecord { source_revision: 1, ..record };
    assert!(!working.finish_save(12, RegionSaveOutcome::Committed(vec![GroundCoverRegionWriteCommit::Created(committed)])));
    assert_eq!(working.dirty_count(), 0);
    assert!(working.runtime_diverged());
    assert!(working.adopt_runtime_generation());
    assert!(!working.runtime_diverged());
}

#[test]
fn a_blocked_deletion_comes_back_and_clears_the_history() {
    let record = region(5);
    let mut working = GroundCoverRegionWorkingSet::new();
    working.reconcile(1, &[record]);
    assert_eq!(working.delete(record.id), Some(record));
    assert_eq!(
        queue(&mut working, 3),
        vec![GroundCoverRegionWrite::DeleteEmpty { region: record.id, expected_source_revision: 0 }]
    );
    assert_eq!(working.status().unwrap(), "saving region transaction 3");
    let mut history: EditorHistory<u8> = EditorHistory::new();
    history.record(1, 1);
    working.finish_save_with_history(3, RegionSaveOutcome::BlockedByCoverage { region: record.id }, &mut history);
    assert_eq!(history.undo_len(), 0);
    assert_eq!(working.current(&[], record.id), Some(record));
    assert_eq!(working.status().unwrap(), "region deletion was blocked because coverage still exists");
    assert!(working.dismiss_status());
    assert!(working.status().is_none());
}

#[test]
fn region_conflicts_resolve_either_way() {
    let record = region(8);
    let mut working = GroundCoverRegionWorkingSet::new();
    working.reconcile(1, &[record]);
    assert!(working.replace(SourceGroundCoverRegionRecord { content: 99, ..record }));
    assert!(!working.replace(SourceGroundCoverRegionRecord { layer: 1, ..record }));
    queue(&mut working, 4);
    let actual = SourceGroundCoverRegionRecord { source_revision: 2, content: 50, ..record };
    working.finish_save(4, RegionSaveOutcome::Conflict { region: record.id, actual: Some(actual) });
    assert!(working.has_any_conflict());
    assert!(working.can_keep_local_conflicts());
    assert_eq!(working.status().unwrap(), "region changed in the database; local command retained");
    assert_eq!(working.keep_local_conflicts(), 1);
    let current = working.current(&[], record.id).unwrap();
    assert_eq!((current.content, current.source_revision), (99, 2));
    assert_eq!(working.conflict_count(), 0);
    assert_eq!(working.accept_database_conflicts(), 0);
}
