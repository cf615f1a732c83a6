use yarra_editor::catalog::{
    CatalogSaveOutcome, CatalogSavePhase, CatalogSaveState, DirtyCatalogSnapshot,
    GroundCoverCatalogDependency, GroundCoverCatalogKey, GroundCoverCatalogRecord,
    GroundCoverCatalogWorkingSet, GroundCoverCatalogWrite, GroundCoverCatalogWriteCommit,
};

const MAX_WRITES: usize = 64;

fn id(byte: u8) -> u128 {
    u128::from_be_bytes([byte; 16])
}

fn preset() -> GroundCoverCatalogRecord {
    GroundCoverCatalogRecord { key: GroundCoverCatalogKey::Preset(id(1)), source_revision: 3, content: 5, fields_valid: true }
}

fn visual(byte: u8) -> GroundCoverCatalogRecord {
    GroundCoverCatalogRecord { key: GroundCoverCatalogKey::Visual(id(byte)), source_revision: 0, content: 1, fields_valid: true }
}

fn current(catalog: &GroundCoverCatalogWorkingSet, key: GroundCoverCatalogKey) -> Option<GroundCoverCatalogRecord> {
    catalog.entries().iter().find(|(k, _)| *k == key).and_then(|(_, e)| e.current)
}

fn queue(catalog: &mut GroundCoverCatalogWorkingSet, phase: CatalogSavePhase, request: u64) -> Vec<GroundCoverCatalogWrite> {
    let mut sent = Vec::new();
    assert!(catalog.queue_save_phase(phase, MAX_WRITES, |writes| {
        sent = writes;
        Some(request)
    }));
    sent
}

#[test]
fn catalog_snapshot_restores_an_existing_definition_update() {
    let base = preset();
    let current = GroundCoverCatalogRecord { content: 8, ..base };
    let mut catalog = GroundCoverCatalogWorkingSet::new();
    assert!(catalog.restore_dirty_snapshot(DirtyCatalogSnapshot { base: Some(base), current: Some(current) }));
    assert_eq!(catalog.dirty_count(), 1);
    assert_eq!(catalog.current_preset(&[], id(1)).unwrap().content, 8);
}

#[test]
fn catalog_snapshots_restore_creation_and_deletion_tombstones() {
    let created = preset();
    let mut catalog = GroundCoverCatalogWorkingSet::new();
    assert!(catalog.restore_dirty_snapshot(DirtyCatalogSnapshot { base: None, current: Some(created) }));
    assert_eq!(catalog.dirty_upsert_count(), 1);

    let deleted = GroundCoverCatalogRecord { key: GroundCoverCatalogKey::Preset(id(3)), ..created };
    assert!(catalog.restore_dirty_snapshot(DirtyCatalogSnapshot { base: Some(deleted), current: None }));
    assert_eq!(catalog.dirty_deletion_count(), 1);
    assert!(catalog.current_preset(&[deleted], id(3)).is_none());
}

#[test]
fn replaying_old_command_values_keeps_the_latest_saved_revision() {
    let before = preset();
    let after = GroundCoverCatalogRecord { content: 8, ..before };
    let key = before.key;
    let mut catalog = GroundCoverCatalogWorkingSet::new();
    assert!(catalog.restore_dirty_snapshot(DirtyCatalogSnapshot { base: Some(before), current: Some(after) }));
    queue(&mut catalog, CatalogSavePhase::Upserts, 9);
    let committed = GroundCoverCatalogRecord { content: 8, source_revision: 4, ..before };
    catalog.finish_save(9, CatalogSaveOutcome::Committed(vec![GroundCoverCatalogWriteCommit::Updated(committed)]));

    assert!(catalog.replace(before));
    let current = current(&catalog, key).unwrap();
    assert_eq!(current.source_revision, 4);
    assert_eq!(current.content, 5);
}

#[test]
fn saving_a_catalog_edit_keeps_preview_diverged_until_publication_adoption() {
    let record = preset();
    let mut catalog = GroundCoverCatalogWorkingSet::new();
    assert!(catalog.create(record));
    let writes = queue(&mut catalog, CatalogSavePhase::Upserts, 12);
    assert_eq!(writes, vec![GroundCoverCatalogWrite::Create { record }]);
    assert!(catalog.saving());
    let committed = GroundCoverCatalogRecord { source_revision: record.source_revision + 1, ..record };
    catalog.finish_save(12, CatalogSaveOutcome::Committed(vec![GroundCoverCatalogWriteCommit::Created(committed)]));
    assert_eq!(catalog.dirty_count(), 0);
    assert!(catalog.runtime_diverged());
    assert!(catalog.adopt_runtime_generation());
    assert!(!catalog.runtime_diverged());
    assert!(!catalog.adopt_runtime_generation());
}

#[test]
fn writes_go_out_visuals_first_and_deletions_presets_first() {
    let mut catalog = GroundCoverCatalogWorkingSet::new();
    assert!(catalog.create(preset()));
    assert!(catalog.create(visual(9)));
    assert!(catalog.create(visual(2)));
    let writes = queue(&mut catalog, CatalogSavePhase::Upserts, 1);
    let keys: Vec<_> = writes
        .iter()
        .map(|w| match w {
            GroundCoverCatalogWrite::Create { record } => record.key,
            _ => panic!("expected creations"),
        })
        .collect();
    assert_eq!(keys, vec![visual(2).key, visual(9).key, preset().key]);
    assert!(!catalog.queue_save_phase(CatalogSavePhase::Upserts, MAX_WRITES, |_| Some(2)));
}

#[test]
fn the_write_limit_bounds_a_transaction() {
    let mut catalog = GroundCoverCatalogWorkingSet::new();
    for byte in 1..=5 {
        assert!(catalog.create(visual(byte)));
    }
    let mut sent = Vec::new();
    assert!(catalog.queue_save_phase(CatalogSavePhase::Upserts, 2, |writes| {
        sent = writes;
        Some(3)
    }));
    assert_eq!(sent.len(), 2);
    let refused = {
        let mut other = GroundCoverCatalogWorkingSet::new();
        assert!(other.create(visual(1)));
        other.queue_save_phase(CatalogSavePhase::Upserts, 2, |_| None)
    };
    assert!(!refused);
}

#[test]
fn conflicts_block_saving_and_can_be_resolved_either_way() {
    let base = preset();
    let mut catalog = GroundCoverCatalogWorkingSet::new();
    catalog.reconcile(1, &[base]);
    assert_eq!(catalog.dirty_count(), 0);
    assert!(catalog.replace(GroundCoverCatalogRecord { content: 9, ..base }));
    queue(&mut catalog, CatalogSavePhase::Upserts, 5);
    let actual = GroundCoverCatalogRecord { source_revision: 6, content: 2, ..base };
    catalog.finish_save(5, CatalogSaveOutcome::Conflict { key: base.key, actual: Some(actual) });
    assert!(catalog.has_any_conflict());
    assert_eq!(catalog.conflict_count(), 1);
    assert!(catalog.can_keep_local_conflicts());
    assert_eq!(
        catalog.status().unwrap(),
        "ground-cover definition changed in the database; local edit retained"
    );
    assert!(!catalog.queue_save_phase(CatalogSavePhase::Upserts, MAX_WRITES, |_| Some(6)));

    let mut kept = GroundCoverCatalogWorkingSet::new();
    kept.reconcile(1, &[base]);
    assert!(kept.replace(GroundCoverCatalogRecord { content: 9, ..base }));
    queue(&mut kept, CatalogSavePhase::Upserts, 5);
    kept.finish_save(5, CatalogSaveOutcome::Conflict { key: base.key, actual: Some(actual) });
    assert_eq!(kept.keep_local_conflicts(), 1);
    let local = current(&kept, base.key).unwrap();
    assert_eq!((local.content, local.source_revision), (9, 6));

    assert_eq!(catalog.accept_database_conflicts(), 1);
    assert_eq!(current(&catalog, base.key), Some(actual));
    assert_eq!(catalog.dirty_count(), 0);
}

#[test]
fn failures_and_blocked_deletions_are_reported_and_dismissed() {
    let base = preset();
    let mut catalog = GroundCoverCatalogWorkingSet::new();
    catalog.reconcile(1, &[base]);
    assert_eq!(catalog.delete(base.key), Some(base));
    assert_eq!(catalog.delete(base.key), None);
    let writes = queue(&mut catalog, CatalogSavePhase::Deletions, 8);
    assert_eq!(writes, vec![GroundCoverCatalogWrite::Delete { key: base.key, expected_source_revision: 3 }]);
    assert_eq!(catalog.status().unwrap(), "saving ground-cover catalog transaction 8");
    catalog.finish_save(
        8,
        CatalogSaveOutcome::BlockedByDependency { key: base.key, dependency: GroundCoverCatalogDependency::PresetRegions },
    );
    assert_eq!(catalog.status().unwrap(), "preset deletion is blocked by one or more project regions");
    assert!(catalog.dismiss_failures());
    assert!(catalog.status().is_none());
    queue(&mut catalog, CatalogSavePhase::Deletions, 10);
    catalog.finish_save(10, CatalogSaveOutcome::Failed("disk full".into()));
    assert!(matches!(&catalog.entries()[0].1.save_state, CatalogSaveState::Failed(e) if e == "disk full"));
    assert_eq!(catalog.status().unwrap(), "ground-cover catalog save failed: disk full");
    assert!(catalog.restore(base));
    assert_eq!(current(&catalog, base.key), Some(base));
}

#[test]
fn invalid_records_are_refused_and_reloads_keep_pinned_edits() {
    let mut catalog = GroundCoverCatalogWorkingSet::new();
    assert!(!catalog.create(GroundCoverCatalogRecord { fields_valid: false, ..preset() }));
    assert!(!catalog.create(GroundCoverCatalogRecord { source_revision: -1, ..preset() }));
    assert!(catalog.create(visual(4)));
    assert!(!catalog.create(visual(4)));
    let saved = visual(7);
    catalog.reconcile(3, &[saved]);
    assert!(current(&catalog, visual(4).key).is_some());
    catalog.reconcile(4, &[]);
    assert!(current(&catalog, saved.key).is_none());
    assert!(current(&catalog, visual(4).key).is_some());
    assert_eq!(catalog.dirty_snapshots().len(), 1);
    assert!(!catalog.restore_dirty_snapshot(DirtyCatalogSnapshot { base: None, current: None }));
}
