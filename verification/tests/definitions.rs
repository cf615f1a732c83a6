use yarra_editor::commands::EditorCommand;
use yarra_editor::coverage::CoverageWorkingSet;
use yarra_editor::definitions::{
    normalize_revisions, DefinitionSaveOutcome, DefinitionWorkingSet, DirtyDefinitionSnapshot,
    DirtyPresetSnapshot, EnvironmentDefinition, EnvironmentLayer, LibraryChecks,
};
use yarra_editor::history::EditorHistory;
use yarra_editor::layers::LayerId;
use yarra_editor::objects::EditorObjectWorkingSet;
use yarra_editor::presets::{merge_preset_changes, normalize, Preset, PresetId, PresetLibrary};
use yarra_editor::stamps::{CoverageTile, EnvironmentCellRecord};
use yarra_editor::world::{CellCoord, WorldSpaceId};

const DRY_FOLIAGE: PresetId = PresetId(1);
const GREEN_FOLIAGE: PresetId = PresetId(2);
const MEADOW: PresetId = PresetId(3);

fn preset(id: PresetId, name: &str, kind: u8) -> Preset {
    Preset { id, revision: 1, name: name.to_string(), kind: vec![kind; 4] }
}

fn meadow_library() -> PresetLibrary {
    PresetLibrary {
        revision: 1,
        presets: vec![
            preset(DRY_FOLIAGE, "Dry grass", 1),
            preset(GREEN_FOLIAGE, "Green grass", 2),
            preset(MEADOW, "Meadow", 3),
        ],
    }
}

fn passing() -> LibraryChecks {
    LibraryChecks { catalog: Ok(()), plans: Ok(()) }
}

fn working() -> (DefinitionWorkingSet, CoverageWorkingSet) {
    let mut coverage = CoverageWorkingSet::new();
    let mut dense = DefinitionWorkingSet::new();
    dense.initialize_presets(&meadow_library(), &mut coverage);
    dense.reconcile(&[], None, true, &mut coverage);
    (dense, coverage)
}

fn layer(id: u128, name: &str) -> EnvironmentLayer {
    EnvironmentLayer { id: LayerId(id), revision: 1, name: name.to_string(), settings: vec![7; 3] }
}

fn definition(space: u32) -> EnvironmentDefinition {
    EnvironmentDefinition {
        space: WorldSpaceId(space),
        revision: 4,
        cell_size: 64,
        mask_resolution: 3,
        surfaces: vec![11, 12],
        layers: vec![layer(5, "Meadow")],
    }
}

fn painted(space: u32, layer: u128) -> EnvironmentCellRecord {
    EnvironmentCellRecord {
        space: WorldSpaceId(space),
        cell: CellCoord { x: 0, z: 0 },
        source_revision: 1,
        definition_revision: 4,
        tiles: vec![CoverageTile { layer: LayerId(layer), samples: vec![9; 9] }],
    }
}

fn renamed(base: &PresetLibrary, id: PresetId, name: &str) -> PresetLibrary {
    let mut l = base.duplicate();
    for p in l.presets.iter_mut() {
        if p.id == id {
            p.name = name.to_string();
        }
    }
    l
}

#[test]
fn keeping_local_preset_edits_preserves_unrelated_external_changes() {
    let (mut dense, mut coverage) = working();
    let local = renamed(dense.presets().unwrap(), DRY_FOLIAGE, "Local grass");
    dense.apply_presets(&local, &passing(), false, &mut coverage).unwrap();
    let mut actual = meadow_library();
    actual.revision += 1;
    for p in actual.presets.iter_mut() {
        if p.id == GREEN_FOLIAGE {
            p.name = "External grass".to_string();
            p.revision += 1;
        }
    }
    dense.finish_save(1, &DefinitionSaveOutcome::LibraryConflict { actual: actual.duplicate() }, &mut coverage);
    assert!(dense.conflict_count() > 0);
    assert_eq!(dense.resolve_preset_conflict(true, &passing(), &mut coverage), 1);
    assert_eq!(dense.preset_base_revision(), actual.revision);
    assert_eq!(dense.presets().unwrap().get(DRY_FOLIAGE).unwrap().name, "Local grass");
    assert!(dense.presets().unwrap().get(GREEN_FOLIAGE).unwrap().same_as(actual.get(GREEN_FOLIAGE).unwrap()));
    assert_eq!(dense.conflict_count(), 0);
    assert!(dense.preset_write().is_some());
}

#[test]
fn a_paint_only_library_conflict_does_not_revert_shared_defaults() {
    let (mut dense, mut coverage) = working();
    let mut actual = dense.presets().unwrap().duplicate();
    actual.revision += 1;
    actual.presets[0].name = "External default".to_string();
    actual.presets[0].revision += 1;
    dense.finish_save(1, &DefinitionSaveOutcome::LibraryConflict { actual: actual.duplicate() }, &mut coverage);
    assert_eq!(dense.resolve_preset_conflict(true, &passing(), &mut coverage), 1);
    assert!(dense.presets().unwrap().same_as(&actual));
    assert!(dense.preset_write().is_none());
}

#[test]
fn dedicated_preset_history_survives_save_and_preserves_unrelated_changes() {
    let (mut dense, mut coverage) = working();
    let original = dense.presets().unwrap().duplicate();
    let edited = renamed(&original, DRY_FOLIAGE, "Edited grass");
    let mut history: EditorHistory<EditorCommand> = EditorHistory::new();
    let mut objects = EditorObjectWorkingSet::new();
    history.edit_presets(&mut dense, &edited, &passing(), false, &mut coverage).unwrap();
    let mut saved = dense.presets().unwrap().duplicate();
    saved.revision += 1;
    for p in saved.presets.iter_mut() {
        p.revision += 1;
        if p.id == GREEN_FOLIAGE {
            p.name = "Unrelated external name".to_string();
        }
    }
    dense.mark_saving(1);
    dense.finish_save(
        1,
        &DefinitionSaveOutcome::Committed { definitions: vec![], presets: Some(saved.duplicate()) },
        &mut coverage,
    );
    assert!(history.undo(&mut objects, &mut coverage, &mut dense, &[], &passing(), false));
    assert_eq!(
        dense.presets().unwrap().get(DRY_FOLIAGE).unwrap().name,
        original.get(DRY_FOLIAGE).unwrap().name
    );
    assert!(dense.presets().unwrap().get(GREEN_FOLIAGE).unwrap().same_as(saved.get(GREEN_FOLIAGE).unwrap()));
    assert!(history.redo(&mut objects, &mut coverage, &mut dense, &[], &passing(), false));
    assert_eq!(dense.presets().unwrap().get(DRY_FOLIAGE).unwrap().name, "Edited grass");
    assert!(dense.presets().unwrap().get(GREEN_FOLIAGE).unwrap().same_as(saved.get(GREEN_FOLIAGE).unwrap()));
    assert!(merge_preset_changes(Some(&saved), &original, &edited).is_err());
}

#[test]
fn merging_an_unchanged_draft_keeps_the_library() {
    let current = renamed(&meadow_library(), MEADOW, "Adopted elsewhere");
    let draft = meadow_library();
    let merged = merge_preset_changes(Some(&current), &draft, &draft).unwrap();
    assert!(merged.same_as(&current));
    assert_eq!(
        merge_preset_changes(None, &draft, &draft).unwrap_err(),
        "Presets are still loading"
    );
}

#[test]
fn a_merge_takes_only_the_draft_changes_and_names_an_outside_change() {
    let from = meadow_library();
    let to = renamed(&from, DRY_FOLIAGE, "Draft grass");
    let current = renamed(&from, GREEN_FOLIAGE, "Adopted elsewhere");
    let merged = merge_preset_changes(Some(&current), &from, &to).unwrap();
    assert_eq!(merged.get(DRY_FOLIAGE).unwrap().name, "Draft grass");
    assert_eq!(merged.get(GREEN_FOLIAGE).unwrap().name, "Adopted elsewhere");
    assert_eq!(merged.presets.len(), 3);
    // Revisions alone are no change.
    let mut resaved = from.duplicate();
    resaved.presets[2].revision = 9;
    assert!(merge_preset_changes(Some(&current), &from, &resaved).unwrap().same_as(&current));
    let clash = renamed(&from, DRY_FOLIAGE, "Changed meanwhile");
    assert_eq!(
        merge_preset_changes(Some(&clash), &from, &to).unwrap_err(),
        "Preset 'Draft grass' changed outside this draft. Reload the draft before applying."
    );
    let mut removed = from.duplicate();
    removed.presets.remove(0);
    let merged = merge_preset_changes(Some(&from), &from, &removed).unwrap();
    assert!(merged.get(DRY_FOLIAGE).is_none());
}

#[test]
fn normalizing_takes_checkpoint_revisions_and_orders_by_identity() {
    let mut base = meadow_library();
    base.revision = 7;
    base.presets[1].revision = 5;
    let mut current = PresetLibrary {
        revision: 1,
        presets: vec![preset(PresetId(9), "New", 4), preset(GREEN_FOLIAGE, "Green grass", 2), preset(DRY_FOLIAGE, "Dry", 1)],
    };
    current.presets[1].revision = 2;
    normalize(&mut current, &base);
    assert_eq!(current.revision, 7);
    let ids = current.presets.iter().map(|p| p.id).collect::<Vec<_>>();
    assert_eq!(ids, vec![DRY_FOLIAGE, GREEN_FOLIAGE, PresetId(9)]);
    assert_eq!(current.presets[0].revision, 1);
    assert_eq!(current.presets[1].revision, 5);
    assert_eq!(current.presets[2].revision, 1);
}

#[test]
fn definitions_load_edit_save_and_retarget_painted_cells() {
    let (mut dense, mut coverage) = working();
    coverage = CoverageWorkingSet::from_environment_records(&[painted(1, 5)]);
    dense.reconcile(&[definition(2), definition(1)], None, true, &mut coverage);
    let spaces = dense.definitions().iter().map(|d| d.space).collect::<Vec<_>>();
    assert_eq!(spaces, vec![WorldSpaceId(1), WorldSpaceId(2)]);
    assert_eq!(dense.dirty_count(), 0);
    let before_revision = dense.edit_revision();
    let mut edited = definition(1);
    edited.revision = 99;
    edited.layers.push(layer(6, "Forest"));
    dense.apply_environment(&edited, &meadow_library(), &passing(), false, &mut coverage).unwrap();
    let local = dense.definition(WorldSpaceId(1)).unwrap();
    assert_eq!(local.revision, 4);
    assert_eq!(local.layers.len(), 2);
    assert_eq!(local.layers[1].revision, 1);
    assert_eq!(dense.dirty_count(), 1);
    assert_ne!(dense.edit_revision(), before_revision);
    let writes = dense.writes();
    assert_eq!(writes.len(), 1);
    assert_eq!(writes[0].expected_revision, 4);
    dense.mark_saving(3);
    assert!(dense.saving());
    let mut committed = dense.definition(WorldSpaceId(1)).unwrap().duplicate();
    committed.revision = 5;
    dense.finish_save(
        3,
        &DefinitionSaveOutcome::Committed { definitions: vec![committed.duplicate()], presets: None },
        &mut coverage,
    );
    assert!(!dense.saving());
    assert_eq!(dense.dirty_count(), 0);
    assert!(dense.definition(WorldSpaceId(1)).unwrap().same_as(&committed));
    let cell = coverage.environment_record(WorldSpaceId(1), CellCoord { x: 0, z: 0 }).unwrap();
    assert_eq!(cell.definition_revision, 5);
}

#[test]
fn definition_edits_are_refused_with_their_reason() {
    let (mut dense, mut coverage) = working();
    let unloaded = dense.apply_environment(&definition(1), &meadow_library(), &passing(), false, &mut coverage);
    assert_eq!(unloaded.unwrap_err(), "Environment is still loading");
    dense.reconcile(&[definition(1)], None, true, &mut coverage);
    let mut regrid = definition(1);
    regrid.mask_resolution = 4;
    assert_eq!(
        dense.apply_environment(&regrid, &meadow_library(), &passing(), false, &mut coverage).unwrap_err(),
        "Layer editing cannot change the world grid or terrain pack"
    );
    let mut long = definition(1);
    long.layers[0].name = "n".repeat(257);
    assert_eq!(
        dense.apply_environment(&long, &meadow_library(), &passing(), false, &mut coverage).unwrap_err(),
        "Names must fit in 256 bytes"
    );
    let refused = LibraryChecks { catalog: Ok(()), plans: Err("unknown preset".to_string()) };
    assert_eq!(
        dense.apply_environment(&definition(1), &meadow_library(), &refused, false, &mut coverage).unwrap_err(),
        "unknown preset"
    );
    assert_eq!(
        dense.apply_environment(&definition(1), &meadow_library(), &passing(), true, &mut coverage).unwrap_err(),
        "Finish the stroke or save before editing layers"
    );
    coverage.set_gesture_active(true);
    assert_eq!(
        dense.apply_presets(&meadow_library(), &passing(), false, &mut coverage).unwrap_err(),
        "Finish the stroke, save or conflict resolution before editing presets"
    );
    coverage.set_gesture_active(false);
    let revision = dense.edit_revision();
    let mut painted_space = CoverageWorkingSet::from_environment_records(&[painted(1, 5)]);
    let mut without_layer = definition(1);
    without_layer.layers[0].id = LayerId(8);
    assert_eq!(
        dense.apply_environment(&without_layer, &meadow_library(), &passing(), false, &mut painted_space).unwrap_err(),
        "Undo or erase this layer's local paint before removing the layer"
    );
    assert_eq!(dense.edit_revision(), revision);
    let mut fresh = DefinitionWorkingSet::new();
    assert_eq!(
        fresh.apply_environment(&definition(1), &meadow_library(), &passing(), false, &mut coverage).unwrap_err(),
        "Presets are still loading"
    );
}

#[test]
fn a_dirty_definition_meets_a_newer_database_version_in_conflict() {
    let (mut dense, mut coverage) = working();
    dense.reconcile(&[definition(1)], None, true, &mut coverage);
    let mut edited = definition(1);
    edited.layers[0].name = "Local meadow".to_string();
    dense.apply_environment(&edited, &meadow_library(), &passing(), false, &mut coverage).unwrap();
    let mut newer = definition(1);
    newer.revision = 6;
    dense.reconcile(&[newer.duplicate()], None, true, &mut coverage);
    assert_eq!(dense.conflict_count(), 1);
    assert_eq!(dense.definition(WorldSpaceId(1)).unwrap().layers[0].name, "Local meadow");
    assert_eq!(
        dense.status().unwrap(),
        "The layer definitions changed in the database. Resolve the conflict before continuing."
    );
    assert!(dense.can_keep_conflicts(&passing(), &coverage));
    assert!(!dense.can_accept_conflicts(&passing(), &[], &coverage));
    assert!(dense.can_accept_conflicts(&passing(), &[WorldSpaceId(1)], &coverage));
    assert_eq!(dense.resolve_conflicts(true, &passing(), &[], &mut coverage), 1);
    let local = dense.definition(WorldSpaceId(1)).unwrap();
    assert_eq!(local.layers[0].name, "Local meadow");
    assert_eq!(local.revision, 6);
    assert_eq!(dense.conflict_count(), 0);
    assert_eq!(dense.writes()[0].expected_revision, 6);
}

#[test]
fn accepting_the_database_definition_discards_the_local_edit() {
    let (mut dense, mut coverage) = working();
    dense.reconcile(&[definition(1)], None, true, &mut coverage);
    let mut edited = definition(1);
    edited.layers[0].name = "Local meadow".to_string();
    dense.apply_environment(&edited, &meadow_library(), &passing(), false, &mut coverage).unwrap();
    dense.mark_saving(2);
    let mut actual = definition(1);
    actual.revision = 8;
    dense.finish_save(
        2,
        &DefinitionSaveOutcome::DefinitionConflict { space: WorldSpaceId(1), actual: Some(actual.duplicate()) },
        &mut coverage,
    );
    assert_eq!(dense.conflict_count(), 1);
    assert_eq!(dense.resolve_conflicts(false, &passing(), &[WorldSpaceId(1)], &mut coverage), 1);
    assert!(dense.definition(WorldSpaceId(1)).unwrap().same_as(&actual));
    assert_eq!(dense.dirty_count(), 0);
}

#[test]
fn failed_saves_keep_edits_and_snapshots_restore_them() {
    let (mut dense, mut coverage) = working();
    dense.reconcile(&[definition(1)], None, true, &mut coverage);
    let mut edited = definition(1);
    edited.layers[0].name = "Local meadow".to_string();
    dense.apply_environment(&edited, &meadow_library(), &passing(), false, &mut coverage).unwrap();
    dense.mark_saving(4);
    dense.finish_save(4, &DefinitionSaveOutcome::Failed("disk full".to_string()), &mut coverage);
    assert_eq!(dense.dirty_count(), 1);
    assert_eq!(dense.status().unwrap(), "Environment save failed: disk full");
    let snapshots = dense.dirty_snapshots();
    assert_eq!(snapshots.len(), 1);
    let (mut recovered, mut recovered_coverage) = working();
    let DirtyDefinitionSnapshot { base, current } = &snapshots[0];
    let snapshot = DirtyDefinitionSnapshot { base: base.duplicate(), current: current.duplicate() };
    assert!(recovered.restore_definition_snapshot(snapshot, Ok(()), &mut recovered_coverage));
    assert_eq!(recovered.definition(WorldSpaceId(1)).unwrap().layers[0].name, "Local meadow");
    assert_eq!(recovered.dirty_count(), 1);
    let clean = DirtyDefinitionSnapshot { base: definition(1), current: definition(1) };
    assert!(!recovered.restore_definition_snapshot(clean, Ok(()), &mut recovered_coverage));
    let refused = DirtyDefinitionSnapshot { base: definition(1), current: edited.duplicate() };
    assert!(!recovered.restore_definition_snapshot(refused, Err("no plan".to_string()), &mut recovered_coverage));
    let library = DirtyPresetSnapshot { base: meadow_library(), current: renamed(&meadow_library(), MEADOW, "Edited") };
    assert!(recovered.restore_preset_snapshot(library, Ok(()), &mut recovered_coverage));
    assert_eq!(recovered.dirty_count(), 2);
    assert!(recovered.dirty_preset_snapshot().is_some());
}

#[test]
fn definition_edits_undo_and_redo_through_the_history() {
    let (mut dense, mut coverage) = working();
    dense.reconcile(&[definition(1)], None, true, &mut coverage);
    let mut history: EditorHistory<EditorCommand> = EditorHistory::new();
    let mut objects = EditorObjectWorkingSet::new();
    let mut added = definition(1);
    added.layers.push(layer(6, "Forest"));
    history.edit_definition(&mut dense, &added, &passing(), false, &mut coverage).unwrap();
    assert_eq!(dense.definition(WorldSpaceId(1)).unwrap().layers.len(), 2);
    assert!(history.undo(&mut objects, &mut coverage, &mut dense, &[], &passing(), false));
    assert_eq!(dense.definition(WorldSpaceId(1)).unwrap().layers.len(), 1);
    assert_eq!(dense.dirty_count(), 0);
    assert!(history.redo(&mut objects, &mut coverage, &mut dense, &[], &passing(), false));
    assert_eq!(dense.definition(WorldSpaceId(1)).unwrap().layers.len(), 2);
    assert_eq!(
        history.edit_definition(&mut dense, &definition(3), &passing(), false, &mut coverage).unwrap_err(),
        "Environment is still loading"
    );
}

#[test]
fn revisions_follow_the_checkpoint_when_normalized() {
    let mut base = definition(1);
    base.revision = 12;
    base.layers[0].revision = 3;
    let mut local = definition(1);
    local.layers.push(layer(6, "Forest"));
    let n = normalize_revisions(&local, &base);
    assert_eq!(n.revision, 12);
    assert_eq!(n.layers[0].revision, 3);
    assert_eq!(n.layers[1].revision, 1);
}
