use yarra_editor::coverage::CoverageWorkingSet;
use yarra_editor::definitions::{EnvironmentDefinition, EnvironmentLayer, LibraryChecks};
use yarra_editor::dense_domains::{DenseDomainOutcome, DenseDomainWorkingSets, RoadDomain};
use yarra_editor::layers::LayerId;
use yarra_editor::presets::{Preset, PresetId, PresetLibrary};
use yarra_editor::project_store::ProjectEditorStore;
use yarra_editor::stamps::{CoverageTile, EnvironmentCellRecord};
use yarra_editor::world::{CellCoord, WorldSpaceId};

fn roads() -> RoadDomain {
    RoadDomain { dirty: 0, saving: false, conflict: false, error: None, has_writes: false }
}

fn passing() -> LibraryChecks {
    LibraryChecks { catalog: Ok(()), plans: Ok(()) }
}

fn library() -> PresetLibrary {
    PresetLibrary {
        revision: 1,
        presets: vec![Preset { id: PresetId(1), revision: 1, name: "Meadow".to_string(), kind: vec![1, 2] }],
    }
}

fn definition() -> EnvironmentDefinition {
    EnvironmentDefinition {
        space: WorldSpaceId(1),
        revision: 4,
        cell_size: 64,
        mask_resolution: 3,
        surfaces: vec![11],
        layers: vec![EnvironmentLayer { id: LayerId(5), revision: 1, name: "Meadow".to_string(), settings: vec![1] }],
    }
}

fn cell(value: u8) -> EnvironmentCellRecord {
    EnvironmentCellRecord {
        space: WorldSpaceId(1),
        cell: CellCoord { x: 0, z: 0 },
        source_revision: 1,
        definition_revision: 4,
        tiles: vec![CoverageTile { layer: LayerId(5), samples: vec![value; 9] }],
    }
}

fn edited_sets() -> DenseDomainWorkingSets {
    let mut sets = DenseDomainWorkingSets::new();
    sets.coverage = CoverageWorkingSet::from_environment_records(&[cell(9)]);
    sets.reconcile(0, &[], &[], &[definition()], Some(&library()), true);
    let mut edited = definition();
    edited.layers[0].name = "Local meadow".to_string();
    sets.definitions.apply_environment(&edited, &library(), &passing(), false, &mut sets.coverage).unwrap();
    let shapes = sets.definitions.coverage_definitions();
    sets.coverage.apply_environment_records(&[cell(200)], &shapes).unwrap();
    sets
}

#[test]
fn one_transaction_carries_every_domain_and_settles_them_together() {
    let mut sets = edited_sets();
    assert_eq!(sets.dirty_count(&roads()), 2);
    let mut project = ProjectEditorStore::new();
    let transaction = sets.queue_save(&mut project, &roads()).unwrap();
    assert_eq!(transaction.request_id, 1);
    assert_eq!(transaction.preset_base_revision, 1);
    assert!(transaction.presets.is_none());
    assert_eq!(transaction.definitions.len(), 1);
    assert_eq!(transaction.definitions[0].expected_revision, 4);
    assert_eq!(transaction.coverage.len(), 1);
    assert!(sets.saving(&roads()));
    assert!(sets.queue_save(&mut project, &roads()).is_none());
    let mut committed_definition = transaction.definitions[0].definition.duplicate();
    committed_definition.revision = 5;
    let mut committed_cell = cell(200);
    committed_cell.source_revision = 2;
    committed_cell.definition_revision = 5;
    sets.finish_save(
        1,
        DenseDomainOutcome::Committed {
            coverage: vec![committed_cell.clone()],
            definitions: vec![committed_definition],
            presets: None,
        },
    );
    assert!(!sets.saving(&roads()));
    assert_eq!(sets.dirty_count(&roads()), 0);
    let saved = sets.coverage.environment_record(WorldSpaceId(1), CellCoord { x: 0, z: 0 }).unwrap();
    assert_eq!(saved, &committed_cell);
    assert_eq!(sets.definitions.definition(WorldSpaceId(1)).unwrap().revision, 5);
}

#[test]
fn a_failed_transaction_keeps_every_edit_and_reports() {
    let mut sets = edited_sets();
    let mut project = ProjectEditorStore::new();
    let transaction = sets.queue_save(&mut project, &roads()).unwrap();
    sets.finish_save(transaction.request_id, DenseDomainOutcome::Failed("disk full".to_string()));
    assert_eq!(sets.dirty_count(&roads()), 2);
    assert!(!sets.saving(&roads()));
    assert_eq!(sets.status(&roads()).unwrap(), "Environment save failed: disk full");
    let failing_roads = RoadDomain { error: Some("road save failed".to_string()), ..roads() };
    assert_eq!(sets.status(&failing_roads).unwrap(), "road save failed");
}

#[test]
fn another_domain_in_conflict_blocks_the_transaction() {
    let mut sets = edited_sets();
    let mut project = ProjectEditorStore::new();
    let blocked = RoadDomain { conflict: true, ..roads() };
    assert!(sets.has_any_conflict(&blocked));
    assert_eq!(sets.conflict_count(&blocked), 1);
    assert!(sets.queue_save(&mut project, &blocked).is_none());
    assert_eq!(sets.dirty_count(&blocked), 2);
    assert!(!sets.saving(&roads()));
}

#[test]
fn a_definition_conflict_holds_back_reloads_until_kept() {
    let mut sets = edited_sets();
    let mut project = ProjectEditorStore::new();
    let transaction = sets.queue_save(&mut project, &roads()).unwrap();
    let mut actual = definition();
    actual.revision = 9;
    sets.finish_save(
        transaction.request_id,
        DenseDomainOutcome::DefinitionConflict { space: WorldSpaceId(1), actual: Some(actual) },
    );
    assert!(sets.has_any_conflict(&roads()));
    assert!(!sets.saving(&roads()));
    // A reload of the space's cells is held back while its definition is in conflict.
    let mut newer = cell(40);
    newer.source_revision = 3;
    sets.reconcile(1, &[newer], &[], &[], None, true);
    let held = sets.coverage.environment_record(WorldSpaceId(1), CellCoord { x: 0, z: 0 }).unwrap();
    assert_eq!(held.tiles[0].samples, vec![200; 9]);
    assert!(sets.can_keep_local_conflicts(&passing()));
    assert_eq!(sets.keep_local_conflicts(&passing()), 1);
    assert!(!sets.has_any_conflict(&roads()));
    let kept = sets.definitions.definition(WorldSpaceId(1)).unwrap();
    assert_eq!(kept.revision, 9);
    assert_eq!(kept.layers[0].name, "Local meadow");
    let retargeted = sets.coverage.environment_record(WorldSpaceId(1), CellCoord { x: 0, z: 0 }).unwrap();
    assert_eq!(retargeted.definition_revision, 9);
}
