use yarra_editor::artifacts::DerivedArtifact;
use yarra_editor::derived_inputs::{
    build_artifact, cell_requests, fingerprint_objects, fingerprint_spatial, fingerprint_terrain,
    fnv_byte, object_cells, overview_artifact, source_objects, DerivedJobInput, SourceCellRecord,
    TerrainWeightPage, FNV_OFFSET,
};
use yarra_editor::jobs::{DerivedJobKey, DerivedJobScope, DerivedProduct};
use yarra_editor::objects::{
    DirtyObjectSnapshot, ObjectTransform, SourceObjectRecord, SourceObjectViewRecord,
};
use yarra_editor::world::{CellCoord, StableObjectId, WorldSpaceId};

fn object(id: u128, x: i32) -> SourceObjectRecord {
    SourceObjectRecord {
        id: StableObjectId(id),
        definition: 7,
        transform: ObjectTransform {
            space: WorldSpaceId(1),
            owner_cell: CellCoord { x, z: 0 },
            placement: 0,
        },
        source_revision: 1,
    }
}

fn page(rgba: Vec<u8>) -> TerrainWeightPage {
    TerrainWeightPage {
        space: WorldSpaceId(1),
        cell: CellCoord { x: 0, z: 0 },
        page: 0,
        resolution: 2,
        rgba,
        source_revision: 1,
    }
}

fn snapshot(base: Option<SourceObjectRecord>, current: Option<SourceObjectRecord>) -> DirtyObjectSnapshot {
    let shown = current.or(base).unwrap();
    DirtyObjectSnapshot {
        presentation: SourceObjectViewRecord { object: shown, presentation: 0 },
        base,
        current,
    }
}

#[test]
fn terrain_executor_builds_a_typed_bounded_artifact() {
    let artifact = build_artifact(
        DerivedProduct::TerrainPage,
        DerivedJobInput::Terrain(vec![page(vec![
            0, 64, 128, 255, 0, 64, 128, 255, 0, 64, 128, 255, 0, 64, 128, 255,
        ])]),
    )
    .unwrap();
    let DerivedArtifact::TerrainPage { page_count, texel_count, weight_total, channel_count, fingerprint } =
        artifact
    else {
        panic!("terrain work should publish a terrain artifact");
    };
    let average_weight = weight_total as f32 / channel_count as f32 / 255.0;
    assert_eq!(page_count, 1);
    assert_eq!(texel_count, 4);
    assert!(average_weight > 0.4 && average_weight < 0.5);
    assert_ne!(fingerprint, 0);
}

#[test]
fn fnv_step_matches_the_reference_value() {
    // FNV-1a of the single byte 'a'.
    assert_eq!(fnv_byte(FNV_OFFSET, b'a'), 0xaf63dc4c8601ec8c);
    assert_eq!(fingerprint_objects(&[]), FNV_OFFSET);
    assert_eq!(fingerprint_terrain(&[]), FNV_OFFSET);
}

#[test]
fn fingerprints_depend_on_record_order_and_content() {
    let a = object(1, 0);
    let b = object(2, 0);
    assert_ne!(fingerprint_objects(&[a, b]), fingerprint_objects(&[b, a]));
    let mut moved = b;
    moved.source_revision = 2;
    assert_ne!(fingerprint_objects(&[a, b]), fingerprint_objects(&[a, moved]));
    let cell = SourceCellRecord {
        space: WorldSpaceId(1),
        cell: CellCoord { x: 0, z: 0 },
        height_bits: 1.5f32.to_bits(),
        source_revision: 3,
    };
    assert_ne!(fingerprint_spatial(&[cell], &[a]), fingerprint_spatial(&[], &[a]));
    assert_eq!(fingerprint_spatial(&[], &[a]), fingerprint_objects(&[a]));
}

#[test]
fn mismatched_input_is_refused_with_the_product_name() {
    let result = build_artifact(DerivedProduct::Collision, DerivedJobInput::Objects(vec![]));
    assert_eq!(result, Err("derived input does not match Collision".to_string()));
    let result = build_artifact(
        DerivedProduct::Overview,
        DerivedJobInput::OverviewQuery {
            space: WorldSpaceId(1),
            minimum: CellCoord { x: 0, z: 0 },
            maximum: CellCoord { x: 1, z: 1 },
        },
    );
    assert_eq!(result, Err("derived input does not match Overview".to_string()));
}

#[test]
fn spatial_products_count_cells_and_objects() {
    let input = || DerivedJobInput::Spatial { cells: vec![], objects: vec![object(1, 0), object(2, 0)] };
    let expected = fingerprint_objects(&[object(1, 0), object(2, 0)]);
    assert_eq!(
        build_artifact(DerivedProduct::Collision, input()),
        Ok(DerivedArtifact::Collision { cell_count: 0, object_count: 2, fingerprint: expected })
    );
    assert_eq!(
        build_artifact(DerivedProduct::Navigation, input()),
        Ok(DerivedArtifact::Navigation { cell_count: 0, obstacle_count: 2, fingerprint: expected })
    );
    assert_eq!(
        build_artifact(DerivedProduct::CookedObjectPage, DerivedJobInput::Objects(vec![object(1, 0)])),
        Ok(DerivedArtifact::CookedObjectPage {
            object_count: 1,
            fingerprint: fingerprint_objects(&[object(1, 0)]),
        })
    );
}

#[test]
fn overview_bundle_lists_cells_and_icons_and_fails_when_cut_off() {
    let cell = SourceCellRecord {
        space: WorldSpaceId(1),
        cell: CellCoord { x: 2, z: 3 },
        height_bits: 7,
        source_revision: 9,
    };
    let artifact = overview_artifact(&[cell], false, &[object(4, 2)], false, &[], false).unwrap();
    let DerivedArtifact::Overview { coarse_heights, object_icons, cell_status, fingerprint } = artifact
    else {
        panic!("overview work should publish the complete coarse product bundle");
    };
    assert_eq!(coarse_heights, vec![(CellCoord { x: 2, z: 3 }, 7)]);
    assert_eq!(cell_status, vec![(CellCoord { x: 2, z: 3 }, 9)]);
    assert_eq!(object_icons, vec![(StableObjectId(4), CellCoord { x: 2, z: 0 })]);
    assert_ne!(fingerprint, 0);
    assert_eq!(
        overview_artifact(&[cell], false, &[], true, &[], false),
        Err("overview tile exceeded its bounded source artifact capacity".to_string())
    );
}

#[test]
fn job_objects_lay_dirty_edits_over_saved_objects_in_id_order() {
    let scope = DerivedJobScope::Cell { space: WorldSpaceId(1), cell: CellCoord { x: 0, z: 0 } };
    let saved = [object(5, 0), object(3, 0), object(9, 1), object(7, 0)];
    let mut edited = object(3, 0);
    edited.transform.placement = 44;
    let dirty = [
        snapshot(Some(object(3, 0)), Some(edited)),
        snapshot(Some(object(5, 0)), Some(object(5, 1))),
        snapshot(None, Some(object(1, 0))),
        snapshot(Some(object(7, 0)), None),
    ];
    let records = source_objects(&saved, &dirty, scope);
    assert_eq!(records, vec![object(1, 0), edited]);
}

#[test]
fn object_edits_request_every_product_of_the_cells_they_touch() {
    let dirty = [snapshot(Some(object(3, 0)), Some(object(3, 1))), snapshot(None, Some(object(4, 1)))];
    let mut cells = object_cells(&dirty);
    cells.sort_by_key(|(_, c)| c.x);
    cells.dedup();
    assert_eq!(
        cells,
        vec![(WorldSpaceId(1), CellCoord { x: 0, z: 0 }), (WorldSpaceId(1), CellCoord { x: 1, z: 0 })]
    );
    let products = [DerivedProduct::CookedObjectPage, DerivedProduct::Collision];
    let requests = cell_requests(&object_cells(&dirty), &products, 6);
    assert_eq!(requests.len(), 4);
    assert!(requests.iter().all(|(_, revision)| *revision == 6));
    let key = DerivedJobKey {
        product: DerivedProduct::Collision,
        scope: DerivedJobScope::Cell { space: WorldSpaceId(1), cell: CellCoord { x: 1, z: 0 } },
    };
    assert!(requests.iter().any(|(k, _)| *k == key));
}
