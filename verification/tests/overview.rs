use yarra_editor::artifacts::DerivedArtifactStore;
use yarra_editor::overview::{
    demanded_tiles, overview_job_key, overview_mode, OverviewMode, OverviewProductKind,
    OverviewProductState, OverviewState, OverviewTileKey, MAX_OVERVIEW_PRODUCTS, MAX_OVERVIEW_TILES,
};
use yarra_editor::scheduler::DerivedJobScheduler;
use yarra_editor::world::{CellCoord, WorldSpaceId};

const ENTER: f32 = 768.0;
const EXIT: f32 = 576.0;

fn mode(current: OverviewMode, distance: f32) -> OverviewMode {
    overview_mode(current, distance >= ENTER, distance <= EXIT)
}

#[test]
fn overview_mode_uses_hysteresis() {
    assert_eq!(mode(OverviewMode::Detail, ENTER), OverviewMode::Overview);
    assert_eq!(mode(OverviewMode::Overview, 700.0), OverviewMode::Overview);
    assert_eq!(mode(OverviewMode::Overview, EXIT), OverviewMode::Detail);
}

#[test]
fn overview_tile_demand_is_bounded_and_handles_negative_cells() {
    let tiles = demanded_tiles(WorldSpaceId(4), CellCoord { x: -1, z: -17 });
    assert_eq!(tiles.len(), MAX_OVERVIEW_TILES);
    assert!(tiles.contains(&OverviewTileKey { space: WorldSpaceId(4), x: -1, z: -2 }));
}

#[test]
fn tiles_hold_their_cells_and_saturate_at_the_edges() {
    let tile = OverviewTileKey::containing(WorldSpaceId(1), CellCoord { x: -1, z: 31 });
    assert_eq!((tile.x, tile.z), (-1, 1));
    assert_eq!(tile.minimum_cell(), CellCoord { x: -16, z: 16 });
    assert_eq!(tile.maximum_cell(), CellCoord { x: -1, z: 31 });
    assert_eq!(tile.focus_cell(), CellCoord { x: -8, z: 24 });
    let edge = OverviewTileKey { space: WorldSpaceId(1), x: i32::MAX, z: i32::MIN };
    assert_eq!(edge.minimum_cell(), CellCoord { x: i32::MAX, z: i32::MIN });
    assert_eq!(edge.maximum_cell().x, i32::MAX);
    let far = demanded_tiles(WorldSpaceId(1), CellCoord { x: i32::MAX, z: 0 });
    assert_eq!(far.len(), MAX_OVERVIEW_TILES);
    assert_eq!(far[4].x, i32::MAX / 16 + 2);
}

#[test]
fn update_demands_every_kind_of_every_tile() {
    let mut state = OverviewState::new();
    state.update(OverviewMode::Overview, Some((WorldSpaceId(2), CellCoord { x: 0, z: 0 })));
    assert_eq!(state.tiles().len(), MAX_OVERVIEW_TILES);
    assert_eq!(state.products().len(), MAX_OVERVIEW_PRODUCTS);
    assert_eq!(state.products()[1].kind, OverviewProductKind::DensityMap);
    assert_eq!(state.products()[4].tile, state.tiles()[1]);
    assert!(state.products().iter().all(|p| p.state == OverviewProductState::Missing));
    state.update(OverviewMode::Detail, None);
    assert!(state.tiles().is_empty() && state.products().is_empty());
    assert_eq!(OverviewProductKind::CellStatus.label(), "status");
}

#[test]
fn requests_follow_the_mode_and_sync_marks_products() {
    let mut state = OverviewState::new();
    state.update(OverviewMode::Overview, Some((WorldSpaceId(2), CellCoord { x: 0, z: 0 })));
    let requests = state.requests(0);
    assert_eq!(requests.len(), MAX_OVERVIEW_TILES);
    assert_eq!(requests[12], (overview_job_key(state.tiles()[12]), 1));
    let mut scheduler = DerivedJobScheduler::new();
    state.request_products(5, &mut scheduler);
    assert!(scheduler.pending_count() > 0);
    let artifacts = DerivedArtifactStore::new();
    state.sync_products(&artifacts);
    assert!(state.products().iter().all(|p| p.state == OverviewProductState::Requested));
    state.update(OverviewMode::Detail, Some((WorldSpaceId(2), CellCoord { x: 0, z: 0 })));
    assert!(state.requests(5).is_empty());
    state.sync_products(&artifacts);
    assert!(state.products().iter().all(|p| p.state == OverviewProductState::Missing));
}
