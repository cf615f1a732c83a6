use yarra_editor::live_preview::{
    changes_world, check_shared_cells, shown_cells, preview_cell_limit, region_cells, resident_cells, CellRegion, LiveBudget,
    LivePreviewState, LiveSignature,
};
use yarra_editor::paint_preview::MAX_PREVIEW_CELLS;
use yarra_editor::world::{CellCoord, WorldSpaceId};

fn signature(edit_revision: u64, generation: &str) -> LiveSignature {
    LiveSignature {
        space: WorldSpaceId(1),
        definition_revision: 3,
        plants_revision: 4,
        source_epoch: 5,
        generation: generation.to_string(),
        edit_revision,
        roads_revision: 0,
        resident: vec![CellCoord { x: 0, z: 0 }],
    }
}

#[test]
fn changed_signature_starts_a_new_revision_and_drops_pending_work() {
    let mut state = LivePreviewState::new();
    assert_eq!(state.revision(), 0);
    assert!(!state.observe(signature(1, "g1"), false));
    assert_eq!(state.revision(), 1);
    state.queue();
    assert!(state.busy());
    // The same signature again changes nothing.
    assert!(!state.observe(signature(1, "g1"), true));
    assert_eq!(state.revision(), 1);
    assert!(state.busy());
    // A new edit revision bumps the revision and drops the waiting job.
    assert!(!state.observe(signature(2, "g1"), false));
    assert_eq!(state.revision(), 2);
    assert!(!state.busy());
}

#[test]
fn a_world_change_clears_the_visible_preview() {
    let mut state = LivePreviewState::new();
    state.observe(signature(1, "g1"), false);
    let next = signature(1, "g2");
    let generation = "g1".to_string();
    let world_changed = changes_world(Some((WorldSpaceId(1), &generation)), &next);
    assert!(world_changed);
    assert!(state.observe(next, world_changed));
    let same = signature(2, "g2");
    let generation = "g2".to_string();
    assert!(!changes_world(Some((WorldSpaceId(1), &generation)), &same));
    assert!(!changes_world(None, &same));
    assert!(changes_world(Some((WorldSpaceId(2), &generation)), &same));
}

#[test]
fn dispatch_waits_for_a_settled_job_and_a_free_worker() {
    let mut state = LivePreviewState::new();
    state.observe(signature(1, "g1"), false);
    assert_eq!(state.dispatch(true), None);
    state.queue();
    assert_eq!(state.dispatch(false), None);
    assert_eq!(state.dispatch(true), Some(1));
    state.sent(true);
    assert!(state.busy());
    state.observe(signature(2, "g1"), false);
    state.queue();
    // The worker still holds the older job.
    assert_eq!(state.dispatch(true), None);
}

#[test]
fn a_result_of_an_older_revision_is_dropped() {
    let mut state = LivePreviewState::new();
    state.observe(signature(1, "g1"), false);
    state.queue();
    assert_eq!(state.dispatch(true), Some(1));
    state.sent(true);
    state.observe(signature(2, "g1"), false);
    assert!(!state.receive(1, true));
    assert_eq!(state.pending(), None);
    assert!(!state.busy());
    assert!(!state.receive(2, false));
    assert_eq!(state.pending(), None);
    assert!(state.receive(2, true));
    assert_eq!(state.pending(), Some(2));
}

#[test]
fn only_a_ready_current_revision_without_error_is_committed() {
    let mut state = LivePreviewState::new();
    state.observe(signature(1, "g1"), false);
    assert_eq!(state.commit(Some(1), false), None);
    assert!(state.receive(1, true));
    assert_eq!(state.commit(None, false), None);
    assert_eq!(state.commit(Some(0), false), None);
    assert_eq!(state.commit(Some(1), true), None);
    assert_eq!(state.pending(), Some(1));
    assert_eq!(state.commit(Some(1), false), Some(1));
    assert_eq!(state.pending(), None);
    assert!(!state.busy());
}

#[test]
fn a_change_after_staging_drops_the_staged_result() {
    let mut state = LivePreviewState::new();
    state.observe(signature(1, "g1"), false);
    assert!(state.receive(1, true));
    state.observe(signature(2, "g1"), false);
    assert_eq!(state.pending(), None);
    assert_eq!(state.commit(Some(1), false), None);
}

#[test]
fn resident_cells_are_nearest_first_distinct_and_bounded() {
    let space = WorldSpaceId(1);
    let other = WorldSpaceId(2);
    let cells = vec![
        (space, CellCoord { x: 3, z: 0 }),
        (space, CellCoord { x: 0, z: 1 }),
        (other, CellCoord { x: 0, z: 0 }),
        (space, CellCoord { x: -1, z: 0 }),
        (space, CellCoord { x: 0, z: 1 }),
        (space, CellCoord { x: 0, z: 0 }),
        (space, CellCoord { x: 1, z: -1 }),
    ];
    let center = CellCoord { x: 0, z: 0 };
    let all = resident_cells(&cells, space, center, MAX_PREVIEW_CELLS);
    assert_eq!(
        all,
        vec![
            CellCoord { x: 0, z: 0 },
            CellCoord { x: -1, z: 0 },
            CellCoord { x: 0, z: 1 },
            CellCoord { x: 1, z: -1 },
            CellCoord { x: 3, z: 0 },
        ]
    );
    let two = resident_cells(&cells, space, center, 2);
    assert_eq!(two, vec![CellCoord { x: 0, z: 0 }, CellCoord { x: -1, z: 0 }]);
    assert!(resident_cells(&cells, WorldSpaceId(9), center, 4).is_empty());
}

#[test]
fn preview_cell_limit_follows_the_byte_budget() {
    // 16777216 / (65 * 65 * 4 + 64 * 4096 + 33 * 33 * 6 + 4096) = 16777216 / 289674
    assert_eq!(preview_cell_limit(65, 64, 33), 57);
    // Fields above 64 count as 64.
    assert_eq!(preview_cell_limit(65, 200, 33), 57);
    // Small products stay within the cell cap.
    assert_eq!(preview_cell_limit(1, 0, 1), MAX_PREVIEW_CELLS);
}

fn region(x0: i32, z0: i32, x1: i32, z1: i32) -> CellRegion {
    CellRegion { minimum: CellCoord { x: x0, z: z0 }, maximum: CellCoord { x: x1, z: z1 } }
}

#[test]
fn road_regions_give_each_cell_once_in_order() {
    let cells = region_cells(&[region(1, 0, 2, 1), region(0, 1, 1, 1)]).unwrap();
    assert_eq!(
        cells,
        vec![
            CellCoord { x: 0, z: 1 },
            CellCoord { x: 1, z: 0 },
            CellCoord { x: 1, z: 1 },
            CellCoord { x: 2, z: 0 },
            CellCoord { x: 2, z: 1 },
        ]
    );
    assert!(region_cells(&[]).unwrap().is_empty());
    // An inverted region holds no cells.
    assert!(region_cells(&[region(3, 3, 2, 2)]).unwrap().is_empty());
    assert_eq!(region_cells(&[region(-32, -32, 31, 31)]).unwrap().len(), 4096);
    assert_eq!(
        region_cells(&[region(0, 0, 0, 0), region(0, 0, 64, 63)]).unwrap_err(),
        "Road edit exceeds the live terrain region budget; Save & Publish to continue"
    );
}

#[test]
fn live_compiles_stay_within_their_cell_byte_and_object_budget() {
    assert!(check_shared_cells(256).is_ok());
    assert!(check_shared_cells(257).unwrap_err().starts_with("This shared edit affects more than 256 terrain cells."));
    let mut budget = LiveBudget::new();
    assert!(budget.allow_cell().is_ok());
    budget.charge(1024, 10).unwrap();
    assert_eq!(budget, LiveBudget { cells: 1, bytes: 1024, objects: 10 });
    assert_eq!(
        budget.charge(0, 4087).unwrap_err(),
        "Live source preview exceeds its memory/object budget; reduce the edited region or Save & Publish"
    );
    assert_eq!(budget.cells, 1);
    let mut bytes = LiveBudget::new();
    bytes.charge(16 * 1024 * 1024, 0).unwrap();
    assert!(bytes.charge(1, 0).is_err());
    let full = LiveBudget { cells: 256, bytes: 0, objects: 0 };
    assert_eq!(
        full.allow_cell().unwrap_err(),
        "Live terrain exceeds 256 affected/source cells; Save & Publish to continue"
    );
}

#[test]
fn a_commit_shows_only_resident_cells_of_the_space() {
    let at = |x| CellCoord { x, z: 0 };
    let cells = vec![
        ((WorldSpaceId(1), at(0)), 'a'),
        ((WorldSpaceId(2), at(0)), 'b'),
        ((WorldSpaceId(1), at(5)), 'c'),
        ((WorldSpaceId(1), at(1)), 'd'),
    ];
    let shown = shown_cells(cells, WorldSpaceId(1), &[at(1), at(0)]);
    assert_eq!(shown, vec![((WorldSpaceId(1), at(0)), 'a'), ((WorldSpaceId(1), at(1)), 'd')]);
}
