use yarra_editor::live_preview::CellRegion;
use yarra_editor::paint_preview::{desired_cells, EnvironmentPreview, PreviewKey, PreviewProduct};
use yarra_editor::stamps::{dependency_stamp, desired_stamp};
use yarra_editor::world::{CellCoord, WorldSpaceId};

type Stamp = [u8; 32];

/// A compiled cell in these tests: its version and terrain height.
type Compiled = (u8, i32);

fn key(x: i32) -> PreviewKey {
    (WorldSpaceId(1), CellCoord { x, z: 0 })
}

fn product(version: u8, height: i32) -> PreviewProduct<Compiled> {
    PreviewProduct { product: (version, height), bytes: 1024, objects: 0 }
}

fn accept(
    preview: &mut EnvironmentPreview<Compiled, u32>,
    x: i32,
    stamp: Stamp,
    p: PreviewProduct<Compiled>,
) {
    let cell = CellCoord { x, z: 0 };
    preview.accept_batch(WorldSpaceId(1), &[(cell, stamp)], Ok(vec![(key(x), p)]), true);
}

fn desire(preview: &mut EnvironmentPreview<Compiled, u32>, cells: &[i32], stamp: Stamp) {
    preview.set_desired(cells.iter().map(|x| (key(*x), stamp)).collect());
}

#[test]
fn relief_results_switch_neighboring_surfaces_together_and_keep_the_catalog() {
    let mut preview: EnvironmentPreview<Compiled, u32> = EnvironmentPreview::new();
    desire(&mut preview, &[0, 1], [1; 32]);
    preview.begin_catalog_swap(7);
    accept(&mut preview, 0, [1; 32], product(1, 0));
    accept(&mut preview, 1, [1; 32], product(1, 0));
    assert_eq!(preview.catalog(), Some(&7));
    desire(&mut preview, &[0, 1], [2; 32]);
    preview.stage_visible();
    let original = preview.cell(key(0)).unwrap().1;
    accept(&mut preview, 0, [2; 32], product(2, -2));
    assert_eq!(preview.cell(key(0)).unwrap().1, original);
    assert_eq!(preview.cell(key(1)).unwrap().1, original);
    accept(&mut preview, 1, [2; 32], product(2, -2));
    assert!(!preview.staging());
    assert!(preview.catalog().is_some());
    assert_ne!(preview.cell(key(0)).unwrap().1, original);
    assert_eq!(preview.cell(key(0)).unwrap().1, preview.cell(key(1)).unwrap().1);
}

#[test]
fn metadata_preview_swaps_all_resident_cells_with_their_catalog() {
    let mut preview: EnvironmentPreview<Compiled, u32> = EnvironmentPreview::new();
    desire(&mut preview, &[0, 1], [1; 32]);
    preview.begin_catalog_swap(10);
    accept(&mut preview, 0, [1; 32], product(1, 0));
    accept(&mut preview, 1, [1; 32], product(1, 0));
    desire(&mut preview, &[0, 1], [2; 32]);
    preview.begin_catalog_swap(11);
    accept(&mut preview, 0, [2; 32], product(2, 0));
    assert_eq!(preview.pending(), 1);
    assert_eq!(preview.catalog(), Some(&10));
    assert_eq!(preview.cell(key(0)).unwrap().0, 1);
    accept(&mut preview, 1, [1; 32], product(1, 0)); // An obsolete job cannot complete the swap.
    assert_eq!(preview.pending(), 1);
    accept(&mut preview, 1, [2; 32], product(2, 0));
    assert_eq!(preview.pending(), 0);
    assert_eq!(preview.catalog(), Some(&11));
    assert!(!preview.staging());
    for x in [0, 1] {
        assert_eq!(preview.cell(key(x)).unwrap().0, 2);
    }
}

#[test]
fn obsolete_worker_results_never_replace_a_newer_preview() {
    let mut preview: EnvironmentPreview<Compiled, u32> = EnvironmentPreview::new();
    desire(&mut preview, &[0], [2; 32]);
    accept(&mut preview, 0, [1; 32], product(0, 0));
    assert!(preview.cell(key(0)).is_none());
    accept(&mut preview, 0, [2; 32], product(0, 0));
    assert!(preview.cell(key(0)).is_some());
    let accepted_revision = preview.revision();
    desire(&mut preview, &[0], [3; 32]);
    accept(&mut preview, 0, [2; 32], product(0, 0));
    assert_eq!(preview.revision(), accepted_revision);
    assert_eq!(preview.pending(), 1);
    accept(&mut preview, 0, [3; 32], product(0, 0));
    assert_eq!(preview.pending(), 0);
    // A result for a world space that is not resident is also ignored.
    preview.accept_batch(
        WorldSpaceId(2),
        &[(CellCoord { x: 0, z: 0 }, [3; 32])],
        Ok(vec![((WorldSpaceId(2), CellCoord { x: 0, z: 0 }), product(0, 0))]),
        true,
    );
    assert_eq!(preview.revision(), accepted_revision + 1);
}

#[test]
fn over_budget_and_failed_jobs_mark_cells_failed_until_the_stamp_changes() {
    let mut preview: EnvironmentPreview<Compiled, u32> = EnvironmentPreview::new();
    desire(&mut preview, &[0, 1, 2], [1; 32]);
    let heavy = PreviewProduct { product: (1, 0), bytes: 1, objects: 5000 };
    accept(&mut preview, 0, [1; 32], heavy);
    assert!(preview.cell(key(0)).is_none());
    assert!(preview.error().unwrap().starts_with("Environment preview exceeds"));
    preview.accept_batch(
        WorldSpaceId(1),
        &[(CellCoord { x: 1, z: 0 }, [1; 32])],
        Err("compile failed".to_string()),
        true,
    );
    assert_eq!(preview.error(), Some("compile failed"));
    let job = preview.job_cells(CellCoord { x: 0, z: 0 }, &[]);
    assert_eq!(job, vec![(CellCoord { x: 2, z: 0 }, [1; 32])]);
    desire(&mut preview, &[0, 1, 2], [4; 32]);
    assert_eq!(preview.job_cells(CellCoord { x: 0, z: 0 }, &[]).len(), 3);
}

#[test]
fn jobs_take_cells_next_to_paint_first_then_nearest_the_focus() {
    let mut preview: EnvironmentPreview<Compiled, u32> = EnvironmentPreview::new();
    desire(&mut preview, &[-3, -1, 0, 2, 5, 9], [1; 32]);
    let job = preview.job_cells(CellCoord { x: 0, z: 0 }, &[CellCoord { x: 8, z: 1 }]);
    let xs: Vec<i32> = job.iter().map(|(c, _)| c.x).collect();
    assert_eq!(xs, vec![9, 0, -1, 2]);
    preview.job_dispatched(Ok(()));
    assert!(preview.in_flight());
    preview.accept_batch(WorldSpaceId(1), &[], Ok(vec![]), true);
    assert!(!preview.in_flight());
    preview.clear_source();
    assert_eq!(preview.pending(), 0);
    assert!(preview.job_cells(CellCoord { x: 0, z: 0 }, &[]).is_empty());
}

#[test]
fn a_result_changes_a_visible_cell_only_to_the_desired_stamp() {
    let mut preview: EnvironmentPreview<Compiled, u32> = EnvironmentPreview::new();
    desire(&mut preview, &[0, 1], [1; 32]);
    accept(&mut preview, 0, [1; 32], product(1, 5));
    assert_eq!(preview.cell(key(0)), Some(&(1, 5)));
    desire(&mut preview, &[0, 1], [2; 32]);
    // A result compiled for the stamp before the change is ignored.
    accept(&mut preview, 0, [1; 32], product(9, 9));
    assert_eq!(preview.cell(key(0)), Some(&(1, 5)));
    // A failed job leaves the visible cells as they are.
    preview.accept_batch(
        WorldSpaceId(1),
        &[(CellCoord { x: 0, z: 0 }, [2; 32])],
        Err("compile failed".to_string()),
        true,
    );
    assert_eq!(preview.cell(key(0)), Some(&(1, 5)));
    assert_eq!(preview.error(), Some("compile failed"));
    accept(&mut preview, 0, [2; 32], product(2, 6));
    assert_eq!(preview.cell(key(0)), Some(&(2, 6)));
}

#[test]
fn resident_cells_are_desired_in_key_order_with_their_road_stamp() {
    let plan = [7u8; 32];
    let road = [9u8; 32];
    let at = |x| CellCoord { x, z: 0 };
    let resident = [at(1), at(-1)];
    let overrides = [(at(1), [3u8; 32])];
    let regions = [CellRegion { minimum: at(1), maximum: at(1) }];
    let desired = desired_cells(WorldSpaceId(1), &resident, &plan, 5, "g", &overrides, &road, Some(&regions));
    assert_eq!(desired.len(), 2);
    assert_eq!(desired[0].0, key(-1));
    assert_eq!(desired[1].0, key(1));
    let far = dependency_stamp(&plan, 5, "g", at(-1), &overrides);
    let near = dependency_stamp(&plan, 5, "g", at(1), &overrides);
    assert_eq!(desired[0].1, desired_stamp(&far, &road, false));
    assert_eq!(desired[1].1, desired_stamp(&near, &road, true));
    // The road stamp follows the dependency stamp in one digest.
    let mut hasher = blake3::Hasher::new();
    hasher.update(&near);
    hasher.update(&road);
    assert_eq!(desired[1].1, *hasher.finalize().as_bytes());
    assert_eq!(desired[0].1, *blake3::hash(&far).as_bytes());
    // Without regions, road edits reach every cell.
    let everywhere = desired_cells(WorldSpaceId(1), &resident, &plan, 5, "g", &overrides, &road, None);
    assert_eq!(everywhere[0].1, desired_stamp(&far, &road, true));
}
