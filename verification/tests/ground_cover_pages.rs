use yarra_editor::ground_cover_pages::{
    ground_cover_override_required, needs_override_asset, override_update, presented_pages,
    GroundCoverCandidate, OverrideUpdate, PresentedPage,
};
use yarra_editor::world::{CellCoord, WorldSpaceId};

fn marker(revision: u64, fingerprint: u64, origin_cell: CellCoord) -> PresentedPage {
    PresentedPage {
        space: WorldSpaceId(1),
        cell: CellCoord { x: 0, z: 0 },
        input_revision: revision,
        fingerprint,
        origin_cell,
    }
}

#[test]
fn accepted_page_replacement_and_origin_rebase_are_distinct_updates() {
    let zero = CellCoord { x: 0, z: 0 };
    let current = marker(4, 91, zero);
    assert_eq!(override_update(&current, 4, 91, zero), OverrideUpdate::Keep);
    assert_eq!(override_update(&current, 4, 91, CellCoord { x: 8, z: -2 }), OverrideUpdate::Rebase);
    assert_eq!(override_update(&current, 5, 92, zero), OverrideUpdate::Replace);
}

#[test]
fn visual_region_and_mask_edits_each_enable_source_preview() {
    assert!(ground_cover_override_required(true, false, false));
    assert!(ground_cover_override_required(false, true, false));
    assert!(ground_cover_override_required(false, false, true));
    assert!(!ground_cover_override_required(false, false, false));
}

#[test]
fn empty_compiled_pages_need_no_gpu_asset_but_still_have_override_identity() {
    assert!(!needs_override_asset(0));
    assert!(needs_override_asset(3));
}

fn candidate(x: i32, z: i32, mask_diverged: bool) -> GroundCoverCandidate {
    GroundCoverCandidate {
        space: WorldSpaceId(1),
        cell: CellCoord { x, z },
        input_revision: 1,
        fingerprint: 2,
        mask_diverged,
    }
}

#[test]
fn presented_pages_are_near_the_viewer_and_bounded() {
    let viewer = Some((WorldSpaceId(1), CellCoord { x: 0, z: 0 }));
    let space = Some(WorldSpaceId(1));
    let candidates = [candidate(3, -3, true), candidate(4, 0, true), candidate(1, 1, false)];
    assert_eq!(presented_pages(&candidates, viewer, space, false, false), vec![candidates[0]]);
    assert_eq!(
        presented_pages(&candidates, viewer, space, true, false),
        vec![candidates[0], candidates[2]]
    );
    assert!(presented_pages(&candidates, None, space, true, true).is_empty());
    assert!(presented_pages(&candidates, viewer, Some(WorldSpaceId(2)), true, true).is_empty());
    let many: Vec<_> = (-4..=4).flat_map(|x| (-4..=4).map(move |z| candidate(x, z, true))).collect();
    assert_eq!(presented_pages(&many, viewer, space, false, false).len(), 49);
}
