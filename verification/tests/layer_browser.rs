use yarra_editor::layer_browser::{
    inside, membership, name_matches, DefinitionLayers, EnvironmentLayerBrowser, LayerPresence,
    LayerQuery,
};
use yarra_editor::layers::LayerId;
use yarra_editor::project_store::ProjectQueryWindow;
use yarra_editor::stamps::{CoverageTile, EnvironmentCellRecord};
use yarra_editor::world::{CellCoord, WorldSpaceId};

fn window() -> ProjectQueryWindow {
    ProjectQueryWindow {
        space: WorldSpaceId(1),
        minimum: CellCoord { x: -2, z: -2 },
        maximum: CellCoord { x: 2, z: 2 },
    }
}

fn record(cell: CellCoord, layer: LayerId, value: u8) -> EnvironmentCellRecord {
    EnvironmentCellRecord {
        space: WorldSpaceId(1),
        cell,
        source_revision: 1,
        definition_revision: 1,
        tiles: vec![CoverageTile { layer, samples: vec![value; 9] }],
    }
}

fn id(byte: u8) -> LayerId {
    LayerId(u128::from_be_bytes([byte; 16]))
}

fn sorted(mut ids: Vec<LayerId>) -> Vec<LayerId> {
    ids.sort_by_key(|l| l.0);
    ids
}

#[test]
fn pending_paint_replaces_saved_membership_including_erasure_and_ignores_other_windows() {
    let a = id(1);
    let b = id(2);
    let other = id(3);
    let zero = CellCoord { x: 0, z: 0 };
    let result = membership(
        window(),
        &[(zero, a)],
        &[
            record(zero, a, 0),
            record(CellCoord { x: 1, z: 0 }, b, 255),
            record(CellCoord { x: 20, z: 0 }, other, 255),
        ],
    );
    assert_eq!(sorted(result), vec![b]);
    let result = membership(
        window(),
        &[(zero, a), (CellCoord { x: 1, z: 0 }, a)],
        &[record(zero, a, 0)],
    );
    assert_eq!(sorted(result), vec![a]);
}

#[test]
fn selection_stays_visible_outside_the_window_and_search_includes_disabled_layers() {
    let layer = id(1);
    let mut browser = EnvironmentLayerBrowser::new();
    browser.set_search("not a match".into());
    assert!(browser.includes(layer, "Forest", Some(layer), &[]));
    assert!(!browser.includes(layer, "Forest", None, &[layer]));
    browser.set_search("FORE".into());
    assert!(browser.includes(layer, "Forest", None, &[layer]));
    assert!(!browser.includes(layer, "Forest", None, &[]));
    browser.set_all(true);
    assert!(browser.includes(layer, "Forest", None, &[]));
}

#[test]
fn window_bounds_are_inclusive() {
    assert!(inside(CellCoord { x: -2, z: 2 }, window()));
    assert!(!inside(CellCoord { x: 3, z: 0 }, window()));
    assert!(!inside(CellCoord { x: 0, z: -3 }, window()));
}

#[test]
fn names_match_contiguous_search_text() {
    assert!(name_matches("forest", "res"));
    assert!(name_matches("forest", ""));
    assert!(!name_matches("forest", "fst"));
    assert!(!name_matches("for", "forest"));
}

#[test]
fn records_of_other_spaces_change_no_membership() {
    let zero = CellCoord { x: 0, z: 0 };
    let mut elsewhere = record(zero, id(2), 255);
    elsewhere.space = WorldSpaceId(9);
    let result = membership(window(), &[(zero, id(1)), (zero, id(1))], &[elsewhere]);
    assert_eq!(result, vec![id(1)]);
}

fn query(epoch: u64) -> LayerQuery {
    LayerQuery { window: window(), epoch, definition_revision: 4 }
}

#[test]
fn browser_asks_once_and_accepts_only_current_answers() {
    let mut browser = EnvironmentLayerBrowser::new();
    assert_eq!(browser.status(), "Loading nearby layers\u{2026} Selected and new layers stay visible.");
    assert_eq!(browser.due_query(), None);
    browser.set_desired(Some(query(1)));
    assert_eq!(browser.due_query(), Some(query(1)));
    browser.submitted(query(1), false);
    assert_eq!(browser.due_query(), Some(query(1)));
    browser.submitted(query(1), true);
    assert_eq!(browser.due_query(), None);
    let presence = LayerPresence {
        entries: vec![(CellCoord { x: 0, z: 0 }, id(5))],
        truncated: false,
        definition_revision: 4,
    };
    browser.receive(query(1), Ok(presence.clone()));
    assert_eq!(browser.status(), "Nearby \u{b7} 5 \u{d7} 5 cells around the editing focus");
    assert_eq!(browser.due_query(), None);
    let nearby = browser.nearby(WorldSpaceId(1), 0, 0, &[], &[]);
    assert_eq!(nearby, vec![id(5)]);
    assert_eq!(browser.nearby(WorldSpaceId(2), 0, 0, &[], &[]), vec![]);
    let added = DefinitionLayers { space: WorldSpaceId(1), base: vec![id(5)], current: vec![id(5), id(6)] };
    // The cache holds while the revisions stand.
    assert_eq!(browser.nearby(WorldSpaceId(1), 0, 0, &[], &[added.clone()]), vec![id(5)]);
    let fresh = browser.nearby(WorldSpaceId(1), 0, 1, &[], &[added]);
    assert_eq!(sorted(fresh), vec![id(5), id(6)]);
    browser.set_desired(Some(query(2)));
    assert_eq!(browser.due_query(), Some(query(2)));
    browser.receive(query(1), Ok(presence));
    assert_eq!(browser.status(), "Loading nearby layers\u{2026} Selected and new layers stay visible.");
}

#[test]
fn browser_reports_stale_and_failed_answers() {
    let mut browser = EnvironmentLayerBrowser::new();
    browser.set_desired(Some(query(1)));
    browser.submitted(query(1), true);
    let stale = LayerPresence { entries: vec![], truncated: true, definition_revision: 3 };
    browser.receive(query(1), Ok(stale));
    assert_eq!(
        browser.status(),
        "Nearby layers unavailable: Source changed during discovery; move the editing focus to refresh"
    );
    browser.refresh();
    assert_eq!(browser.due_query(), Some(query(1)));
    browser.worker_failed(query(1), "no database".into());
    assert_eq!(browser.status(), "Nearby layers unavailable: no database");
    assert_eq!(browser.due_query(), None);
    browser.refresh();
    browser.submitted(query(1), true);
    let partial = LayerPresence { entries: vec![], truncated: true, definition_revision: 4 };
    browser.receive(query(1), Ok(partial));
    assert_eq!(browser.status(), "Partial nearby results \u{b7} use All to find other layers");
}
