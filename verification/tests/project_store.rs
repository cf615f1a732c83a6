use yarra_editor::project_store::{InFlightQuery, ProjectEditorStore, ProjectQueryWindow, ProjectSourceDomains};
use yarra_editor::world::{CellCoord, WorldSpaceId};

#[test]
fn source_window_is_bounded_and_saturates_at_coordinate_edges() {
    let regular = ProjectQueryWindow::around(WorldSpaceId(1), CellCoord { x: 10, z: -10 });
    assert_eq!(regular.minimum, CellCoord { x: 8, z: -12 });
    assert_eq!(regular.maximum, CellCoord { x: 12, z: -8 });

    let edge = ProjectQueryWindow::around(WorldSpaceId(1), CellCoord { x: i32::MAX, z: i32::MIN });
    assert_eq!(edge.maximum.x, i32::MAX);
    assert_eq!(edge.minimum.z, i32::MIN);
}

#[test]
fn one_in_flight_query_records_its_window() {
    let window = ProjectQueryWindow::around(WorldSpaceId(1), CellCoord::zero());
    let query = InFlightQuery {
        revision: 7,
        window,
        domains: ProjectSourceDomains { cells: true, objects: true, environment_coverage: false },
    };
    assert_eq!(query.window, window);
}

#[test]
fn object_save_queue_allows_only_one_bounded_request() {
    let mut store = ProjectEditorStore::new();
    assert!(store.queue_object_transaction(1).is_some());
    assert!(store.queue_object_transaction(1).is_none());
}
