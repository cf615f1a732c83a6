use yarra_editor::jobs::{DerivedJobKey, DerivedJobScope, DerivedProduct};
use yarra_editor::preview_modes::{
    preview_products, preview_requests, EditorPreviewMode, PreviewActivation, PreviewModeState,
};
use yarra_editor::project_store::EditorSourceDomain;
use yarra_editor::world::{CellCoord, WorldSpaceId};

#[test]
fn gameplay_preview_has_an_isolated_full_rate_session_lifecycle() {
    let mut state = PreviewModeState::new();
    assert_eq!(
        state.activate(),
        Some(PreviewActivation {
            mode: EditorPreviewMode::Authoring,
            generation: 1,
            spawn_session: false,
            full_rate: false,
        })
    );
    state.request(EditorPreviewMode::Gameplay);
    let activation = state.activate().unwrap();
    assert_eq!(state.active(), Some(EditorPreviewMode::Gameplay));
    assert!(activation.full_rate);
    assert!(activation.spawn_session);
    assert_eq!(activation.mode, EditorPreviewMode::Gameplay);
    assert_eq!(activation.generation, state.generation());
    assert_eq!(state.activate(), None);
    state.suspend();
    assert_eq!(state.active(), None);
    assert_eq!(state.requested(), EditorPreviewMode::Gameplay);
    assert_eq!(state.activate().unwrap().generation, 3);
}

#[test]
fn preview_modes_describe_what_they_read() {
    let labels: Vec<&str> = EditorPreviewMode::all().iter().map(|m| m.label()).collect();
    assert_eq!(labels, vec!["Authoring", "Collision", "Navigation", "Gameplay"]);
    let gameplay = EditorPreviewMode::Gameplay.descriptor();
    assert!(gameplay.isolated_simulation && gameplay.full_rate);
    assert_eq!(
        gameplay.domains,
        vec![
            EditorSourceDomain::CellDescriptors,
            EditorSourceDomain::ObjectPlacements,
            EditorSourceDomain::Navigation,
            EditorSourceDomain::Collision,
        ]
    );
    let collision = EditorPreviewMode::Collision.descriptor();
    assert!(!collision.isolated_simulation && !collision.full_rate);
    assert_eq!(preview_products(Some(EditorPreviewMode::Authoring)), vec![]);
    assert_eq!(preview_products(None), vec![]);
}

#[test]
fn preview_requests_cover_each_loaded_cell_at_the_source_epoch() {
    let cells = [
        (WorldSpaceId(1), CellCoord { x: 0, z: 0 }),
        (WorldSpaceId(1), CellCoord { x: 1, z: 0 }),
    ];
    let requests = preview_requests(&cells, Some(EditorPreviewMode::Gameplay), 0);
    let key = |product, x| DerivedJobKey {
        product,
        scope: DerivedJobScope::Cell { space: WorldSpaceId(1), cell: CellCoord { x, z: 0 } },
    };
    assert_eq!(
        requests,
        vec![
            (key(DerivedProduct::Collision, 0), 1),
            (key(DerivedProduct::Navigation, 0), 1),
            (key(DerivedProduct::Collision, 1), 1),
            (key(DerivedProduct::Navigation, 1), 1),
        ]
    );
    assert_eq!(preview_requests(&cells, Some(EditorPreviewMode::Collision), 9)[1], (key(DerivedProduct::Collision, 1), 9));
    assert!(preview_requests(&cells, Some(EditorPreviewMode::Authoring), 9).is_empty());
}
