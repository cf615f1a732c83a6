use yarra_editor::layers::{DefinitionForm, LayerId};
use yarra_editor::selection::{choose_paint_layer, reconcile_selection, top_layer, LayerSlot};
use yarra_editor::world::WorldSpaceId;

fn slot(id: u128, order: i32, enabled: bool) -> LayerSlot {
    LayerSlot { id: LayerId(id), order, enabled }
}

#[test]
fn the_top_layer_is_the_highest_ranked_one() {
    let slots = [slot(1, 0, true), slot(5, 2, false), slot(3, 2, true), slot(2, 1, true)];
    assert_eq!(top_layer(&slots, false), Some(LayerId(5)));
    assert_eq!(top_layer(&slots, true), Some(LayerId(3)));
    assert_eq!(top_layer(&[slot(4, 0, false)], true), None);
    assert_eq!(top_layer(&[], false), None);
}

#[test]
fn the_inspector_selection_follows_the_definition_shown() {
    let space = Some(WorldSpaceId(1));
    let slots = [slot(1, 0, true), slot(2, 1, true)];
    let form = DefinitionForm { original: 7, draft: 8, layer: Some(LayerId(1)) };
    // Same space, a listed selection, a form of this definition and layer: all kept.
    assert_eq!(
        reconcile_selection(space, Some(LayerId(1)), Some(form), space, 7, &slots),
        (Some(LayerId(1)), Some(form))
    );
    // The definition changed under the form: the form goes.
    assert_eq!(reconcile_selection(space, Some(LayerId(1)), Some(form), space, 9, &slots), (Some(LayerId(1)), None));
    // Another space: selection starts at the top layer, the form goes.
    assert_eq!(
        reconcile_selection(Some(WorldSpaceId(2)), Some(LayerId(1)), Some(form), space, 7, &slots),
        (Some(LayerId(2)), None)
    );
    // A selection that is no layer of the definition moves to the top layer.
    assert_eq!(reconcile_selection(space, Some(LayerId(9)), None, space, 7, &slots), (Some(LayerId(2)), None));
}

#[test]
fn painting_needs_an_enabled_layer() {
    let space = WorldSpaceId(1);
    let slots = [slot(1, 0, true), slot(2, 1, false)];
    assert_eq!(choose_paint_layer(Some(space), None, space, &slots), (Some(LayerId(1)), Ok(LayerId(1))));
    assert_eq!(
        choose_paint_layer(Some(space), Some(LayerId(2)), space, &slots),
        (Some(LayerId(2)), Err("Enable this layer before painting".to_string()))
    );
    // On another space the selection starts afresh.
    assert_eq!(
        choose_paint_layer(Some(WorldSpaceId(3)), Some(LayerId(2)), space, &slots),
        (Some(LayerId(1)), Ok(LayerId(1)))
    );
    assert_eq!(
        choose_paint_layer(Some(space), None, space, &[slot(2, 1, false)]),
        (None, Err("This world has no enabled paint layers".to_string()))
    );
}
