use yarra_editor::layers::{add_layer, move_layer, DefinitionForm, LayerEntry, LayerId};

fn layer(id: u128, order: i32) -> LayerEntry<&'static str> {
    LayerEntry { id: LayerId(id), order, data: "layer" }
}

fn ids(layers: &[LayerEntry<&'static str>]) -> Vec<u128> {
    layers.iter().map(|l| l.id.0).collect()
}

fn orders(layers: &[LayerEntry<&'static str>]) -> Vec<i32> {
    layers.iter().map(|l| l.order).collect()
}

#[test]
fn moving_up_swaps_with_the_next_layer_and_renumbers() {
    let mut layers = vec![layer(3, 5), layer(1, 0), layer(2, 5)];
    move_layer(&mut layers, LayerId(1), true);
    assert_eq!(ids(&layers), vec![2, 1, 3]);
    assert_eq!(orders(&layers), vec![0, 1, 2]);
}

#[test]
fn moving_the_bottom_layer_down_only_renumbers() {
    let mut layers = vec![layer(7, 10), layer(8, 20)];
    move_layer(&mut layers, LayerId(7), false);
    assert_eq!(ids(&layers), vec![7, 8]);
    assert_eq!(orders(&layers), vec![0, 1]);
}

#[test]
fn moving_the_top_layer_up_and_an_unknown_layer_change_nothing_but_orders() {
    let mut layers = vec![layer(4, 1), layer(9, 3)];
    move_layer(&mut layers, LayerId(9), true);
    assert_eq!(ids(&layers), vec![4, 9]);
    move_layer(&mut layers, LayerId(42), false);
    assert_eq!(ids(&layers), vec![4, 9]);
    assert_eq!(orders(&layers), vec![0, 1]);
}

#[test]
fn moving_down_swaps_with_the_previous_layer() {
    let mut layers = vec![layer(1, 0), layer(2, 1), layer(3, 2)];
    move_layer(&mut layers, LayerId(3), false);
    assert_eq!(ids(&layers), vec![1, 3, 2]);
}

#[test]
fn a_new_layer_goes_on_top_of_the_renumbered_stack() {
    let mut layers = vec![layer(5, 9), layer(6, -3)];
    add_layer(&mut layers, LayerId(11), "new");
    assert_eq!(ids(&layers), vec![6, 5, 11]);
    assert_eq!(orders(&layers), vec![0, 1, 2]);
    assert_eq!(layers[2].data, "new");
}

#[test]
fn a_form_is_changed_only_when_its_draft_differs() {
    let form = DefinitionForm { original: 3, draft: 3, layer: Some(LayerId(1)) };
    assert!(!form.changed());
    let edited = DefinitionForm { draft: 4, ..form };
    assert!(edited.changed());
}

#[test]
fn moving_up_then_down_restores_the_sorted_stack() {
    let original = vec![layer(3, 5), layer(1, 0), layer(2, 5), layer(9, -4)];
    let mut layers = original.clone();
    move_layer(&mut layers, LayerId(1), true);
    move_layer(&mut layers, LayerId(1), false);
    assert_eq!(ids(&layers), vec![9, 1, 2, 3]);
    assert_eq!(orders(&layers), vec![0, 1, 2, 3]);
}

#[test]
fn moving_keeps_every_layer_with_its_data() {
    let mut layers = vec![
        LayerEntry { id: LayerId(4), order: 2, data: "rock" },
        LayerEntry { id: LayerId(5), order: 1, data: "grass" },
        LayerEntry { id: LayerId(6), order: 3, data: "sand" },
    ];
    move_layer(&mut layers, LayerId(5), true);
    let mut kept: Vec<(u128, &str)> = layers.iter().map(|l| (l.id.0, l.data)).collect();
    kept.sort();
    assert_eq!(kept, vec![(4, "rock"), (5, "grass"), (6, "sand")]);
    assert_eq!(orders(&layers), vec![0, 1, 2]);
    assert_eq!(ids(&layers), vec![4, 5, 6]);
}
