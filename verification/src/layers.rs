//! Ordering of the layers of an environment definition, and the draft form that edits one.

use vstd::multiset::Multiset;
use vstd::prelude::*;

verus! {

/// Stable identity of an environment layer.
#[derive(Clone, Copy, Debug, PartialEq, Eq, Hash, Structural)]
pub struct LayerId(pub u128);

/// One layer: its identity, its place in the stack, and the rest of its authored data.
#[derive(Clone, Debug)]
pub struct LayerEntry<P> {
    pub id: LayerId,
    pub order: i32,
    pub data: P,
}

/// Layers are ordered by their order number, then by identity.
pub open spec fn layer_le<P>(a: LayerEntry<P>, b: LayerEntry<P>) -> bool {
    a.order < b.order || (a.order == b.order && a.id.0 <= b.id.0)
}

/// How many leading layers of a sorted stack come at or before the given layer.
pub open spec fn insert_position<P>(sorted: Seq<LayerEntry<P>>, x: LayerEntry<P>) -> nat
    decreases sorted.len(),
{
    if sorted.len() == 0 {
        0
    } else if layer_le(sorted[0], x) {
        1 + insert_position(sorted.skip(1), x)
    } else {
        0
    }
}

/// The layers in stack order; layers of equal rank keep their given order.
pub open spec fn sort_layers<P>(layers: Seq<LayerEntry<P>>) -> Seq<LayerEntry<P>>
    decreases layers.len(),
{
    if layers.len() == 0 {
        layers
    } else {
        let sorted = sort_layers(layers.drop_last());
        sorted.insert(insert_position(sorted, layers.last()) as int, layers.last())
    }
}

/// The layers with each order number set to the layer's position.
pub open spec fn renumbered<P>(layers: Seq<LayerEntry<P>>) -> Seq<LayerEntry<P>> {
    Seq::new(layers.len(), |i: int| LayerEntry { order: i as i32, ..layers[i] })
}

/// Whether the layers are in stack order.
pub open spec fn layers_sorted<P>(layers: Seq<LayerEntry<P>>) -> bool {
    forall|i: int, j: int| 0 <= i < j < layers.len() ==> layer_le(layers[i], layers[j])
}

/// The position of the first layer with the identity, if any.
pub open spec fn position_of<P>(layers: Seq<LayerEntry<P>>, id: LayerId) -> Option<int>
    decreases layers.len(),
{
    if layers.len() == 0 {
        None
    } else if layers[0].id == id {
        Some(0)
    } else {
        match position_of(layers.skip(1), id) {
            Some(p) => Some(p + 1),
            None => None,
        }
    }
}

/// The stack after moving one layer a place up (towards the end) or down.
pub open spec fn moved<P>(layers: Seq<LayerEntry<P>>, id: LayerId, up: bool) -> Seq<LayerEntry<P>> {
    let sorted = sort_layers(layers);
    let swapped = match position_of(sorted, id) {
        Some(i) => {
            let next = if up { i + 1 } else if i == 0 { 0 } else { i - 1 };
            if next < sorted.len() {
                sorted.update(i, sorted[next]).update(next, sorted[i])
            } else {
                sorted
            }
        },
        None => sorted,
    };
    renumbered(swapped)
}

/// Sorts the layers into stack order, keeping the given order among layers of equal rank.
pub fn sort_layer_stack<P>(layers: &mut Vec<LayerEntry<P>>)
    ensures
        final(layers)@ == sort_layers(old(layers)@),
{
    let ghost input = layers@;
    let count = layers.len();
    assert(input.len() == count);
    let mut rest: Vec<LayerEntry<P>> = Vec::new();
    std::mem::swap(&mut rest, layers);
    // `layers` is now empty; `rest` holds the input.
    let mut sorted: Vec<LayerEntry<P>> = Vec::new();
    let mut remaining: Vec<LayerEntry<P>> = Vec::new();
    // Reverse the input so that popping yields it front to back.
    while rest.len() > 0
        invariant
            remaining@.len() + rest@.len() == input.len(),
            rest@ == input.take(rest@.len() as int),
            forall|k: int| 0 <= k < remaining@.len() ==> remaining@[k] == input[input.len() - 1 - k],
        decreases rest@.len(),
    {
        let x = rest.pop().unwrap();
        remaining.push(x);
    }
    let mut done: usize = 0;
    while remaining.len() > 0
        invariant
            done + remaining@.len() == input.len(),
            input.len() <= usize::MAX,
            sorted@ == sort_layers(input.take(done as int)),
            forall|k: int| 0 <= k < remaining@.len() ==> remaining@[k] == input[input.len() - 1 - k],
        decreases remaining@.len(),
    {
        let x = remaining.pop().unwrap();
        proof {
            assert(x == input[done as int]);
            assert(input.take(done + 1).drop_last() =~= input.take(done as int));
            assert(input.take(done + 1).last() == x);
        }
        let mut j: usize = 0;
        proof {
            assert(sorted@.skip(0) =~= sorted@);
        }
        while j < sorted.len() && layer_key_le(&sorted[j], &x)
            invariant
                j <= sorted@.len(),
                insert_position(sorted@, x) == j + insert_position(sorted@.skip(j as int), x),
            decreases sorted@.len() - j,
        {
            proof {
                assert(sorted@.skip(j as int).skip(1) =~= sorted@.skip(j + 1));
            }
            j = j + 1;
        }
        proof {
            if j < sorted@.len() {
                assert(sorted@.skip(j as int)[0] == sorted@[j as int]);
            }
        }
        sorted.insert(j, x);
        done = done + 1;
    }
    proof {
        assert(input.take(done as int) =~= input);
    }
    *layers = sorted;
}

fn layer_key_le<P>(a: &LayerEntry<P>, b: &LayerEntry<P>) -> (r: bool)
    ensures
        r == layer_le(*a, *b),
{
    a.order < b.order || (a.order == b.order && a.id.0 <= b.id.0)
}

/// Sets each order number to the layer's position in the stack.
pub fn renumber_layers<P>(layers: &mut Vec<LayerEntry<P>>)
    ensures
        final(layers)@ == renumbered(old(layers)@),
{
    let ghost input = layers@;
    let mut i: usize = 0;
    while i < layers.len()
        invariant
            i <= layers@.len(),
            layers@.len() == input.len(),
            forall|k: int| 0 <= k < i ==> layers@[k] == renumbered(input)[k],
            forall|k: int| i <= k < layers@.len() ==> layers@[k] == input[k],
        decreases layers@.len() - i,
    {
        let mut entry = layers.remove(i);
        entry.order = i as i32;
        layers.insert(i, entry);
        i = i + 1;
    }
    proof {
        assert(layers@ =~= renumbered(input));
    }
}

/// What `position_of` finds: the first layer with the identity.
pub proof fn lemma_position_of<P>(layers: Seq<LayerEntry<P>>, id: LayerId)
    ensures
        match position_of(layers, id) {
            Some(p) => 0 <= p < layers.len() && layers[p].id == id && forall|k: int|
                0 <= k < p ==> layers[k].id != id,
            None => forall|k: int| 0 <= k < layers.len() ==> layers[k].id != id,
        },
    decreases layers.len(),
{
    if layers.len() > 0 && layers[0].id != id {
        lemma_position_of(layers.skip(1), id);
        match position_of(layers.skip(1), id) {
            Some(p) => {
                assert forall|k: int| 0 <= k < p + 1 implies layers[k].id != id by {
                    if k > 0 {
                        assert(layers[k] == layers.skip(1)[k - 1]);
                    }
                }
            },
            None => {
                assert forall|k: int| 0 <= k < layers.len() implies layers[k].id != id by {
                    if k > 0 {
                        assert(layers[k] == layers.skip(1)[k - 1]);
                    }
                }
            },
        }
    }
}

fn find_layer<P>(layers: &Vec<LayerEntry<P>>, id: LayerId) -> (r: Option<usize>)
    ensures
        match r {
            Some(i) => position_of(layers@, id) == Some(i as int),
            None => position_of(layers@, id) == None::<int>,
        },
{
    proof {
        lemma_position_of(layers@, id);
    }
    let mut i: usize = 0;
    while i < layers.len()
        invariant
            i <= layers@.len(),
            forall|k: int| 0 <= k < i ==> layers@[k].id != id,
            match position_of(layers@, id) {
                Some(p) => 0 <= p < layers@.len() && layers@[p].id == id && forall|k: int|
                    0 <= k < p ==> layers@[k].id != id,
                None => forall|k: int| 0 <= k < layers@.len() ==> layers@[k].id != id,
            },
        decreases layers@.len() - i,
    {
        if layers[i].id == id {
            proof {
                match position_of(layers@, id) {
                    Some(p) => {
                        if p < i {
                        } else if p > i {
                            assert(layers@[i as int].id != id);
                        }
                    },
                    None => {
                        assert(layers@[i as int].id != id);
                    },
                }
            }
            return Some(i);
        }
        i = i + 1;
    }
    proof {
        match position_of(layers@, id) {
            Some(p) => {
                assert(layers@[p].id != id);
            },
            None => {},
        }
    }
    None
}

/// Moves a layer one place up (towards the end of the stack) or down, after sorting the stack;
/// the order numbers then follow the positions.
pub fn move_layer<P>(layers: &mut Vec<LayerEntry<P>>, layer: LayerId, up: bool)
    ensures
        final(layers)@ == moved(old(layers)@, layer, up),
{
    sort_layer_stack(layers);
    let ghost sorted = layers@;
    proof {
        lemma_position_of(sorted, layer);
    }
    if let Some(i) = find_layer(layers, layer) {
        let next = if up {
            i.saturating_add(1)
        } else {
            i.saturating_sub(1)
        };
        if next < layers.len() && next != i {
            let entry = layers.remove(i);
            layers.insert(next, entry);
            proof {
                let target = sorted.update(i as int, sorted[next as int]).update(
                    next as int,
                    sorted[i as int],
                );
                assert forall|k: int| 0 <= k < sorted.len() implies layers@[k] == target[k] by {
                    if k != i && k != next {
                        assert(layers@[k] == sorted[k]);
                    }
                }
                assert(layers@ =~= sorted.update(i as int, sorted[next as int]).update(
                    next as int,
                    sorted[i as int],
                ));
            }
        } else {
            proof {
                if next < sorted.len() {
                    assert(sorted.update(i as int, sorted[next as int]).update(
                        next as int,
                        sorted[i as int],
                    ) =~= sorted);
                }
            }
        }
    }
    renumber_layers(layers);
}

/// Adds a new layer on top of the stack, after sorting and renumbering the existing ones.
pub fn add_layer<P>(layers: &mut Vec<LayerEntry<P>>, id: LayerId, data: P)
    ensures
        final(layers)@ == renumbered(sort_layers(old(layers)@)).push(
            LayerEntry { id, order: old(layers)@.len() as i32, data },
        ),
{
    sort_layer_stack(layers);
    renumber_layers(layers);
    let order = layers.len() as i32;
    proof {
        lemma_sort_layers_len(old(layers)@);
    }
    layers.push(LayerEntry { id, order, data });
}

/// Sorting keeps the number of layers.
pub proof fn lemma_sort_layers_len<P>(layers: Seq<LayerEntry<P>>)
    ensures
        sort_layers(layers).len() == layers.len(),
    decreases layers.len(),
{
    if layers.len() > 0 {
        lemma_sort_layers_len(layers.drop_last());
        let sorted = sort_layers(layers.drop_last());
        lemma_insert_position_bound(sorted, layers.last());
    }
}

pub proof fn lemma_insert_position_bound<P>(sorted: Seq<LayerEntry<P>>, x: LayerEntry<P>)
    ensures
        insert_position(sorted, x) <= sorted.len(),
    decreases sorted.len(),
{
    if sorted.len() > 0 {
        lemma_insert_position_bound(sorted.skip(1), x);
    }
}

/// The layers of a stack with their identity and data, whatever their place in it.
pub open spec fn layer_multiset<P>(layers: Seq<LayerEntry<P>>) -> Multiset<(LayerId, P)> {
    layers.map_values(|e: LayerEntry<P>| (e.id, e.data)).to_multiset()
}

/// Sorting keeps each layer, as seen through any view of a layer.
proof fn lemma_sort_layers_keeps<P, B>(layers: Seq<LayerEntry<P>>, f: spec_fn(LayerEntry<P>) -> B)
    ensures
        sort_layers(layers).map_values(f).to_multiset() == layers.map_values(f).to_multiset(),
    decreases layers.len(),
{
    if layers.len() > 0 {
        let rest = layers.drop_last();
        let x = layers.last();
        lemma_sort_layers_keeps(rest, f);
        let sorted = sort_layers(rest);
        lemma_sort_layers_len(rest);
        lemma_insert_position_bound(sorted, x);
        let p = insert_position(sorted, x) as int;
        assert(sorted.insert(p, x).map_values(f) =~= sorted.map_values(f).insert(p, f(x)));
        vstd::seq_lib::to_multiset_insert(sorted.map_values(f), p, f(x));
        assert(layers.map_values(f) =~= rest.map_values(f).push(f(x)));
        vstd::seq_lib::to_multiset_build(rest.map_values(f), f(x));
    }
}

/// Exchanging two places of a stack keeps each layer.
proof fn lemma_swap_keeps<A>(s: Seq<A>, i: int, j: int)
    requires
        0 <= i < s.len(),
        0 <= j < s.len(),
    ensures
        s.update(i, s[j]).update(j, s[i]).to_multiset() == s.to_multiset(),
{
    broadcast use vstd::multiset::group_multiset_axioms;

    if i == j {
        assert(s.update(i, s[j]).update(j, s[i]) =~= s);
    } else {
        let t = s.update(i, s[j]);
        vstd::seq_lib::to_multiset_update(s, i, s[j]);
        vstd::seq_lib::to_multiset_update(t, j, s[i]);
        vstd::seq_lib::to_multiset_contains(s, s[i]);
        vstd::seq_lib::to_multiset_contains(s, s[j]);
        assert(s.update(i, s[j]).update(j, s[i]).to_multiset() =~= s.to_multiset());
    }
}

/// Where the first element lands in a stack that comes wholly at or before it: at the end.
proof fn lemma_insert_position_after_all<P>(sorted: Seq<LayerEntry<P>>, x: LayerEntry<P>)
    requires
        forall|k: int| 0 <= k < sorted.len() ==> layer_le(#[trigger] sorted[k], x),
    ensures
        insert_position(sorted, x) == sorted.len(),
    decreases sorted.len(),
{
    if sorted.len() > 0 {
        assert forall|k: int| 0 <= k < sorted.skip(1).len() implies layer_le(#[trigger] sorted.skip(1)[k], x) by {
            assert(sorted.skip(1)[k] == sorted[k + 1]);
        }
        lemma_insert_position_after_all(sorted.skip(1), x);
    }
}

/// A stack already in order sorts to itself.
proof fn lemma_sorted_stays<P>(layers: Seq<LayerEntry<P>>)
    requires
        layers_sorted(layers),
    ensures
        sort_layers(layers) == layers,
    decreases layers.len(),
{
    if layers.len() > 0 {
        let rest = layers.drop_last();
        lemma_sorted_stays(rest);
        assert forall|k: int| 0 <= k < rest.len() implies layer_le(#[trigger] rest[k], layers.last()) by {
            assert(rest[k] == layers[k]);
        }
        lemma_insert_position_after_all(rest, layers.last());
        assert(rest.insert(rest.len() as int, layers.last()) =~= layers);
    }
}

/// Moving a layer up or down keeps the same layers, each with its identity and data: none is
/// added, lost or otherwise changed. The stack keeps its size, and each order number is the
/// layer's new position.
pub proof fn law_move_keeps_the_layers<P>(layers: Seq<LayerEntry<P>>, id: LayerId, up: bool)
    ensures
        moved(layers, id, up).len() == layers.len(),
        forall|k: int| 0 <= k < layers.len() ==> (#[trigger] moved(layers, id, up)[k]).order == k as i32,
        layer_multiset(moved(layers, id, up)) == layer_multiset(layers),
{
    let f = |e: LayerEntry<P>| (e.id, e.data);
    let sorted = sort_layers(layers);
    lemma_sort_layers_len(layers);
    lemma_sort_layers_keeps(layers, f);
    lemma_position_of(sorted, id);
    let swapped = match position_of(sorted, id) {
        Some(i) => {
            let next = if up { i + 1 } else if i == 0 { 0 } else { i - 1 };
            if next < sorted.len() {
                sorted.update(i, sorted[next]).update(next, sorted[i])
            } else {
                sorted
            }
        },
        None => sorted,
    };
    match position_of(sorted, id) {
        Some(i) => {
            let next = if up { i + 1 } else if i == 0 { 0 } else { i - 1 };
            if next < sorted.len() {
                let m = sorted.map_values(f);
                assert(swapped.map_values(f) =~= m.update(i, m[next]).update(next, m[i]));
                lemma_swap_keeps(m, i, next);
            }
        },
        None => {},
    }
    assert(renumbered(swapped).map_values(f) =~= swapped.map_values(f));
    assert(moved(layers, id, up) == renumbered(swapped));
}

/// Moving a layer up and then back down gives the stack in its sorted order again, with each
/// order number following the position. Holds where the layer is not already on top, the
/// identities are distinct and the stack is small enough for its positions to be order numbers.
pub proof fn law_up_then_down_restores_the_order<P>(layers: Seq<LayerEntry<P>>, id: LayerId)
    requires
        forall|a: int, b: int| 0 <= a < b < layers.len() ==> layers[a].id != layers[b].id,
        layers.len() <= i32::MAX,
        position_of(sort_layers(layers), id) matches Some(i) && i + 1 < layers.len(),
    ensures
        moved(moved(layers, id, true), id, false) == renumbered(sort_layers(layers)),
{
    let s = sort_layers(layers);
    lemma_sort_layers_len(layers);
    lemma_position_of(s, id);
    let i = position_of(s, id)->0;
    let n = i + 1;
    // The layers at the two places differ in identity.
    let idf = |e: LayerEntry<P>| e;
    lemma_sort_layers_keeps(layers, idf);
    assert(s.map_values(idf) =~= s);
    assert(layers.map_values(idf) =~= layers);
    assert(s[i].id != s[n].id) by {
        vstd::seq_lib::to_multiset_contains(s, s[i]);
        vstd::seq_lib::to_multiset_contains(s, s[n]);
        vstd::seq_lib::to_multiset_contains(layers, s[i]);
        vstd::seq_lib::to_multiset_contains(layers, s[n]);
        assert(layers.contains(s[i]));
        assert(layers.contains(s[n]));
        let a = choose|a: int| 0 <= a < layers.len() && layers[a] == s[i];
        let b = choose|b: int| 0 <= b < layers.len() && layers[b] == s[n];
        if s[i].id == s[n].id {
            assert(a == b);
            assert(s[i] == s[n]);
            assert(layers.no_duplicates());
            assert(s.no_duplicates()) by {
                layers.lemma_multiset_has_no_duplicates();
                s.lemma_multiset_has_no_duplicates_conv();
            }
            assert(false);
        }
    }
    let t = s.update(i, s[n]).update(n, s[i]);
    let l1 = renumbered(t);
    assert(moved(layers, id, true) == l1);
    assert(layers_sorted(l1)) by {
        assert forall|a: int, b: int| 0 <= a < b < l1.len() implies layer_le(l1[a], l1[b]) by {
            assert(l1[a].order == a as i32 && l1[b].order == b as i32);
        }
    }
    lemma_sorted_stays(l1);
    // In the moved stack the layer is first found one place up.
    assert(position_of(l1, id) == Some(n)) by {
        lemma_position_of(l1, id);
        assert(l1[n].id == id);
        assert(l1[i].id == s[n].id);
        match position_of(l1, id) {
            Some(p) => {
                if p < i {
                    assert(l1[p].id == s[p].id);
                }
            },
            None => {},
        }
    }
    let u = l1.update(n, l1[i]).update(i, l1[n]);
    assert(moved(l1, id, false) == renumbered(u));
    assert(renumbered(u) =~= renumbered(s));
}

/// A draft of an environment definition. Definitions are held as content handles: equal
/// handles stand for equal definitions.
#[derive(Clone, Copy, Debug, PartialEq, Eq)]
pub struct DefinitionForm {
    pub original: u64,
    pub draft: u64,
    pub layer: Option<LayerId>,
}

impl DefinitionForm {
    /// Whether the draft differs from the definition it was opened on.
    pub fn changed(&self) -> (r: bool)
        ensures
            r == (self.original != self.draft),
    {
        self.original != self.draft
    }
}

} // verus!
