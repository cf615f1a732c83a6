//! Which layer the environment inspector and the paint brush work on: the selection follows the
//! definition shown, falls back to the top layer, and an open draft form stays only while it
//! still belongs to the definition and layer it was opened on.

use vstd::prelude::*;

use crate::layers::{DefinitionForm, LayerId};
use crate::world::WorldSpaceId;

verus! {

/// A layer as selection sees it: its identity, its place in the stack, and whether it paints.
#[derive(Clone, Copy, Debug, PartialEq, Eq)]
pub struct LayerSlot {
    pub id: LayerId,
    pub order: i32,
    pub enabled: bool,
}

/// Layers rank by order number, then by identity.
pub open spec fn slot_le(a: LayerSlot, b: LayerSlot) -> bool {
    a.order < b.order || (a.order == b.order && a.id.0 <= b.id.0)
}

/// The highest-ranked layer (the last of equals), among the enabled ones when `enabled_only`.
pub open spec fn top_slot(slots: Seq<LayerSlot>, enabled_only: bool) -> Option<LayerSlot>
    decreases slots.len(),
{
    if slots.len() == 0 {
        None
    } else {
        let prev = top_slot(slots.drop_last(), enabled_only);
        if enabled_only && !slots.last().enabled {
            prev
        } else {
            match prev {
                None => Some(slots.last()),
                Some(t) => if slot_le(t, slots.last()) {
                    Some(slots.last())
                } else {
                    prev
                },
            }
        }
    }
}

/// The identity of the top layer, if any.
pub open spec fn top_id(slots: Seq<LayerSlot>, enabled_only: bool) -> Option<LayerId> {
    match top_slot(slots, enabled_only) {
        Some(t) => Some(t.id),
        None => None,
    }
}

/// Some layer has the identity.
pub open spec fn has_slot(slots: Seq<LayerSlot>, id: LayerId) -> bool {
    exists|i: int| 0 <= i < slots.len() && slots[i].id == id
}

/// The first layer with the identity (meaningful when there is one).
pub open spec fn slot_of(slots: Seq<LayerSlot>, id: LayerId) -> LayerSlot
    decreases slots.len(),
{
    if slots.len() == 0 {
        arbitrary()
    } else if slots[0].id == id {
        slots[0]
    } else {
        slot_of(slots.drop_first(), id)
    }
}

fn slot_le_exec(a: &LayerSlot, b: &LayerSlot) -> (r: bool)
    ensures
        r == slot_le(*a, *b),
{
    a.order < b.order || (a.order == b.order && a.id.0 <= b.id.0)
}

/// The identity of the top layer (see `top_slot`).
pub fn top_layer(slots: &[LayerSlot], enabled_only: bool) -> (r: Option<LayerId>)
    ensures
        r == top_id(slots@, enabled_only),
{
    let mut best: Option<LayerSlot> = None;
    let mut i: usize = 0;
    while i < slots.len()
        invariant
            i <= slots@.len(),
            best == top_slot(slots@.take(i as int), enabled_only),
        decreases slots@.len() - i,
    {
        proof {
            assert(slots@.take(i + 1).drop_last() =~= slots@.take(i as int));
            assert(slots@.take(i + 1).last() == slots@[i as int]);
        }
        let s = slots[i];
        if !enabled_only || s.enabled {
            match best {
                None => {
                    best = Some(s);
                },
                Some(t) => {
                    if slot_le_exec(&t, &s) {
                        best = Some(s);
                    }
                },
            }
        }
        i = i + 1;
    }
    proof {
        assert(slots@.take(i as int) =~= slots@);
    }
    match best {
        Some(t) => Some(t.id),
        None => None,
    }
}

/// The first layer with the identity, if any.
fn find_slot(slots: &[LayerSlot], id: LayerId) -> (r: Option<LayerSlot>)
    ensures
        r is Some <==> has_slot(slots@, id),
        r matches Some(s) ==> s == slot_of(slots@, id),
{
    let mut i: usize = 0;
    proof {
        assert(slots@.skip(0) =~= slots@);
    }
    while i < slots.len()
        invariant
            i <= slots@.len(),
            forall|k: int| 0 <= k < i ==> slots@[k].id != id,
            slot_of(slots@, id) == slot_of(slots@.skip(i as int), id),
        decreases slots@.len() - i,
    {
        proof {
            assert(slots@.skip(i as int)[0] == slots@[i as int]);
            assert(slots@.skip(i as int).drop_first() =~= slots@.skip(i + 1));
        }
        if slots[i].id == id {
            return Some(slots[i]);
        }
        i = i + 1;
    }
    None
}

/// What the inspector keeps after a new frame shows `space` with the definition `definition`
/// (a content handle) and its layers: a change of world space clears the selection and the
/// form; a selection that is no layer of the definition moves to the top layer and drops the
/// form; a form opened on another definition or another layer is dropped.
pub open spec fn reconciled_selection(
    shown: Option<WorldSpaceId>,
    selected: Option<LayerId>,
    form: Option<DefinitionForm>,
    space: Option<WorldSpaceId>,
    definition: u64,
    slots: Seq<LayerSlot>,
) -> (Option<LayerId>, Option<DefinitionForm>) {
    let (sel1, form1) = if shown != space {
        (None::<LayerId>, None::<DefinitionForm>)
    } else {
        (selected, form)
    };
    let (sel2, form2) = if sel1 matches Some(id) && has_slot(slots, id) {
        (sel1, form1)
    } else {
        (top_id(slots, false), None::<DefinitionForm>)
    };
    let form3 = if form2 matches Some(f) && (f.original != definition || f.layer != sel2) {
        None
    } else {
        form2
    };
    (sel2, form3)
}

/// Reconciles the inspector's selection and open form with what it shows (see
/// `reconciled_selection`).
pub fn reconcile_selection(
    shown: Option<WorldSpaceId>,
    selected: Option<LayerId>,
    form: Option<DefinitionForm>,
    space: Option<WorldSpaceId>,
    definition: u64,
    slots: &[LayerSlot],
) -> (r: (Option<LayerId>, Option<DefinitionForm>))
    ensures
        r == reconciled_selection(shown, selected, form, space, definition, slots@),
{
    let (sel1, form1) = if shown != space {
        (None, None)
    } else {
        (selected, form)
    };
    let listed = match sel1 {
        Some(id) => find_slot(slots, id).is_some(),
        None => false,
    };
    let (sel2, form2) = if listed {
        (sel1, form1)
    } else {
        (top_layer(slots, false), None)
    };
    let drop = match form2 {
        Some(f) => f.original != definition || f.layer != sel2,
        None => false,
    };
    let form3 = if drop {
        None
    } else {
        form2
    };
    (sel2, form3)
}

/// The layer a stroke paints, with the selection it leaves: on another world space than the one
/// shown the selection starts afresh; a selection that is no layer of the definition moves to
/// the top enabled layer. Painting needs a selected layer, and an enabled one.
pub open spec fn paint_layer_choice(
    shown: Option<WorldSpaceId>,
    selected: Option<LayerId>,
    space: WorldSpaceId,
    slots: Seq<LayerSlot>,
) -> (Option<LayerId>, Result<LayerId, Seq<char>>) {
    let sel1 = if shown != Some(space) {
        None
    } else {
        selected
    };
    let sel2 = if sel1 matches Some(id) && has_slot(slots, id) {
        sel1
    } else {
        top_id(slots, true)
    };
    match sel2 {
        None => (sel2, Err("This world has no enabled paint layers"@)),
        Some(id) => if has_slot(slots, id) && !slot_of(slots, id).enabled {
            (sel2, Err("Enable this layer before painting"@))
        } else {
            (sel2, Ok(id))
        },
    }
}

/// Chooses the layer a stroke paints (see `paint_layer_choice`); gives the new selection and
/// the layer, or why painting cannot start.
pub fn choose_paint_layer(
    shown: Option<WorldSpaceId>,
    selected: Option<LayerId>,
    space: WorldSpaceId,
    slots: &[LayerSlot],
) -> (r: (Option<LayerId>, Result<LayerId, String>))
    ensures
        r.0 == paint_layer_choice(shown, selected, space, slots@).0,
        match (r.1, paint_layer_choice(shown, selected, space, slots@).1) {
            (Ok(a), Ok(b)) => a == b,
            (Err(m), Err(e)) => m@ == e,
            _ => false,
        },
{
    let sel1 = if shown != Some(space) {
        None
    } else {
        selected
    };
    let listed = match sel1 {
        Some(id) => find_slot(slots, id).is_some(),
        None => false,
    };
    let sel2 = if listed {
        sel1
    } else {
        top_layer(slots, true)
    };
    match sel2 {
        None => (sel2, Err(String::from_str("This world has no enabled paint layers"))),
        Some(id) => {
            match find_slot(slots, id) {
                Some(s) => {
                    if !s.enabled {
                        return (sel2, Err(String::from_str("Enable this layer before painting")));
                    }
                },
                None => {},
            }
            (sel2, Ok(id))
        },
    }
}

proof fn lemma_top_slot_listed(slots: Seq<LayerSlot>, enabled_only: bool)
    ensures
        top_slot(slots, enabled_only) matches Some(t) ==> slots.contains(t) && (enabled_only ==> t.enabled),
        top_slot(slots, enabled_only) is None ==> forall|i: int|
            0 <= i < slots.len() ==> enabled_only && !(#[trigger] slots[i]).enabled,
    decreases slots.len(),
{
    if slots.len() > 0 {
        let rest = slots.drop_last();
        lemma_top_slot_listed(rest, enabled_only);
        if let Some(t) = top_slot(rest, enabled_only) {
            let i = choose|i: int| 0 <= i < rest.len() && rest[i] == t;
            assert(slots[i] == t);
        }
        assert(slots[slots.len() - 1] == slots.last());
        assert forall|i: int| 0 <= i < rest.len() implies rest[i] == slots[i] by {}
    }
}

/// After reconciliation the inspector's selection is a layer of the definition (none only when
/// the definition has no layers), a listed selection on the same space is kept, and a form that
/// stays open belongs to the selected layer of the definition shown.
pub proof fn law_reconciled_form_belongs_to_selection(
    shown: Option<WorldSpaceId>,
    selected: Option<LayerId>,
    form: Option<DefinitionForm>,
    space: Option<WorldSpaceId>,
    definition: u64,
    slots: Seq<LayerSlot>,
)
    ensures
        reconciled_selection(shown, selected, form, space, definition, slots).1 matches Some(f) ==> f.layer
            == reconciled_selection(shown, selected, form, space, definition, slots).0 && f.original == definition,
        reconciled_selection(shown, selected, form, space, definition, slots).0 matches Some(id) ==> has_slot(
            slots,
            id,
        ),
        reconciled_selection(shown, selected, form, space, definition, slots).0 is None ==> slots.len() == 0,
        (shown == space && selected is Some && has_slot(slots, selected->0)) ==> reconciled_selection(
            shown,
            selected,
            form,
            space,
            definition,
            slots,
        ).0 == selected,
{
    lemma_top_slot_listed(slots, false);
    if let Some(t) = top_slot(slots, false) {
        let i = choose|i: int| 0 <= i < slots.len() && slots[i] == t;
        assert(slots[i].id == t.id);
    } else if slots.len() > 0 {
        assert(!(false && !slots[0].enabled));
    }
}

/// The layer a stroke paints is an enabled layer of the definition; painting is refused only
/// when the selected layer is disabled or no layer is enabled.
pub proof fn law_paint_layer_is_enabled(
    shown: Option<WorldSpaceId>,
    selected: Option<LayerId>,
    space: WorldSpaceId,
    slots: Seq<LayerSlot>,
)
    ensures
        paint_layer_choice(shown, selected, space, slots).1 matches Ok(id) ==> paint_layer_choice(
            shown,
            selected,
            space,
            slots,
        ).0 == Some(id) && has_slot(slots, id) && slot_of(slots, id).enabled,
        (forall|a: int, b: int| 0 <= a < b < slots.len() ==> slots[a].id != slots[b].id) && (exists|i: int|
            0 <= i < slots.len() && (#[trigger] slots[i]).enabled) && (selected is None || shown != Some(space))
            ==> paint_layer_choice(shown, selected, space, slots).1 is Ok,
{
    lemma_top_slot_listed(slots, true);
    if let Some(t) = top_slot(slots, true) {
        let i = choose|i: int| 0 <= i < slots.len() && slots[i] == t;
        assert(slots[i].id == t.id);
        lemma_slot_of_first(slots, t.id);
        let j = choose|j: int| 0 <= j < slots.len() && slots[j] == slot_of(slots, t.id);
        if forall|a: int, b: int| 0 <= a < b < slots.len() ==> slots[a].id != slots[b].id {
            assert(j == i);
        }
    } else {
        if exists|i: int| 0 <= i < slots.len() && (#[trigger] slots[i]).enabled {
            let i = choose|i: int| 0 <= i < slots.len() && (#[trigger] slots[i]).enabled;
            assert(!slots[i].enabled);
        }
    }
    if let Ok(id) = paint_layer_choice(shown, selected, space, slots).1 {
        lemma_slot_of_first(slots, id);
    }
}

proof fn lemma_slot_of_first(slots: Seq<LayerSlot>, id: LayerId)
    requires
        has_slot(slots, id),
    ensures
        slots.contains(slot_of(slots, id)),
        slot_of(slots, id).id == id,
    decreases slots.len(),
{
    if slots[0].id != id {
        let i = choose|i: int| 0 <= i < slots.len() && slots[i].id == id;
        assert(slots.drop_first()[i - 1].id == id);
        lemma_slot_of_first(slots.drop_first(), id);
        let j = choose|j: int| 0 <= j < slots.drop_first().len() && slots.drop_first()[j] == slot_of(slots.drop_first(), id);
        assert(slots[j + 1] == slot_of(slots, id));
    } else {
        assert(slots[0] == slot_of(slots, id));
    }
}

} // verus!
