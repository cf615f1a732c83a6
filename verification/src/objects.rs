//! The object working set: the saved, local and cooked-runtime version of every object the
//! session touched, keyed by stable identity, with one save transaction at a time, conflicts,
//! recovery snapshots, and the selection that edits go through.

use vstd::prelude::*;
use crate::assoc::{has_key, keys_unique};
use crate::commands::{editor_command_bytes, EditorCommand};
use crate::history::{record_model, EditorHistory, HistoryEntry};
use crate::project_store::{next_id, ProjectEditorStore};
use crate::ranked::{sort_by_rank, sort_ranked, Rank};
use crate::text::{append_decimal, append_signed, decimal, signed_decimal};
use crate::world::{CellCoord, StableObjectId, WorldSpaceId};

verus! {

/// Where an object stands: its world space and owner cell, with its placement inside the cell
/// (translation, yaw and scale) held by content.
#[derive(Clone, Copy, Debug, PartialEq, Eq, Structural)]
pub struct ObjectTransform {
    pub space: WorldSpaceId,
    pub owner_cell: CellCoord,
    pub placement: u64,
}

/// The source record of an object.
#[derive(Clone, Copy, Debug, PartialEq, Eq, Structural)]
pub struct SourceObjectRecord {
    pub id: StableObjectId,
    pub definition: u128,
    pub transform: ObjectTransform,
    pub source_revision: i64,
}

/// An object as the editor shows it: its record and, held by content, its presentation (the
/// definition record, visual and bounds).
#[derive(Clone, Copy, Debug, PartialEq, Eq, Structural)]
pub struct SourceObjectViewRecord {
    pub object: SourceObjectRecord,
    pub presentation: u64,
}

/// Where the save of one object stands.
#[derive(Debug)]
pub enum EditorSaveState {
    Idle,
    Saving(u64),
    Saved(i64),
    Conflict(Option<SourceObjectRecord>),
    Failed(String),
}

/// The presentation and the saved, local and runtime version of one object; `None` is an
/// absent object.
#[derive(Debug)]
pub struct ObjectEditEntry {
    pub presentation: SourceObjectViewRecord,
    pub base: Option<SourceObjectRecord>,
    pub current: Option<SourceObjectRecord>,
    pub runtime: Option<SourceObjectRecord>,
    pub save_state: EditorSaveState,
}

/// A recovery snapshot of one edited object.
#[derive(Clone, Copy, Debug, PartialEq, Eq, Structural)]
pub struct DirtyObjectSnapshot {
    pub presentation: SourceObjectViewRecord,
    pub base: Option<SourceObjectRecord>,
    pub current: Option<SourceObjectRecord>,
}

/// One write of an object save transaction.
#[derive(Clone, Copy, Debug, PartialEq, Eq, Structural)]
pub enum SourceObjectWrite {
    UpdateTransform { object: StableObjectId, expected_source_revision: i64, transform: ObjectTransform },
    Delete { object: StableObjectId, expected_source_revision: i64 },
    Create { object: SourceObjectRecord },
}

/// What the database committed for one write.
#[derive(Clone, Copy, Debug, PartialEq, Eq, Structural)]
pub enum SourceObjectWriteCommit {
    Updated(SourceObjectRecord),
    Deleted(StableObjectId),
}

/// What the database answered to an object save transaction.
#[derive(Debug)]
pub enum ObjectSaveOutcome {
    Committed(Vec<SourceObjectWriteCommit>),
    Conflict { object: StableObjectId, actual: Option<SourceObjectRecord> },
    Failed(String),
}

/// The abstract state of the object working set.
pub struct ObjectsView {
    pub entries: Seq<(StableObjectId, ObjectEditEntry)>,
    pub edit_revision: u64,
    pub active_save: Option<(u64, Seq<StableObjectId>)>,
}

/// The local version differs from the saved one.
pub open spec fn is_dirty(e: ObjectEditEntry) -> bool {
    e.current != e.base
}

/// The local version differs from what the runtime shows.
pub open spec fn runtime_differs(e: ObjectEditEntry) -> bool {
    e.current != e.runtime
}

/// The entry's save met a conflict.
pub open spec fn has_conflict_state(e: ObjectEditEntry) -> bool {
    e.save_state is Conflict
}

/// The entry's save is in flight.
pub open spec fn saving_state(e: ObjectEditEntry) -> bool {
    e.save_state is Saving
}

/// The object as the editor shows it, while it exists locally.
pub open spec fn entry_view(e: ObjectEditEntry) -> Option<SourceObjectViewRecord> {
    match e.current {
        Some(o) => Some(SourceObjectViewRecord { object: o, ..e.presentation }),
        None => None,
    }
}

/// The position of a key in the entries.
pub open spec fn key_index(s: Seq<(StableObjectId, ObjectEditEntry)>, k: StableObjectId) -> int {
    choose|i: int| 0 <= i < s.len() && s[i].0 == k
}

/// The entry of a key that is present.
pub open spec fn entry_of(s: Seq<(StableObjectId, ObjectEditEntry)>, k: StableObjectId) -> ObjectEditEntry {
    s[key_index(s, k)].1
}

/// The entries with the key's entry set: in place when the key is present, else at the end.
pub open spec fn put_entry(
    s: Seq<(StableObjectId, ObjectEditEntry)>,
    k: StableObjectId,
    e: ObjectEditEntry,
) -> Seq<(StableObjectId, ObjectEditEntry)> {
    if has_key(s, k) {
        s.update(key_index(s, k), (k, e))
    } else {
        s.push((k, e))
    }
}

/// The number of entries whose value satisfies `p`.
pub open spec fn count_entries(s: Seq<(StableObjectId, ObjectEditEntry)>, p: spec_fn(ObjectEditEntry) -> bool) -> nat
    decreases s.len(),
{
    if s.len() == 0 {
        0
    } else {
        count_entries(s.drop_last(), p) + if p(s.last().1) {
            1nat
        } else {
            0nat
        }
    }
}

/// The working set after a change: its revision moves on.
pub open spec fn bumped(s: ObjectsView) -> ObjectsView {
    ObjectsView { edit_revision: next_id(s.edit_revision), ..s }
}

/// The objects shown by the entries, in entry order: every one, or with `filtered` only the
/// selected ones and those whose local version differs from what the runtime shows.
pub open spec fn views_where(
    s: Seq<(StableObjectId, ObjectEditEntry)>,
    selected: Seq<StableObjectId>,
    filtered: bool,
) -> Seq<SourceObjectViewRecord>
    decreases s.len(),
{
    if s.len() == 0 {
        Seq::empty()
    } else {
        let rest = views_where(s.drop_last(), selected, filtered);
        let (id, e) = s.last();
        if (!filtered || selected.contains(id) || runtime_differs(e)) && entry_view(e) is Some {
            rest.push(entry_view(e)->0)
        } else {
            rest
        }
    }
}

fn contains_id(ids: &[StableObjectId], id: StableObjectId) -> (r: bool)
    ensures
        r == ids@.contains(id),
{
    let mut i: usize = 0;
    while i < ids.len()
        invariant
            i <= ids@.len(),
            forall|j: int| 0 <= j < i ==> ids@[j] != id,
        decreases ids@.len() - i,
    {
        if ids[i] == id {
            assert(ids@[i as int] == id);
            return true;
        }
        i = i + 1;
    }
    false
}

/// No identity occurs twice.
pub open spec fn distinct(ids: Seq<StableObjectId>) -> bool {
    forall|i: int, j: int| 0 <= i < ids.len() && 0 <= j < ids.len() && i != j ==> ids[i] != ids[j]
}

/// The object exists locally without a conflict.
pub open spec fn editable(s: Seq<(StableObjectId, ObjectEditEntry)>, id: StableObjectId) -> bool {
    has_key(s, id) && entry_of(s, id).current is Some && !has_conflict_state(entry_of(s, id))
}

/// The object is deleted locally without a conflict.
pub open spec fn restorable(s: Seq<(StableObjectId, ObjectEditEntry)>, id: StableObjectId) -> bool {
    has_key(s, id) && entry_of(s, id).current is None && !has_conflict_state(entry_of(s, id))
}

/// The first value given for an identity.
pub open spec fn first_for<T>(items: Seq<(StableObjectId, T)>, id: StableObjectId) -> Option<T>
    decreases items.len(),
{
    if items.len() == 0 {
        None
    } else if items[0].0 == id {
        Some(items[0].1)
    } else {
        first_for(items.drop_first(), id)
    }
}

/// The transforms may be applied: distinct, editable objects.
pub open spec fn transforms_valid(s: Seq<(StableObjectId, ObjectEditEntry)>, ts: Seq<(StableObjectId, ObjectTransform)>) -> bool {
    &&& distinct(ts.map_values(|p: (StableObjectId, ObjectTransform)| p.0))
    &&& forall|i: int| 0 <= i < ts.len() ==> editable(s, #[trigger] ts[i].0)
}

/// Some transform moves its object.
pub open spec fn transforms_change(s: Seq<(StableObjectId, ObjectEditEntry)>, ts: Seq<(StableObjectId, ObjectTransform)>) -> bool {
    exists|i: int| 0 <= i < ts.len() && entry_of(s, #[trigger] ts[i].0).current->0.transform != ts[i].1
}

/// The entry with its local version moved by the transform.
pub open spec fn moved_entry(e: ObjectEditEntry, t: ObjectTransform) -> ObjectEditEntry {
    ObjectEditEntry {
        current: Some(SourceObjectRecord { transform: t, ..e.current->0 }),
        save_state: EditorSaveState::Idle,
        ..e
    }
}

/// Every entry with a transform moved by it.
pub open spec fn transformed(s: Seq<(StableObjectId, ObjectEditEntry)>, ts: Seq<(StableObjectId, ObjectTransform)>) -> Seq<(StableObjectId, ObjectEditEntry)> {
    s.map_values(
        |p: (StableObjectId, ObjectEditEntry)| match first_for(ts, p.0) {
            Some(t) => (p.0, moved_entry(p.1, t)),
            None => p,
        },
    )
}

/// The records' identities.
pub open spec fn record_ids(objects: Seq<SourceObjectRecord>) -> Seq<StableObjectId> {
    objects.map_values(|o: SourceObjectRecord| o.id)
}

/// The records keyed by identity.
pub open spec fn keyed(objects: Seq<SourceObjectRecord>) -> Seq<(StableObjectId, SourceObjectRecord)> {
    objects.map_values(|o: SourceObjectRecord| (o.id, o))
}

/// Every entry of a given record brought back to it.
pub open spec fn restored_all(s: Seq<(StableObjectId, ObjectEditEntry)>, objects: Seq<SourceObjectRecord>) -> Seq<(StableObjectId, ObjectEditEntry)> {
    s.map_values(
        |p: (StableObjectId, ObjectEditEntry)| match first_for(keyed(objects), p.0) {
            Some(o) => (p.0, ObjectEditEntry { current: Some(o), save_state: EditorSaveState::Idle, ..p.1 }),
            None => p,
        },
    )
}

/// Every listed entry deleted locally.
pub open spec fn deleted_all(s: Seq<(StableObjectId, ObjectEditEntry)>, ids: Seq<StableObjectId>) -> Seq<(StableObjectId, ObjectEditEntry)> {
    s.map_values(
        |p: (StableObjectId, ObjectEditEntry)| if ids.contains(p.0) {
            (p.0, ObjectEditEntry { current: None, save_state: EditorSaveState::Idle, ..p.1 })
        } else {
            p
        },
    )
}

/// Every edited entry brought back to its saved version.
pub open spec fn discarded_all(s: Seq<(StableObjectId, ObjectEditEntry)>) -> Seq<(StableObjectId, ObjectEditEntry)> {
    s.map_values(
        |p: (StableObjectId, ObjectEditEntry)| if is_dirty(p.1) {
            (p.0, ObjectEditEntry { current: p.1.base, save_state: EditorSaveState::Idle, ..p.1 })
        } else {
            p
        },
    )
}

/// The message describing where an object stands.
pub open spec fn status_message(s: Seq<(StableObjectId, ObjectEditEntry)>, id: StableObjectId) -> Seq<char> {
    if !has_key(s, id) {
        "Object is not in the editor working set"@
    } else {
        let e = entry_of(s, id);
        match e.save_state {
            EditorSaveState::Idle => if e.current is None {
                "Unsaved deletion command"@
            } else if is_dirty(e) {
                "Unsaved object command"@
            } else {
                "No local changes"@
            },
            EditorSaveState::Saving(r) => "Saving object transaction "@ + decimal(r as nat) + "\u{2026}"@,
            EditorSaveState::Saved(v) => "Saved source revision "@ + signed_decimal(v as int)
                + "; cooked runtime data is unchanged"@,
            EditorSaveState::Conflict(Some(a)) => "Conflict: database is at revision "@ + signed_decimal(
                a.source_revision as int,
            ) + "; local command was preserved"@,
            EditorSaveState::Conflict(None) => "Conflict: object was deleted; local command was preserved"@,
            EditorSaveState::Failed(e) => "Save failed: "@ + e@,
        }
    }
}

/// The entry after its conflict was resolved by reloading the database's version.
pub open spec fn reloaded_entry(e: ObjectEditEntry, actual: Option<SourceObjectRecord>) -> ObjectEditEntry {
    ObjectEditEntry {
        base: actual,
        current: actual,
        presentation: match actual {
            Some(a) => SourceObjectViewRecord { object: a, ..e.presentation },
            None => e.presentation,
        },
        save_state: EditorSaveState::Idle,
        ..e
    }
}

/// The entry after its conflict was resolved by rebasing the local version on the database's
/// version: the local version keeps its placement but takes the actual definition.
pub open spec fn rebased_entry(e: ObjectEditEntry, actual: Option<SourceObjectRecord>) -> ObjectEditEntry {
    match (e.current, actual) {
        (Some(c), Some(a)) => ObjectEditEntry {
            base: actual,
            current: Some(SourceObjectRecord { definition: a.definition, ..c }),
            presentation: SourceObjectViewRecord { object: a, ..e.presentation },
            save_state: EditorSaveState::Idle,
            ..e
        },
        _ => ObjectEditEntry { base: actual, save_state: EditorSaveState::Idle, ..e },
    }
}

/// The sort key of an object: its identity.
pub open spec fn object_rank(id: StableObjectId) -> Rank {
    (0u8, id.0)
}

/// The write that saves an edited entry.
pub open spec fn object_write(id: StableObjectId, e: ObjectEditEntry) -> SourceObjectWrite {
    match (e.base, e.current) {
        (Some(b), Some(c)) => SourceObjectWrite::UpdateTransform {
            object: id,
            expected_source_revision: b.source_revision,
            transform: c.transform,
        },
        (Some(b), None) => SourceObjectWrite::Delete { object: id, expected_source_revision: b.source_revision },
        (None, Some(c)) => SourceObjectWrite::Create { object: c },
        (None, None) => SourceObjectWrite::Delete { object: id, expected_source_revision: 0 },
    }
}

/// The writes of the edited entries, in entry order, each with its object and sort key.
pub open spec fn save_candidates(s: Seq<(StableObjectId, ObjectEditEntry)>) -> Seq<(Rank, (StableObjectId, SourceObjectWrite))>
    decreases s.len(),
{
    if s.len() == 0 {
        Seq::empty()
    } else {
        let rest = save_candidates(s.drop_last());
        let (id, e) = s.last();
        if is_dirty(e) {
            rest.push((object_rank(id), (id, object_write(id, e))))
        } else {
            rest
        }
    }
}

/// The writes one transaction carries: the first `max_writes` edited objects by identity.
pub open spec fn selected_writes(s: Seq<(StableObjectId, ObjectEditEntry)>, max_writes: nat) -> Seq<(StableObjectId, SourceObjectWrite)> {
    let sorted = sort_by_rank(save_candidates(s));
    let n = if max_writes < sorted.len() { max_writes } else { sorted.len() };
    sorted.take(n as int).map_values(|p: (Rank, (StableObjectId, SourceObjectWrite))| p.1)
}

/// Every selected entry saving in the request.
pub open spec fn marked_saving(s: Seq<(StableObjectId, ObjectEditEntry)>, ids: Seq<StableObjectId>, request_id: u64) -> Seq<(StableObjectId, ObjectEditEntry)> {
    s.map_values(
        |p: (StableObjectId, ObjectEditEntry)| if ids.contains(p.0) {
            (p.0, ObjectEditEntry { save_state: EditorSaveState::Saving(request_id), ..p.1 })
        } else {
            p
        },
    )
}

/// One committed write applied: an updated object becomes the saved and local version and
/// is saved at its revision; a deleted one is gone, saved one revision after its last saved
/// version.
pub open spec fn commit_step(t: Seq<(StableObjectId, ObjectEditEntry)>, c: SourceObjectWriteCommit) -> Seq<(StableObjectId, ObjectEditEntry)> {
    match c {
        SourceObjectWriteCommit::Updated(o) => if has_key(t, o.id) {
            let e = entry_of(t, o.id);
            t.update(
                key_index(t, o.id),
                (o.id, ObjectEditEntry {
                    base: Some(o),
                    current: Some(o),
                    presentation: SourceObjectViewRecord { object: o, ..e.presentation },
                    save_state: EditorSaveState::Saved(o.source_revision),
                    ..e
                }),
            )
        } else {
            t
        },
        SourceObjectWriteCommit::Deleted(id) => if has_key(t, id) {
            let e = entry_of(t, id);
            let revision = match e.base {
                Some(b) => if b.source_revision == i64::MAX { i64::MAX } else { (b.source_revision + 1) as i64 },
                None => 0i64,
            };
            t.update(
                key_index(t, id),
                (id, ObjectEditEntry { base: None, current: None, save_state: EditorSaveState::Saved(revision), ..e }),
            )
        } else {
            t
        },
    }
}

/// The committed writes applied in order.
pub open spec fn apply_commits(t: Seq<(StableObjectId, ObjectEditEntry)>, commits: Seq<SourceObjectWriteCommit>) -> Seq<(StableObjectId, ObjectEditEntry)>
    decreases commits.len(),
{
    if commits.len() == 0 {
        t
    } else {
        commit_step(apply_commits(t, commits.drop_last()), commits.last())
    }
}

/// Every object of the request settled with the answer: the named one, if any, gets `named`,
/// the others `others`.
pub open spec fn settled(
    s: Seq<(StableObjectId, ObjectEditEntry)>,
    ids: Seq<StableObjectId>,
    named: Option<StableObjectId>,
    named_state: EditorSaveState,
    others: EditorSaveState,
) -> Seq<(StableObjectId, ObjectEditEntry)> {
    s.map_values(
        |p: (StableObjectId, ObjectEditEntry)| if ids.contains(p.0) {
            (p.0, ObjectEditEntry { save_state: if named == Some(p.0) { named_state } else { others }, ..p.1 })
        } else {
            p
        },
    )
}

/// What the answer to the save in flight does to the entries.
pub open spec fn finished_entries(
    s: Seq<(StableObjectId, ObjectEditEntry)>,
    ids: Seq<StableObjectId>,
    outcome: ObjectSaveOutcome,
) -> Seq<(StableObjectId, ObjectEditEntry)> {
    match outcome {
        ObjectSaveOutcome::Committed(commits) => apply_commits(s, commits@),
        ObjectSaveOutcome::Conflict { object, actual } => settled(s, ids, Some(object), EditorSaveState::Conflict(actual), EditorSaveState::Idle),
        ObjectSaveOutcome::Failed(e) => settled(s, ids, None, EditorSaveState::Failed(e), EditorSaveState::Failed(e)),
    }
}

/// The snapshots of the edited entries, in entry order, each ranked by its object.
pub open spec fn dirty_ranked(s: Seq<(StableObjectId, ObjectEditEntry)>) -> Seq<(Rank, DirtyObjectSnapshot)>
    decreases s.len(),
{
    if s.len() == 0 {
        Seq::empty()
    } else {
        let rest = dirty_ranked(s.drop_last());
        let e = s.last().1;
        if is_dirty(e) {
            rest.push(
                (object_rank(e.presentation.object.id), DirtyObjectSnapshot { presentation: e.presentation, base: e.base, current: e.current }),
            )
        } else {
            rest
        }
    }
}

/// The recovery snapshots of the edited entries, by the identity of their object.
pub open spec fn dirty_snapshot_list(s: Seq<(StableObjectId, ObjectEditEntry)>) -> Seq<DirtyObjectSnapshot> {
    sort_by_rank(dirty_ranked(s)).map_values(|p: (Rank, DirtyObjectSnapshot)| p.1)
}

/// What moving objects does: the moved entries and whether the move was made.
pub open spec fn transforms_model(s: ObjectsView, ts: Seq<(StableObjectId, ObjectTransform)>) -> (ObjectsView, bool) {
    if s.active_save is None && ts.len() > 0 && transforms_valid(s.entries, ts) && transforms_change(s.entries, ts) {
        (bumped(ObjectsView { entries: transformed(s.entries, ts), ..s }), true)
    } else {
        (s, false)
    }
}

/// What bringing deleted objects back does.
pub open spec fn restore_model(s: ObjectsView, objects: Seq<SourceObjectRecord>) -> (ObjectsView, bool) {
    if s.active_save is None && objects.len() > 0 && distinct(record_ids(objects)) && forall|i: int|
        0 <= i < objects.len() ==> restorable(s.entries, #[trigger] objects[i].id) {
        (bumped(ObjectsView { entries: restored_all(s.entries, objects), ..s }), true)
    } else {
        (s, false)
    }
}

/// What deleting objects does, and the local versions it hands back.
pub open spec fn delete_model(s: ObjectsView, ids: Seq<StableObjectId>) -> (ObjectsView, Option<Seq<SourceObjectRecord>>) {
    if s.active_save is None && ids.len() > 0 && distinct(ids) && forall|i: int| 0 <= i < ids.len() ==> editable(s.entries, #[trigger] ids[i]) {
        (
            bumped(ObjectsView { entries: deleted_all(s.entries, ids), ..s }),
            Some(ids.map_values(|id: StableObjectId| entry_of(s.entries, id).current->0)),
        )
    } else {
        (s, None)
    }
}

/// The position of the first occurrence of an identity.
pub open spec fn first_index(s: Seq<StableObjectId>, id: StableObjectId) -> int {
    choose|i: int| 0 <= i < s.len() && s[i] == id && forall|j: int| 0 <= j < i ==> s[j] != id
}

/// The selection after toggling an object: a selected object is taken out, and when it was
/// active the last remaining one becomes active; another object is added and becomes active.
pub open spec fn toggled_selection(s: SelectionView, id: StableObjectId) -> SelectionView {
    if s.selected.contains(id) {
        let rest = s.selected.remove(first_index(s.selected, id));
        SelectionView {
            selected: rest,
            active: if s.active == Some(id) {
                if rest.len() > 0 { Some(rest.last()) } else { None }
            } else {
                s.active
            },
        }
    } else {
        SelectionView { selected: s.selected.push(id), active: Some(id) }
    }
}

pub proof fn lemma_first_index(s: Seq<StableObjectId>, id: StableObjectId, i: int)
    requires
        0 <= i < s.len(),
        s[i] == id,
        forall|j: int| 0 <= j < i ==> s[j] != id,
    ensures
        s.contains(id),
        first_index(s, id) == i,
{
    assert(s.contains(id));
    let k = first_index(s, id);
    assert(0 <= k < s.len() && s[k] == id && forall|j: int| 0 <= j < k ==> s[j] != id);
}

pub proof fn lemma_first_index_absent(s: Seq<StableObjectId>, id: StableObjectId)
    requires
        forall|j: int| 0 <= j < s.len() ==> s[j] != id,
    ensures
        !s.contains(id),
{
}

/// The object exists locally, so the editor shows it.
pub open spec fn shown(s: Seq<(StableObjectId, ObjectEditEntry)>, id: StableObjectId) -> bool {
    has_key(s, id) && entry_of(s, id).current is Some
}

/// The moves that change something, each with the transform it leaves; `after` says whether
/// the given transforms are the new ones or the old ones.
pub open spec fn change_list(
    s: Seq<(StableObjectId, ObjectEditEntry)>,
    ts: Seq<(StableObjectId, ObjectTransform)>,
    after: bool,
) -> Seq<ObjectTransformChange>
    decreases ts.len(),
{
    if ts.len() == 0 {
        Seq::empty()
    } else {
        let rest = change_list(s, ts.drop_last(), after);
        let (id, t) = ts.last();
        let shown_transform = entry_of(s, id).current->0.transform;
        if shown_transform != t {
            rest.push(
                if after {
                    ObjectTransformChange { object: id, before: shown_transform, after: t }
                } else {
                    ObjectTransformChange { object: id, before: t, after: shown_transform }
                },
            )
        } else {
            rest
        }
    }
}

/// The given moves name distinct objects that the editor shows.
pub open spec fn moves_shown(s: Seq<(StableObjectId, ObjectEditEntry)>, ts: Seq<(StableObjectId, ObjectTransform)>) -> bool {
    &&& distinct(ts.map_values(|p: (StableObjectId, ObjectTransform)| p.0))
    &&& forall|i: int| 0 <= i < ts.len() ==> shown(s, #[trigger] ts[i].0)
}

/// The object working set's invariant: keys are distinct.
pub open spec fn objects_inv(s: ObjectsView) -> bool {
    keys_unique(s.entries)
}

pub proof fn lemma_key_index(s: Seq<(StableObjectId, ObjectEditEntry)>, i: int)
    requires
        keys_unique(s),
        0 <= i < s.len(),
    ensures
        has_key(s, s[i].0),
        key_index(s, s[i].0) == i,
{
    assert(has_key(s, s[i].0));
    let j = key_index(s, s[i].0);
    assert(0 <= j < s.len() && s[j].0 == s[i].0);
}

pub proof fn lemma_update_unique(s: Seq<(StableObjectId, ObjectEditEntry)>, i: int, p: (StableObjectId, ObjectEditEntry))
    requires
        keys_unique(s),
        0 <= i < s.len(),
        p.0 == s[i].0,
    ensures
        keys_unique(s.update(i, p)),
{
    let t = s.update(i, p);
    assert forall|a: int, b: int| 0 <= a < t.len() && 0 <= b < t.len() && a != b implies t[a].0 != t[b].0 by {
        assert(t[a].0 == s[a].0);
        assert(t[b].0 == s[b].0);
    }
}

pub proof fn lemma_push_unique(s: Seq<(StableObjectId, ObjectEditEntry)>, p: (StableObjectId, ObjectEditEntry))
    requires
        keys_unique(s),
        !has_key(s, p.0),
    ensures
        keys_unique(s.push(p)),
{
    let t = s.push(p);
    assert forall|a: int, b: int| 0 <= a < t.len() && 0 <= b < t.len() && a != b implies t[a].0 != t[b].0 by {
        if a < s.len() && b < s.len() {
        } else if a < s.len() {
            assert(s[a].0 != p.0);
        } else {
            assert(s[b].0 != p.0);
        }
    }
}

pub proof fn lemma_count_step(s: Seq<(StableObjectId, ObjectEditEntry)>, i: int, p: spec_fn(ObjectEditEntry) -> bool)
    requires
        0 <= i < s.len(),
    ensures
        count_entries(s.take(i + 1), p) == count_entries(s.take(i), p) + if p(s[i].1) {
            1nat
        } else {
            0nat
        },
{
    assert(s.take(i + 1).drop_last() =~= s.take(i));
}

fn same_object(a: &Option<SourceObjectRecord>, b: &Option<SourceObjectRecord>) -> (r: bool)
    ensures
        r == (*a == *b),
{
    match (a, b) {
        (None, None) => true,
        (Some(x), Some(y)) => *x == *y,
        _ => false,
    }
}

fn entry_dirty(e: &ObjectEditEntry) -> (r: bool)
    ensures
        r == is_dirty(*e),
{
    !same_object(&e.current, &e.base)
}

fn entry_conflict(e: &ObjectEditEntry) -> (r: bool)
    ensures
        r == has_conflict_state(*e),
{
    matches!(e.save_state, EditorSaveState::Conflict(_))
}

fn view_of(e: &ObjectEditEntry) -> (r: Option<SourceObjectViewRecord>)
    ensures
        r == entry_view(*e),
{
    match e.current {
        Some(o) => Some(SourceObjectViewRecord { object: o, ..e.presentation }),
        None => None,
    }
}

fn find_entry(entries: &Vec<(StableObjectId, ObjectEditEntry)>, key: StableObjectId) -> (r: Option<usize>)
    requires
        keys_unique(entries@),
    ensures
        match r {
            Some(i) => i < entries@.len() && entries@[i as int].0 == key && has_key(entries@, key)
                && key_index(entries@, key) == i,
            None => !has_key(entries@, key),
        },
{
    let mut i: usize = 0;
    while i < entries.len()
        invariant
            i <= entries@.len(),
            keys_unique(entries@),
            forall|j: int| 0 <= j < i ==> entries@[j].0 != key,
        decreases entries@.len() - i,
    {
        if entries[i].0 == key {
            proof {
                lemma_key_index(entries@, i as int);
            }
            return Some(i);
        }
        i = i + 1;
    }
    None
}

fn clone_text(s: &String) -> (r: String)
    ensures
        r == *s,
{
    s.clone()
}

fn clone_state(s: &EditorSaveState) -> (r: EditorSaveState)
    ensures
        r == *s,
{
    match s {
        EditorSaveState::Idle => EditorSaveState::Idle,
        EditorSaveState::Saving(id) => EditorSaveState::Saving(*id),
        EditorSaveState::Saved(r) => EditorSaveState::Saved(*r),
        EditorSaveState::Conflict(actual) => EditorSaveState::Conflict(*actual),
        EditorSaveState::Failed(e) => EditorSaveState::Failed(clone_text(e)),
    }
}

/// A fresh entry for an object loaded from the source: saved, local and runtime agree.
pub open spec fn from_source(fresh: SourceObjectViewRecord) -> ObjectEditEntry {
    ObjectEditEntry {
        presentation: fresh,
        base: Some(fresh.object),
        current: Some(fresh.object),
        runtime: Some(fresh.object),
        save_state: EditorSaveState::Idle,
    }
}

/// A fresh entry for an object created in the session: nothing saved or cooked yet.
pub open spec fn from_created(record: SourceObjectViewRecord) -> ObjectEditEntry {
    ObjectEditEntry {
        presentation: record,
        base: None,
        current: Some(record.object),
        runtime: None,
        save_state: EditorSaveState::Idle,
    }
}

/// What pinning a freshly loaded object does: its presentation is refreshed; an entry that is
/// not edited or saving takes a newer saved version; an unknown object gets a fresh entry.
pub open spec fn pin_model(s: ObjectsView, fresh: SourceObjectViewRecord) -> ObjectsView {
    let id = fresh.object.id;
    if has_key(s.entries, id) {
        let i = key_index(s.entries, id);
        let e = entry_of(s.entries, id);
        let presented = ObjectEditEntry {
            presentation: SourceObjectViewRecord { presentation: fresh.presentation, ..e.presentation },
            ..e
        };
        if !is_dirty(e) && !(e.save_state is Saving) && (e.base is None || fresh.object.source_revision
            > e.base->0.source_revision) {
            bumped(
                ObjectsView {
                    entries: s.entries.update(
                        i,
                        (id, ObjectEditEntry {
                            base: Some(fresh.object),
                            current: Some(fresh.object),
                            save_state: EditorSaveState::Idle,
                            ..presented
                        }),
                    ),
                    ..s
                },
            )
        } else {
            ObjectsView { entries: s.entries.update(i, (id, presented)), ..s }
        }
    } else {
        bumped(ObjectsView { entries: s.entries.push((id, from_source(fresh))), ..s })
    }
}

/// A snapshot that may be restored: both versions are of its object and definition, and they
/// differ.
pub open spec fn snapshot_fits(snapshot: DirtyObjectSnapshot) -> bool {
    let id = snapshot.presentation.object.id;
    let definition = snapshot.presentation.object.definition;
    &&& (snapshot.base matches Some(b) ==> b.id == id && b.definition == definition)
    &&& (snapshot.current matches Some(c) ==> c.id == id && c.definition == definition)
    &&& snapshot.base != snapshot.current
}

/// The entry of a restored snapshot: its saved version is also what the runtime shows.
pub open spec fn snapshot_entry(snapshot: DirtyObjectSnapshot) -> ObjectEditEntry {
    ObjectEditEntry {
        presentation: snapshot.presentation,
        base: snapshot.base,
        current: snapshot.current,
        runtime: snapshot.base,
        save_state: EditorSaveState::Idle,
    }
}

/// The entry after a newly adopted runtime generation: the runtime shows the saved version,
/// and a clean saved entry goes idle.
pub open spec fn adopted_entry(e: ObjectEditEntry) -> ObjectEditEntry {
    let r = ObjectEditEntry { runtime: e.base, ..e };
    if !is_dirty(r) && r.save_state is Saved {
        ObjectEditEntry { save_state: EditorSaveState::Idle, ..r }
    } else {
        r
    }
}

/// Every entry after a newly adopted runtime generation.
pub open spec fn adopt_all(s: Seq<(StableObjectId, ObjectEditEntry)>) -> Seq<(StableObjectId, ObjectEditEntry)> {
    s.map_values(|p: (StableObjectId, ObjectEditEntry)| (p.0, adopted_entry(p.1)))
}

/// The entry's runtime lags its saved version.
pub open spec fn runtime_lags(e: ObjectEditEntry) -> bool {
    e.runtime != e.base
}


fn literal(s: &str) -> (r: String)
    ensures
        r@ == s@,
{
    s.to_owned()
}

fn transform_for(ts: &[(StableObjectId, ObjectTransform)], id: StableObjectId) -> (r: Option<ObjectTransform>)
    ensures
        r == first_for(ts@, id),
{
    let mut i: usize = 0;
    assert(ts@.skip(0) =~= ts@);
    while i < ts.len()
        invariant
            i <= ts@.len(),
            first_for(ts@, id) == first_for(ts@.skip(i as int), id),
        decreases ts@.len() - i,
    {
        proof {
            assert(ts@.skip(i as int).drop_first() =~= ts@.skip(i + 1));
            assert(ts@.skip(i as int)[0] == ts@[i as int]);
        }
        if ts[i].0 == id {
            return Some(ts[i].1);
        }
        i = i + 1;
    }
    assert(ts@.skip(i as int).len() == 0);
    None
}

fn record_for(objects: &[SourceObjectRecord], id: StableObjectId) -> (r: Option<SourceObjectRecord>)
    ensures
        r == first_for(keyed(objects@), id),
{
    let ghost k = keyed(objects@);
    let mut i: usize = 0;
    assert(k.skip(0) =~= k);
    while i < objects.len()
        invariant
            i <= objects@.len(),
            k == keyed(objects@),
            k.len() == objects@.len(),
            first_for(k, id) == first_for(k.skip(i as int), id),
        decreases objects@.len() - i,
    {
        proof {
            assert(k.skip(i as int).drop_first() =~= k.skip(i + 1));
            assert(k.skip(i as int)[0] == k[i as int]);
        }
        if objects[i].id == id {
            return Some(objects[i]);
        }
        i = i + 1;
    }
    assert(k.skip(i as int).len() == 0);
    None
}

fn ids_distinct(ids: &[StableObjectId]) -> (r: bool)
    ensures
        r == distinct(ids@),
{
    let mut i: usize = 0;
    while i < ids.len()
        invariant
            i <= ids@.len(),
            forall|a: int, b: int| 0 <= a < i && 0 <= b < ids@.len() && a != b ==> ids@[a] != ids@[b],
        decreases ids@.len() - i,
    {
        let mut j: usize = 0;
        while j < ids.len()
            invariant
                i < ids@.len(),
                j <= ids@.len(),
                forall|a: int, b: int| 0 <= a < i && 0 <= b < ids@.len() && a != b ==> ids@[a] != ids@[b],
                forall|b: int| 0 <= b < j && b != i ==> ids@[i as int] != ids@[b],
            decreases ids@.len() - j,
        {
            if j != i && ids[i] == ids[j] {
                return false;
            }
            j = j + 1;
        }
        i = i + 1;
    }
    true
}

fn state_text(e: &ObjectEditEntry) -> (r: String)
    ensures
        r@ == (match e.save_state {
            EditorSaveState::Idle => if e.current is None {
                "Unsaved deletion command"@
            } else if is_dirty(*e) {
                "Unsaved object command"@
            } else {
                "No local changes"@
            },
            EditorSaveState::Saving(r) => "Saving object transaction "@ + decimal(r as nat) + "\u{2026}"@,
            EditorSaveState::Saved(v) => "Saved source revision "@ + signed_decimal(v as int)
                + "; cooked runtime data is unchanged"@,
            EditorSaveState::Conflict(Some(a)) => "Conflict: database is at revision "@ + signed_decimal(
                a.source_revision as int,
            ) + "; local command was preserved"@,
            EditorSaveState::Conflict(None) => "Conflict: object was deleted; local command was preserved"@,
            EditorSaveState::Failed(f) => "Save failed: "@ + f@,
        }),
{
    match &e.save_state {
        EditorSaveState::Idle => {
            if e.current.is_none() {
                literal("Unsaved deletion command")
            } else if entry_dirty(e) {
                literal("Unsaved object command")
            } else {
                literal("No local changes")
            }
        },
        EditorSaveState::Saving(request) => {
            let mut t = literal("Saving object transaction ");
            append_decimal(&mut t, *request);
            t.append("\u{2026}");
            t
        },
        EditorSaveState::Saved(revision) => {
            let mut t = literal("Saved source revision ");
            append_signed(&mut t, *revision);
            t.append("; cooked runtime data is unchanged");
            t
        },
        EditorSaveState::Conflict(Some(actual)) => {
            let mut t = literal("Conflict: database is at revision ");
            append_signed(&mut t, actual.source_revision);
            t.append("; local command was preserved");
            t
        },
        EditorSaveState::Conflict(None) => literal("Conflict: object was deleted; local command was preserved"),
        EditorSaveState::Failed(error) => {
            let mut t = literal("Save failed: ");
            t.append(error.as_str());
            t
        },
    }
}

fn apply_commit(entries: &mut Vec<(StableObjectId, ObjectEditEntry)>, c: SourceObjectWriteCommit)
    requires
        keys_unique(old(entries)@),
    ensures
        keys_unique(final(entries)@),
        final(entries)@ == commit_step(old(entries)@, c),
{
    match c {
        SourceObjectWriteCommit::Updated(o) => {
            match find_entry(entries, o.id) {
                Some(i) => {
                    let e = &entries[i].1;
                    let entry = ObjectEditEntry {
                        presentation: SourceObjectViewRecord { object: o, ..e.presentation },
                        base: Some(o),
                        current: Some(o),
                        runtime: e.runtime,
                        save_state: EditorSaveState::Saved(o.source_revision),
                    };
                    proof {
                        lemma_update_unique(entries@, i as int, (o.id, entry));
                    }
                    entries.set(i, (o.id, entry));
                },
                None => {},
            }
        },
        SourceObjectWriteCommit::Deleted(id) => {
            match find_entry(entries, id) {
                Some(i) => {
                    let e = &entries[i].1;
                    let revision = match e.base {
                        Some(b) => b.source_revision.checked_add(1).unwrap_or(i64::MAX),
                        None => 0,
                    };
                    let entry = ObjectEditEntry {
                        presentation: e.presentation,
                        base: None,
                        current: None,
                        runtime: e.runtime,
                        save_state: EditorSaveState::Saved(revision),
                    };
                    proof {
                        lemma_update_unique(entries@, i as int, (id, entry));
                    }
                    entries.set(i, (id, entry));
                },
                None => {},
            }
        },
    }
}

pub proof fn lemma_first_for_member<T>(items: Seq<(StableObjectId, T)>, id: StableObjectId)
    ensures
        first_for(items, id) is Some ==> exists|x: int| 0 <= x < items.len() && items[x].0 == id && first_for(items, id) == Some(items[x].1),
        first_for(items, id) is None ==> forall|x: int| 0 <= x < items.len() ==> items[x].0 != id,
    decreases items.len(),
{
    if items.len() > 0 {
        lemma_first_for_member(items.drop_first(), id);
        if items[0].0 != id {
            if first_for(items, id) is Some {
                let x = choose|x: int| 0 <= x < items.drop_first().len() && items.drop_first()[x].0 == id && first_for(items.drop_first(), id) == Some(items.drop_first()[x].1);
                assert(items[x + 1] == items.drop_first()[x]);
            } else {
                assert forall|x: int| 0 <= x < items.len() implies items[x].0 != id by {
                    if x > 0 {
                        assert(items[x] == items.drop_first()[x - 1]);
                    }
                }
            }
        }
    }
}

/// The object working set.
pub struct EditorObjectWorkingSet {
    entries: Vec<(StableObjectId, ObjectEditEntry)>,
    edit_revision: u64,
    active_save: Option<(u64, Vec<StableObjectId>)>,
}

pub open spec fn active_view(a: Option<(u64, Vec<StableObjectId>)>) -> Option<(u64, Seq<StableObjectId>)> {
    match a {
        Some((id, objects)) => Some((id, objects@)),
        None => None,
    }
}

impl View for EditorObjectWorkingSet {
    type V = ObjectsView;

    closed spec fn view(&self) -> ObjectsView {
        ObjectsView { entries: self.entries@, edit_revision: self.edit_revision, active_save: active_view(self.active_save) }
    }
}

impl EditorObjectWorkingSet {
    /// The internal invariant, which every operation keeps.
    pub open spec fn wf(&self) -> bool {
        objects_inv(self@)
    }

    /// A working set with no objects and no save in flight.
    pub fn new() -> (s: Self)
        ensures
            s.wf(),
            s@.entries.len() == 0 && s@.edit_revision == 0 && s@.active_save is None,
    {
        EditorObjectWorkingSet { entries: Vec::new(), edit_revision: 0, active_save: None }
    }

    /// The entries, each with its object's identity.
    pub fn entries(&self) -> (r: &Vec<(StableObjectId, ObjectEditEntry)>)
        ensures
            r@ == self@.entries,
    {
        &self.entries
    }

    /// The revision of the local edits, which moves on with every change.
    pub fn edit_revision(&self) -> (r: u64)
        ensures
            r == self@.edit_revision,
    {
        self.edit_revision
    }

    fn bump_edit_revision(&mut self)
        ensures
            final(self)@ == bumped(old(self)@),
    {
        self.edit_revision = crate::project_store::bump(self.edit_revision);
    }

    /// Whether a save transaction is in flight.
    pub fn saving(&self) -> (r: bool)
        ensures
            r == (self@.active_save is Some),
    {
        self.active_save.is_some()
    }

    /// Whether the object has an entry.
    pub fn tracks(&self, object: StableObjectId) -> (r: bool)
        requires
            self.wf(),
        ensures
            r == has_key(self@.entries, object),
    {
        find_entry(&self.entries, object).is_some()
    }

    /// The object as the editor shows it, while it exists locally.
    pub fn current_view(&self, object: StableObjectId) -> (r: Option<SourceObjectViewRecord>)
        requires
            self.wf(),
        ensures
            r == (if has_key(self@.entries, object) { entry_view(entry_of(self@.entries, object)) } else { None }),
    {
        match find_entry(&self.entries, object) {
            Some(i) => view_of(&self.entries[i].1),
            None => None,
        }
    }

    /// How the editor shows a freshly loaded object: through its entry when it has one.
    pub fn resolve_source_view(&self, fresh: &SourceObjectViewRecord) -> (r: Option<SourceObjectViewRecord>)
        requires
            self.wf(),
        ensures
            r == (if has_key(self@.entries, fresh.object.id) {
                entry_view(entry_of(self@.entries, fresh.object.id))
            } else {
                Some(*fresh)
            }),
    {
        match find_entry(&self.entries, fresh.object.id) {
            Some(i) => view_of(&self.entries[i].1),
            None => Some(*fresh),
        }
    }

    /// Whether the object is deleted locally.
    pub fn is_deleted(&self, object: StableObjectId) -> (r: bool)
        requires
            self.wf(),
        ensures
            r == (has_key(self@.entries, object) && entry_of(self@.entries, object).current is None),
    {
        match find_entry(&self.entries, object) {
            Some(i) => self.entries[i].1.current.is_none(),
            None => false,
        }
    }

    /// Whether the object differs from its saved version.
    pub fn dirty(&self, object: StableObjectId) -> (r: bool)
        requires
            self.wf(),
        ensures
            r == (has_key(self@.entries, object) && is_dirty(entry_of(self@.entries, object))),
    {
        match find_entry(&self.entries, object) {
            Some(i) => entry_dirty(&self.entries[i].1),
            None => false,
        }
    }

    /// Whether the object's save met a conflict.
    pub fn has_conflict(&self, object: StableObjectId) -> (r: bool)
        requires
            self.wf(),
        ensures
            r == (has_key(self@.entries, object) && has_conflict_state(entry_of(self@.entries, object))),
    {
        match find_entry(&self.entries, object) {
            Some(i) => entry_conflict(&self.entries[i].1),
            None => false,
        }
    }

    /// Whether the object may be edited: no save is in flight, and it exists locally without a
    /// conflict.
    pub fn can_edit(&self, object: StableObjectId) -> (r: bool)
        requires
            self.wf(),
        ensures
            r == (self@.active_save is None && has_key(self@.entries, object) && entry_of(self@.entries, object).current
                is Some && !has_conflict_state(entry_of(self@.entries, object))),
    {
        if self.saving() {
            return false;
        }
        match find_entry(&self.entries, object) {
            Some(i) => self.entries[i].1.current.is_some() && !entry_conflict(&self.entries[i].1),
            None => false,
        }
    }

    /// How many objects differ from their saved version.
    pub fn dirty_count(&self) -> (n: usize)
        ensures
            n == count_entries(self@.entries, |e: ObjectEditEntry| is_dirty(e)),
    {
        let ghost p = |e: ObjectEditEntry| is_dirty(e);
        let mut n: usize = 0;
        let mut i: usize = 0;
        while i < self.entries.len()
            invariant
                i <= self.entries@.len(),
                p == (|e: ObjectEditEntry| is_dirty(e)),
                n == count_entries(self.entries@.take(i as int), p),
                n <= i,
            decreases self.entries@.len() - i,
        {
            proof {
                lemma_count_step(self.entries@, i as int, p);
            }
            if entry_dirty(&self.entries[i].1) {
                n = n + 1;
            }
            i = i + 1;
        }
        assert(self.entries@.take(i as int) =~= self.entries@);
        n
    }

    /// Whether some object's save met a conflict.
    pub fn has_any_conflict(&self) -> (r: bool)
        ensures
            r == exists|i: int| 0 <= i < self@.entries.len() && has_conflict_state(#[trigger] self@.entries[i].1),
    {
        let mut i: usize = 0;
        while i < self.entries.len()
            invariant
                i <= self.entries@.len(),
                forall|j: int| 0 <= j < i ==> !has_conflict_state(#[trigger] self.entries@[j].1),
            decreases self.entries@.len() - i,
        {
            if entry_conflict(&self.entries[i].1) {
                assert(has_conflict_state(self@.entries[i as int].1));
                return true;
            }
            i = i + 1;
        }
        false
    }

    /// Every object that exists locally, as the editor shows it, in entry order.
    pub fn current_views(&self) -> (r: Vec<SourceObjectViewRecord>)
        ensures
            r@ == views_where(self@.entries, Seq::empty(), false),
    {
        let none: Vec<StableObjectId> = Vec::new();
        proof {
            assert(none@ =~= Seq::<StableObjectId>::empty());
        }
        self.collect_views(none.as_slice(), false)
    }

    /// The objects that need editor proxies: the selected ones and those whose local version
    /// differs from what the runtime shows, as the editor shows them, in entry order.
    pub fn desired_proxy_views(&self, selected: &[StableObjectId]) -> (r: Vec<SourceObjectViewRecord>)
        ensures
            r@ == views_where(self@.entries, selected@, true),
    {
        self.collect_views(selected, true)
    }

    fn collect_views(&self, selected: &[StableObjectId], filtered: bool) -> (r: Vec<SourceObjectViewRecord>)
        ensures
            r@ == views_where(self@.entries, selected@, filtered),
    {
        let mut r: Vec<SourceObjectViewRecord> = Vec::new();
        let mut i: usize = 0;
        while i < self.entries.len()
            invariant
                i <= self.entries@.len(),
                r@ == views_where(self.entries@.take(i as int), selected@, filtered),
            decreases self.entries@.len() - i,
        {
            proof {
                assert(self.entries@.take(i + 1).drop_last() =~= self.entries@.take(i as int));
            }
            let id = self.entries[i].0;
            let wanted = !filtered || contains_id(selected, id) || !same_object(
                &self.entries[i].1.current,
                &self.entries[i].1.runtime,
            );
            if wanted {
                match view_of(&self.entries[i].1) {
                    Some(v) => r.push(v),
                    None => {},
                }
            }
            i = i + 1;
        }
        assert(self.entries@.take(i as int) =~= self.entries@);
        r
    }

    /// Pins a freshly loaded object: its presentation is refreshed; an entry that is not
    /// edited or saving takes a newer saved version; an unknown object gets a fresh entry.
    pub fn pin(&mut self, fresh: SourceObjectViewRecord)
        requires
            old(self).wf(),
        ensures
            final(self).wf(),
            final(self)@ == pin_model(old(self)@, fresh),
    {
        let id = fresh.object.id;
        match find_entry(&self.entries, id) {
            Some(i) => {
                let e = &self.entries[i].1;
                let presentation = SourceObjectViewRecord { presentation: fresh.presentation, ..e.presentation };
                let newer = match e.base {
                    None => true,
                    Some(b) => fresh.object.source_revision > b.source_revision,
                };
                let saving = matches!(e.save_state, EditorSaveState::Saving(_));
                if !entry_dirty(e) && !saving && newer {
                    let entry = ObjectEditEntry {
                        presentation,
                        base: Some(fresh.object),
                        current: Some(fresh.object),
                        runtime: e.runtime,
                        save_state: EditorSaveState::Idle,
                    };
                    proof {
                        lemma_update_unique(self.entries@, i as int, (id, entry));
                    }
                    self.entries.set(i, (id, entry));
                    self.bump_edit_revision();
                } else {
                    let entry = ObjectEditEntry {
                        presentation,
                        base: e.base,
                        current: e.current,
                        runtime: e.runtime,
                        save_state: clone_state(&e.save_state),
                    };
                    proof {
                        lemma_update_unique(self.entries@, i as int, (id, entry));
                    }
                    self.entries.set(i, (id, entry));
                }
            },
            None => {
                let entry = ObjectEditEntry {
                    presentation: fresh,
                    base: Some(fresh.object),
                    current: Some(fresh.object),
                    runtime: Some(fresh.object),
                    save_state: EditorSaveState::Idle,
                };
                proof {
                    lemma_push_unique(self.entries@, (id, entry));
                }
                self.entries.push((id, entry));
                self.bump_edit_revision();
            },
        }
    }

    /// Takes in a freshly loaded object, as pinning does.
    pub fn reconcile_source(&mut self, fresh: &SourceObjectViewRecord)
        requires
            old(self).wf(),
        ensures
            final(self).wf(),
            final(self)@ == pin_model(old(self)@, *fresh),
    {
        self.pin(*fresh);
    }

    /// Restores a recovery snapshot as an idle entry; refused while saving, when the snapshot
    /// does not fit, or when the object's entry is edited or saving.
    pub fn restore_dirty_snapshot(&mut self, snapshot: DirtyObjectSnapshot) -> (restored: bool)
        requires
            old(self).wf(),
        ensures
            final(self).wf(),
            restored == (old(self)@.active_save is None && snapshot_fits(snapshot) && !(has_key(
                old(self)@.entries,
                snapshot.presentation.object.id,
            ) && (is_dirty(entry_of(old(self)@.entries, snapshot.presentation.object.id)) || entry_of(
                old(self)@.entries,
                snapshot.presentation.object.id,
            ).save_state is Saving))),
            !restored ==> final(self)@ == old(self)@,
            restored ==> final(self)@ == bumped(
                ObjectsView {
                    entries: put_entry(old(self)@.entries, snapshot.presentation.object.id, snapshot_entry(snapshot)),
                    ..old(self)@
                },
            ),
    {
        if self.saving() {
            return false;
        }
        let id = snapshot.presentation.object.id;
        let definition = snapshot.presentation.object.definition;
        let base_bad = match snapshot.base {
            Some(b) => b.id != id || b.definition != definition,
            None => false,
        };
        let current_bad = match snapshot.current {
            Some(c) => c.id != id || c.definition != definition,
            None => false,
        };
        if base_bad || current_bad || same_object(&snapshot.base, &snapshot.current) {
            return false;
        }
        let entry = ObjectEditEntry {
            presentation: snapshot.presentation,
            base: snapshot.base,
            current: snapshot.current,
            runtime: snapshot.base,
            save_state: EditorSaveState::Idle,
        };
        match find_entry(&self.entries, id) {
            Some(i) => {
                if entry_dirty(&self.entries[i].1) || matches!(self.entries[i].1.save_state, EditorSaveState::Saving(_)) {
                    return false;
                }
                proof {
                    lemma_update_unique(self.entries@, i as int, (id, entry));
                }
                self.entries.set(i, (id, entry));
            },
            None => {
                proof {
                    lemma_push_unique(self.entries@, (id, entry));
                }
                self.entries.push((id, entry));
            },
        }
        self.bump_edit_revision();
        true
    }

    /// Creates an object in the session; refused while saving or when the object is known.
    pub fn create_object(&mut self, record: SourceObjectViewRecord) -> (created: bool)
        requires
            old(self).wf(),
        ensures
            final(self).wf(),
            created == (old(self)@.active_save is None && !has_key(old(self)@.entries, record.object.id)),
            !created ==> final(self)@ == old(self)@,
            created ==> final(self)@ == bumped(
                ObjectsView { entries: old(self)@.entries.push((record.object.id, from_created(record))), ..old(self)@ },
            ),
    {
        if self.saving() || find_entry(&self.entries, record.object.id).is_some() {
            return false;
        }
        let entry = ObjectEditEntry {
            presentation: record,
            base: None,
            current: Some(record.object),
            runtime: None,
            save_state: EditorSaveState::Idle,
        };
        proof {
            lemma_push_unique(self.entries@, (record.object.id, entry));
        }
        self.entries.push((record.object.id, entry));
        self.bump_edit_revision();
        true
    }

    /// The message describing where an object stands.
    pub fn status(&self, object: StableObjectId) -> (r: String)
        requires
            self.wf(),
        ensures
            r@ == status_message(self@.entries, object),
    {
        match find_entry(&self.entries, object) {
            Some(i) => state_text(&self.entries[i].1),
            None => literal("Object is not in the editor working set"),
        }
    }

    fn all_editable(&self, ts: &[(StableObjectId, ObjectTransform)]) -> (r: bool)
        requires
            self.wf(),
        ensures
            r == forall|i: int| 0 <= i < ts@.len() ==> editable(self@.entries, #[trigger] ts@[i].0),
    {
        let mut i: usize = 0;
        while i < ts.len()
            invariant
                i <= ts@.len(),
                keys_unique(self.entries@),
                forall|j: int| 0 <= j < i ==> editable(self@.entries, #[trigger] ts@[j].0),
            decreases ts@.len() - i,
        {
            match find_entry(&self.entries, ts[i].0) {
                Some(k) => {
                    if self.entries[k].1.current.is_none() || entry_conflict(&self.entries[k].1) {
                        assert(!editable(self@.entries, ts@[i as int].0));
                        return false;
                    }
                },
                None => {
                    assert(!editable(self@.entries, ts@[i as int].0));
                    return false;
                },
            }
            i = i + 1;
        }
        true
    }

    /// Moves the given objects, each at most once; refused while saving, for an empty or
    /// repeated list, for an object that is absent, deleted or in conflict, and when nothing
    /// would move.
    pub fn set_transforms(&mut self, transforms: &[(StableObjectId, ObjectTransform)]) -> (moved: bool)
        requires
            old(self).wf(),
        ensures
            final(self).wf(),
            (final(self)@, moved) == transforms_model(old(self)@, transforms@),
    {
        if self.saving() || transforms.len() == 0 {
            return false;
        }
        let mut ids: Vec<StableObjectId> = Vec::new();
        let mut k: usize = 0;
        while k < transforms.len()
            invariant
                k <= transforms@.len(),
                ids@ == transforms@.take(k as int).map_values(|p: (StableObjectId, ObjectTransform)| p.0),
            decreases transforms@.len() - k,
        {
            ids.push(transforms[k].0);
            proof {
                assert(transforms@.take(k + 1).map_values(|p: (StableObjectId, ObjectTransform)| p.0) =~= transforms@.take(
                    k as int,
                ).map_values(|p: (StableObjectId, ObjectTransform)| p.0).push(transforms@[k as int].0));
            }
            k = k + 1;
        }
        assert(transforms@.take(k as int) =~= transforms@);
        if !ids_distinct(ids.as_slice()) || !self.all_editable(transforms) {
            return false;
        }
        let mut changed = false;
        let mut i: usize = 0;
        while i < transforms.len()
            invariant
                i <= transforms@.len(),
                keys_unique(self.entries@),
                forall|j: int| 0 <= j < transforms@.len() ==> editable(self@.entries, #[trigger] transforms@[j].0),
                changed == exists|j: int| 0 <= j < i && entry_of(self@.entries, #[trigger] transforms@[j].0).current->0.transform
                    != transforms@[j].1,
            decreases transforms@.len() - i,
        {
            let (id, t) = transforms[i];
            proof {
                assert(editable(self@.entries, transforms@[i as int].0));
            }
            let k = find_entry(&self.entries, id).unwrap();
            match self.entries[k].1.current {
                Some(c) => {
                    if c.transform != t {
                        changed = true;
                    }
                },
                None => {},
            }
            i = i + 1;
        }
        if !changed {
            return false;
        }
        let ghost start = self.entries@;
        let mut j: usize = 0;
        while j < self.entries.len()
            invariant
                j <= self.entries@.len(),
                self.entries@.len() == start.len(),
                keys_unique(start),
                forall|x: int| 0 <= x < transforms@.len() ==> editable(start, #[trigger] transforms@[x].0),
                forall|x: int| 0 <= x < j ==> self.entries@[x] == transformed(start, transforms@)[x],
                forall|x: int| j <= x < start.len() ==> self.entries@[x] == start[x],
                self.edit_revision == old(self).edit_revision,
                self.active_save == old(self).active_save,
            decreases start.len() - j,
        {
            let id = self.entries[j].0;
            match transform_for(transforms, id) {
                Some(t) => {
                    proof {
                        lemma_first_for_member(transforms@, id);
                        let x = choose|x: int| 0 <= x < transforms@.len() && transforms@[x].0 == id;
                        assert(editable(start, transforms@[x].0));
                        lemma_key_index(start, j as int);
                    }
                    let e = &self.entries[j].1;
                    let current = e.current.unwrap();
                    let entry = ObjectEditEntry {
                        presentation: e.presentation,
                        base: e.base,
                        current: Some(SourceObjectRecord { transform: t, ..current }),
                        runtime: e.runtime,
                        save_state: EditorSaveState::Idle,
                    };
                    self.entries.set(j, (id, entry));
                },
                None => {},
            }
            j = j + 1;
        }
        proof {
            let t = transformed(start, transforms@);
            assert(self.entries@ =~= t);
            assert forall|a: int, b: int| 0 <= a < t.len() && 0 <= b < t.len() && a != b implies t[a].0 != t[b].0 by {
                assert(t[a].0 == start[a].0);
                assert(t[b].0 == start[b].0);
            }
        }
        self.bump_edit_revision();
        true
    }

    /// Brings the given deleted objects back, each at most once; refused while saving, for an
    /// empty or repeated list, or for an object that is unknown, present or in conflict.
    pub fn restore_objects(&mut self, objects: &[SourceObjectRecord]) -> (restored: bool)
        requires
            old(self).wf(),
        ensures
            final(self).wf(),
            (final(self)@, restored) == restore_model(old(self)@, objects@),
    {
        if self.saving() || objects.len() == 0 {
            return false;
        }
        let mut ids: Vec<StableObjectId> = Vec::new();
        let mut k: usize = 0;
        while k < objects.len()
            invariant
                k <= objects@.len(),
                keys_unique(self.entries@),
                ids@ == record_ids(objects@.take(k as int)),
                forall|i: int| 0 <= i < k ==> restorable(self@.entries, #[trigger] objects@[i].id),
            decreases objects@.len() - k,
        {
            ids.push(objects[k].id);
            proof {
                assert(record_ids(objects@.take(k + 1)) =~= record_ids(objects@.take(k as int)).push(objects@[k as int].id));
            }
            match find_entry(&self.entries, objects[k].id) {
                Some(x) => {
                    if self.entries[x].1.current.is_some() || entry_conflict(&self.entries[x].1) {
                        assert(!restorable(self@.entries, objects@[k as int].id));
                        return false;
                    }
                },
                None => {
                    assert(!restorable(self@.entries, objects@[k as int].id));
                    return false;
                },
            }
            k = k + 1;
        }
        assert(objects@.take(k as int) =~= objects@);
        if !ids_distinct(ids.as_slice()) {
            return false;
        }
        let ghost start = self.entries@;
        let mut j: usize = 0;
        while j < self.entries.len()
            invariant
                j <= self.entries@.len(),
                self.entries@.len() == start.len(),
                keys_unique(start),
                forall|x: int| 0 <= x < j ==> self.entries@[x] == restored_all(start, objects@)[x],
                forall|x: int| j <= x < start.len() ==> self.entries@[x] == start[x],
                self.edit_revision == old(self).edit_revision,
                self.active_save == old(self).active_save,
            decreases start.len() - j,
        {
            let id = self.entries[j].0;
            match record_for(objects, id) {
                Some(o) => {
                    let e = &self.entries[j].1;
                    let entry = ObjectEditEntry {
                        presentation: e.presentation,
                        base: e.base,
                        current: Some(o),
                        runtime: e.runtime,
                        save_state: EditorSaveState::Idle,
                    };
                    self.entries.set(j, (id, entry));
                },
                None => {},
            }
            j = j + 1;
        }
        proof {
            let t = restored_all(start, objects@);
            assert(self.entries@ =~= t);
            assert forall|a: int, b: int| 0 <= a < t.len() && 0 <= b < t.len() && a != b implies t[a].0 != t[b].0 by {
                assert(t[a].0 == start[a].0);
                assert(t[b].0 == start[b].0);
            }
        }
        self.bump_edit_revision();
        true
    }

    /// Deletes the given objects, each at most once, and hands back their local versions in
    /// the given order; refused while saving, for an empty or repeated list, or for an object
    /// that is unknown, deleted or in conflict.
    pub fn delete_objects(&mut self, objects: &[StableObjectId]) -> (deleted: Option<Vec<SourceObjectRecord>>)
        requires
            old(self).wf(),
        ensures
            final(self).wf(),
            final(self)@ == delete_model(old(self)@, objects@).0,
            match deleted {
                Some(d) => delete_model(old(self)@, objects@).1 == Some(d@),
                None => delete_model(old(self)@, objects@).1 is None,
            },
    {
        if self.saving() || objects.len() == 0 || !ids_distinct(objects) {
            return None;
        }
        let mut out: Vec<SourceObjectRecord> = Vec::new();
        let mut k: usize = 0;
        while k < objects.len()
            invariant
                k <= objects@.len(),
                keys_unique(self.entries@),
                forall|i: int| 0 <= i < k ==> editable(self@.entries, #[trigger] objects@[i]),
                out@ == objects@.take(k as int).map_values(|id: StableObjectId| entry_of(self@.entries, id).current->0),
            decreases objects@.len() - k,
        {
            match find_entry(&self.entries, objects[k]) {
                Some(x) => {
                    if entry_conflict(&self.entries[x].1) {
                        assert(!editable(self@.entries, objects@[k as int]));
                        return None;
                    }
                    match self.entries[x].1.current {
                        Some(c) => out.push(c),
                        None => {
                            assert(!editable(self@.entries, objects@[k as int]));
                            return None;
                        },
                    }
                },
                None => {
                    assert(!editable(self@.entries, objects@[k as int]));
                    return None;
                },
            }
            proof {
                assert(objects@.take(k + 1).map_values(|id: StableObjectId| entry_of(self@.entries, id).current->0) =~= objects@.take(
                    k as int,
                ).map_values(|id: StableObjectId| entry_of(self@.entries, id).current->0).push(out@.last()));
            }
            k = k + 1;
        }
        assert(objects@.take(k as int) =~= objects@);
        let ghost start = self.entries@;
        let mut j: usize = 0;
        while j < self.entries.len()
            invariant
                j <= self.entries@.len(),
                self.entries@.len() == start.len(),
                keys_unique(start),
                forall|x: int| 0 <= x < j ==> self.entries@[x] == deleted_all(start, objects@)[x],
                forall|x: int| j <= x < start.len() ==> self.entries@[x] == start[x],
                self.edit_revision == old(self).edit_revision,
                self.active_save == old(self).active_save,
            decreases start.len() - j,
        {
            let id = self.entries[j].0;
            if contains_id(objects, id) {
                let e = &self.entries[j].1;
                let entry = ObjectEditEntry {
                    presentation: e.presentation,
                    base: e.base,
                    current: None,
                    runtime: e.runtime,
                    save_state: EditorSaveState::Idle,
                };
                self.entries.set(j, (id, entry));
            }
            j = j + 1;
        }
        proof {
            let t = deleted_all(start, objects@);
            assert(self.entries@ =~= t);
            assert forall|a: int, b: int| 0 <= a < t.len() && 0 <= b < t.len() && a != b implies t[a].0 != t[b].0 by {
                assert(t[a].0 == start[a].0);
                assert(t[b].0 == start[b].0);
            }
        }
        self.bump_edit_revision();
        Some(out)
    }

    /// Brings one deleted object back.
    pub fn restore_object(&mut self, object: SourceObjectRecord) -> (restored: bool)
        requires
            old(self).wf(),
        ensures
            final(self).wf(),
            restored == (old(self)@.active_save is None && restorable(old(self)@.entries, object.id)),
            !restored ==> final(self)@ == old(self)@,
            restored ==> final(self)@ == bumped(ObjectsView { entries: restored_all(old(self)@.entries, seq![object]), ..old(self)@ }),
    {
        let objects = [object];
        assert(objects@ =~= seq![object]);
        proof {
            assert(record_ids(seq![object]) =~= seq![object.id]);
            assert(seq![object][0] == object);
        }
        self.restore_objects(&objects)
    }

    /// Deletes one object and hands back its local version.
    pub fn delete_object(&mut self, object: StableObjectId) -> (deleted: Option<SourceObjectRecord>)
        requires
            old(self).wf(),
        ensures
            final(self).wf(),
            deleted is Some == (old(self)@.active_save is None && editable(old(self)@.entries, object)),
            deleted is None ==> final(self)@ == old(self)@,
            deleted matches Some(d) ==> d == entry_of(old(self)@.entries, object).current->0 && final(self)@ == bumped(
                ObjectsView { entries: deleted_all(old(self)@.entries, seq![object]), ..old(self)@ },
            ),
    {
        let objects = [object];
        assert(objects@ =~= seq![object]);
        assert(seq![object][0] == object);
        match self.delete_objects(&objects) {
            Some(mut d) => {
                assert(d@.len() == 1);
                d.pop()
            },
            None => None,
        }
    }

    /// Brings every edited object back to its saved version and forgets the history; refused
    /// while saving or when nothing is edited.
    pub fn discard_all<C>(&mut self, history: &mut EditorHistory<C>) -> (discarded: bool)
        requires
            old(self).wf(),
            old(history).wf(),
        ensures
            final(self).wf(),
            final(history).wf(),
            discarded == (old(self)@.active_save is None && count_entries(old(self)@.entries, |e: ObjectEditEntry| is_dirty(e)) > 0),
            !discarded ==> final(self)@ == old(self)@ && final(history)@ == old(history)@,
            discarded ==> final(self)@ == bumped(ObjectsView { entries: discarded_all(old(self)@.entries), ..old(self)@ })
                && final(history)@.undo.len() == 0 && final(history)@.redo.len() == 0,
    {
        if self.saving() || self.dirty_count() == 0 {
            return false;
        }
        let ghost start = self.entries@;
        let mut j: usize = 0;
        while j < self.entries.len()
            invariant
                j <= self.entries@.len(),
                self.entries@.len() == start.len(),
                keys_unique(start),
                forall|x: int| 0 <= x < j ==> self.entries@[x] == discarded_all(start)[x],
                forall|x: int| j <= x < start.len() ==> self.entries@[x] == start[x],
                self.edit_revision == old(self).edit_revision,
                self.active_save == old(self).active_save,
            decreases start.len() - j,
        {
            let id = self.entries[j].0;
            if entry_dirty(&self.entries[j].1) {
                let e = &self.entries[j].1;
                let entry = ObjectEditEntry {
                    presentation: e.presentation,
                    base: e.base,
                    current: e.base,
                    runtime: e.runtime,
                    save_state: EditorSaveState::Idle,
                };
                self.entries.set(j, (id, entry));
            }
            j = j + 1;
        }
        proof {
            let t = discarded_all(start);
            assert(self.entries@ =~= t);
            assert forall|a: int, b: int| 0 <= a < t.len() && 0 <= b < t.len() && a != b implies t[a].0 != t[b].0 by {
                assert(t[a].0 == start[a].0);
                assert(t[b].0 == start[b].0);
            }
        }
        history.clear();
        self.bump_edit_revision();
        true
    }

    /// Resolves the object's conflict by taking the database's version as saved and local
    /// version, and forgets the history.
    pub fn reload_conflict<C>(&mut self, object: StableObjectId, history: &mut EditorHistory<C>) -> (reloaded: bool)
        requires
            old(self).wf(),
            old(history).wf(),
        ensures
            final(self).wf(),
            final(history).wf(),
            reloaded == (has_key(old(self)@.entries, object) && has_conflict_state(entry_of(old(self)@.entries, object))),
            !reloaded ==> final(self)@ == old(self)@ && final(history)@ == old(history)@,
            reloaded ==> final(self)@ == bumped(
                ObjectsView {
                    entries: old(self)@.entries.update(
                        key_index(old(self)@.entries, object),
                        (object, reloaded_entry(
                            entry_of(old(self)@.entries, object),
                            entry_of(old(self)@.entries, object).save_state->Conflict_0,
                        )),
                    ),
                    ..old(self)@
                },
            ) && final(history)@.undo.len() == 0 && final(history)@.redo.len() == 0,
    {
        let i = match find_entry(&self.entries, object) {
            Some(i) => i,
            None => return false,
        };
        let e = &self.entries[i].1;
        let actual = match e.save_state {
            EditorSaveState::Conflict(actual) => actual,
            _ => return false,
        };
        let presentation = match actual {
            Some(a) => SourceObjectViewRecord { object: a, ..e.presentation },
            None => e.presentation,
        };
        let entry = ObjectEditEntry { presentation, base: actual, current: actual, runtime: e.runtime, save_state: EditorSaveState::Idle };
        proof {
            lemma_update_unique(self.entries@, i as int, (object, entry));
        }
        self.entries.set(i, (object, entry));
        history.clear();
        self.bump_edit_revision();
        true
    }

    /// Resolves the object's conflict by taking the database's version as the saved one while
    /// keeping the local placement for a retry, and forgets the history.
    pub fn rebase_conflict<C>(&mut self, object: StableObjectId, history: &mut EditorHistory<C>) -> (rebased: bool)
        requires
            old(self).wf(),
            old(history).wf(),
        ensures
            final(self).wf(),
            final(history).wf(),
            rebased == (has_key(old(self)@.entries, object) && has_conflict_state(entry_of(old(self)@.entries, object))),
            !rebased ==> final(self)@ == old(self)@ && final(history)@ == old(history)@,
            rebased ==> final(self)@ == bumped(
                ObjectsView {
                    entries: old(self)@.entries.update(
                        key_index(old(self)@.entries, object),
                        (object, rebased_entry(
                            entry_of(old(self)@.entries, object),
                            entry_of(old(self)@.entries, object).save_state->Conflict_0,
                        )),
                    ),
                    ..old(self)@
                },
            ) && final(history)@.undo.len() == 0 && final(history)@.redo.len() == 0,
    {
        let i = match find_entry(&self.entries, object) {
            Some(i) => i,
            None => return false,
        };
        let e = &self.entries[i].1;
        let actual = match e.save_state {
            EditorSaveState::Conflict(actual) => actual,
            _ => return false,
        };
        let entry = match (e.current, actual) {
            (Some(c), Some(a)) => ObjectEditEntry {
                presentation: SourceObjectViewRecord { object: a, ..e.presentation },
                base: actual,
                current: Some(SourceObjectRecord { definition: a.definition, ..c }),
                runtime: e.runtime,
                save_state: EditorSaveState::Idle,
            },
            _ => ObjectEditEntry { presentation: e.presentation, base: actual, current: e.current, runtime: e.runtime, save_state: EditorSaveState::Idle },
        };
        proof {
            lemma_update_unique(self.entries@, i as int, (object, entry));
        }
        self.entries.set(i, (object, entry));
        history.clear();
        self.bump_edit_revision();
        true
    }

    /// The recovery snapshots of every edited object, ordered by identity.
    pub fn dirty_snapshots(&self) -> (r: Vec<DirtyObjectSnapshot>)
        ensures
            r@ == dirty_snapshot_list(self@.entries),
    {
        let mut ranked: Vec<(Rank, DirtyObjectSnapshot)> = Vec::new();
        let mut i: usize = 0;
        while i < self.entries.len()
            invariant
                i <= self.entries@.len(),
                ranked@ == dirty_ranked(self.entries@.take(i as int)),
            decreases self.entries@.len() - i,
        {
            proof {
                assert(self.entries@.take(i + 1).drop_last() =~= self.entries@.take(i as int));
            }
            let e = &self.entries[i].1;
            if entry_dirty(e) {
                ranked.push(((0u8, e.presentation.object.id.0), DirtyObjectSnapshot { presentation: e.presentation, base: e.base, current: e.current }));
            }
            i = i + 1;
        }
        assert(self.entries@.take(i as int) =~= self.entries@);
        sort_ranked(&mut ranked);
        let mut out: Vec<DirtyObjectSnapshot> = Vec::new();
        let mut j: usize = 0;
        while j < ranked.len()
            invariant
                j <= ranked@.len(),
                out@ == ranked@.take(j as int).map_values(|p: (Rank, DirtyObjectSnapshot)| p.1),
            decreases ranked@.len() - j,
        {
            out.push(ranked[j].1);
            proof {
                assert(ranked@.take(j + 1).map_values(|p: (Rank, DirtyObjectSnapshot)| p.1) =~= ranked@.take(j as int).map_values(
                    |p: (Rank, DirtyObjectSnapshot)| p.1,
                ).push(ranked@[j as int].1));
            }
            j = j + 1;
        }
        assert(ranked@.take(j as int) =~= ranked@);
        out
    }

    /// Queues one save transaction in the project store: the first `max_writes` edited
    /// objects by identity, whose saves are then in flight. Nothing is queued while a save is
    /// in flight or a conflict waits, or when the store refuses; the writes are handed back to
    /// send.
    pub fn queue_save(&mut self, project: &mut ProjectEditorStore, max_writes: usize) -> (writes: Option<Vec<SourceObjectWrite>>)
        requires
            old(self).wf(),
        ensures
            final(self).wf(),
            old(self)@.active_save is Some || (exists|i: int| 0 <= i < old(self)@.entries.len() && has_conflict_state(
                #[trigger] old(self)@.entries[i].1,
            )) ==> writes is None && final(self)@ == old(self)@ && final(project)@ == old(project)@,
            writes is None ==> final(self)@ == old(self)@,
            writes is Some <==> (old(self)@.active_save is None && !(exists|i: int|
                0 <= i < old(self)@.entries.len() && has_conflict_state(#[trigger] old(self)@.entries[i].1))
                && selected_writes(old(self)@.entries, max_writes as nat).len() > 0
                && crate::project_store::can_queue_save(old(project)@)),
            writes is None ==> final(project)@ == old(project)@,
            writes matches Some(w) ==> {
                let selected = selected_writes(old(self)@.entries, max_writes as nat);
                let ids = selected.map_values(|p: (StableObjectId, SourceObjectWrite)| p.0);
                &&& w@ == selected.map_values(|p: (StableObjectId, SourceObjectWrite)| p.1)
                &&& w@.len() > 0
                &&& crate::project_store::can_queue_save(old(project)@)
                &&& final(project)@.pending_object_save == Some(final(project)@.next_save_request_id)
                &&& final(project)@.next_save_request_id == next_id(old(project)@.next_save_request_id)
                &&& final(self)@ == (ObjectsView {
                    entries: marked_saving(old(self)@.entries, ids, final(project)@.next_save_request_id),
                    active_save: Some((final(project)@.next_save_request_id, ids)),
                    ..old(self)@
                })
            },
    {
        if self.saving() || self.has_any_conflict() {
            return None;
        }
        let ghost start = self.entries@;
        let mut candidates: Vec<(Rank, (StableObjectId, SourceObjectWrite))> = Vec::new();
        let mut i: usize = 0;
        while i < self.entries.len()
            invariant
                i <= self.entries@.len(),
                candidates@ == save_candidates(self.entries@.take(i as int)),
            decreases self.entries@.len() - i,
        {
            proof {
                assert(self.entries@.take(i + 1).drop_last() =~= self.entries@.take(i as int));
            }
            let id = self.entries[i].0;
            let e = &self.entries[i].1;
            if entry_dirty(e) {
                let write = match (e.base, e.current) {
                    (Some(b), Some(c)) => SourceObjectWrite::UpdateTransform {
                        object: id,
                        expected_source_revision: b.source_revision,
                        transform: c.transform,
                    },
                    (Some(b), None) => SourceObjectWrite::Delete { object: id, expected_source_revision: b.source_revision },
                    (None, Some(c)) => SourceObjectWrite::Create { object: c },
                    (None, None) => SourceObjectWrite::Delete { object: id, expected_source_revision: 0 },
                };
                candidates.push(((0u8, id.0), (id, write)));
            }
            i = i + 1;
        }
        assert(self.entries@.take(i as int) =~= self.entries@);
        sort_ranked(&mut candidates);
        let n = if max_writes < candidates.len() {
            max_writes
        } else {
            candidates.len()
        };
        let ghost selected = selected_writes(start, max_writes as nat);
        let mut ids: Vec<StableObjectId> = Vec::new();
        let mut writes: Vec<SourceObjectWrite> = Vec::new();
        let mut j: usize = 0;
        while j < n
            invariant
                j <= n,
                n <= candidates@.len(),
                selected.len() == n,
                forall|k: int| 0 <= k < n ==> #[trigger] selected[k] == candidates@[k].1,
                ids@.len() == j && writes@.len() == j,
                forall|k: int| 0 <= k < j ==> #[trigger] ids@[k] == selected[k].0,
                forall|k: int| 0 <= k < j ==> #[trigger] writes@[k] == selected[k].1,
            decreases n - j,
        {
            ids.push(candidates[j].1.0);
            writes.push(candidates[j].1.1);
            j = j + 1;
        }
        proof {
            assert(writes@ =~= selected.map_values(|p: (StableObjectId, SourceObjectWrite)| p.1));
            assert(ids@ =~= selected.map_values(|p: (StableObjectId, SourceObjectWrite)| p.0));
        }
        let request_id = match project.queue_object_transaction(writes.len()) {
            None => return None,
            Some(id) => id,
        };
        let mut k: usize = 0;
        while k < self.entries.len()
            invariant
                k <= self.entries@.len(),
                self.entries@.len() == start.len(),
                keys_unique(start),
                forall|x: int| 0 <= x < k ==> self.entries@[x] == marked_saving(start, ids@, request_id)[x],
                forall|x: int| k <= x < start.len() ==> self.entries@[x] == start[x],
                self.edit_revision == old(self).edit_revision,
                self.active_save == old(self).active_save,
            decreases start.len() - k,
        {
            let id = self.entries[k].0;
            if contains_id(ids.as_slice(), id) {
                let e = &self.entries[k].1;
                let entry = ObjectEditEntry {
                    presentation: e.presentation,
                    base: e.base,
                    current: e.current,
                    runtime: e.runtime,
                    save_state: EditorSaveState::Saving(request_id),
                };
                self.entries.set(k, (id, entry));
            }
            k = k + 1;
        }
        proof {
            let t = marked_saving(start, ids@, request_id);
            assert(self.entries@ =~= t);
            assert forall|a: int, b: int| 0 <= a < t.len() && 0 <= b < t.len() && a != b implies t[a].0 != t[b].0 by {
                assert(t[a].0 == start[a].0);
                assert(t[b].0 == start[b].0);
            }
        }
        self.active_save = Some((request_id, ids));
        Some(writes)
    }

    /// Takes in the answer to save request `request_id`; only the answer to the save in
    /// flight counts. Committed writes become saved versions; a conflict is recorded on the
    /// named object and releases the others; a failure is recorded on every object of the
    /// request.
    pub fn finish_save(&mut self, request_id: u64, outcome: ObjectSaveOutcome)
        requires
            old(self).wf(),
        ensures
            final(self).wf(),
            !(old(self)@.active_save is Some && (old(self)@.active_save->0).0 == request_id) ==> final(self)@ == old(self)@,
            old(self)@.active_save is Some && (old(self)@.active_save->0).0 == request_id ==> final(self)@ == bumped(
                ObjectsView {
                    entries: finished_entries(old(self)@.entries, (old(self)@.active_save->0).1, outcome),
                    active_save: None,
                    ..old(self)@
                },
            ),
    {
        let active = match self.active_save.take() {
            None => return,
            Some(active) => active,
        };
        if active.0 != request_id {
            self.active_save = Some(active);
            return;
        }
        let ids = active.1;
        let ghost start = self.entries@;
        match outcome {
            ObjectSaveOutcome::Committed(commits) => {
                let mut i: usize = 0;
                while i < commits.len()
                    invariant
                        i <= commits@.len(),
                        keys_unique(self.entries@),
                        self.entries@ == apply_commits(start, commits@.take(i as int)),
                        self.edit_revision == old(self).edit_revision,
                        self.active_save is None,
                    decreases commits@.len() - i,
                {
                    proof {
                        assert(commits@.take(i + 1).drop_last() =~= commits@.take(i as int));
                    }
                    apply_commit(&mut self.entries, commits[i]);
                    i = i + 1;
                }
                assert(commits@.take(i as int) =~= commits@);
            },
            ObjectSaveOutcome::Conflict { object, actual } => {
                self.settle(ids.as_slice(), Some(object), &EditorSaveState::Conflict(actual), &EditorSaveState::Idle);
            },
            ObjectSaveOutcome::Failed(error) => {
                let failed = EditorSaveState::Failed(error);
                self.settle(ids.as_slice(), None, &failed, &failed);
            },
        }
        self.bump_edit_revision();
    }

    fn settle(
        &mut self,
        ids: &[StableObjectId],
        named: Option<StableObjectId>,
        named_state: &EditorSaveState,
        others: &EditorSaveState,
    )
        requires
            old(self).wf(),
        ensures
            final(self).wf(),
            final(self)@ == (ObjectsView { entries: settled(old(self)@.entries, ids@, named, *named_state, *others), ..old(self)@ }),
    {
        let ghost start = self.entries@;
        let mut j: usize = 0;
        while j < self.entries.len()
            invariant
                j <= self.entries@.len(),
                self.entries@.len() == start.len(),
                keys_unique(start),
                forall|x: int| 0 <= x < j ==> self.entries@[x] == settled(start, ids@, named, *named_state, *others)[x],
                forall|x: int| j <= x < start.len() ==> self.entries@[x] == start[x],
                self.edit_revision == old(self).edit_revision,
                self.active_save == old(self).active_save,
            decreases start.len() - j,
        {
            let id = self.entries[j].0;
            if contains_id(ids, id) {
                let is_named = match named {
                    Some(x) => x == id,
                    None => false,
                };
                let state = if is_named {
                    clone_state(named_state)
                } else {
                    clone_state(others)
                };
                let e = &self.entries[j].1;
                let entry = ObjectEditEntry { presentation: e.presentation, base: e.base, current: e.current, runtime: e.runtime, save_state: state };
                self.entries.set(j, (id, entry));
            }
            j = j + 1;
        }
        proof {
            let t = settled(start, ids@, named, *named_state, *others);
            assert(self.entries@ =~= t);
            assert forall|a: int, b: int| 0 <= a < t.len() && 0 <= b < t.len() && a != b implies t[a].0 != t[b].0 by {
                assert(t[a].0 == start[a].0);
                assert(t[b].0 == start[b].0);
            }
        }
    }

    /// Advances the runtime baseline of every object to its saved version; saves that are
    /// clean go idle. Returns how many objects' runtime version changed.
    pub fn adopt_runtime_generation(&mut self) -> (n: usize)
        requires
            old(self).wf(),
        ensures
            final(self).wf(),
            n == count_entries(old(self)@.entries, |e: ObjectEditEntry| runtime_lags(e)),
            n == 0 ==> final(self)@ == (ObjectsView { entries: adopt_all(old(self)@.entries), ..old(self)@ }),
            n > 0 ==> final(self)@ == bumped(ObjectsView { entries: adopt_all(old(self)@.entries), ..old(self)@ }),
    {
        let ghost start = self.entries@;
        let ghost p = |e: ObjectEditEntry| runtime_lags(e);
        let mut n: usize = 0;
        let mut i: usize = 0;
        while i < self.entries.len()
            invariant
                i <= self.entries@.len(),
                self.entries@.len() == start.len(),
                p == (|e: ObjectEditEntry| runtime_lags(e)),
                n == count_entries(start.take(i as int), p),
                n <= i,
                forall|j: int| 0 <= j < i ==> self.entries@[j] == (start[j].0, adopted_entry(start[j].1)),
                forall|j: int| i <= j < start.len() ==> self.entries@[j] == start[j],
                self.edit_revision == old(self).edit_revision,
                self.active_save == old(self).active_save,
            decreases start.len() - i,
        {
            proof {
                lemma_count_step(start, i as int, p);
            }
            let id = self.entries[i].0;
            let e = &self.entries[i].1;
            if !same_object(&e.runtime, &e.base) {
                n = n + 1;
            }
            let clean_saved = same_object(&e.current, &e.base) && matches!(e.save_state, EditorSaveState::Saved(_));
            let state = if clean_saved {
                EditorSaveState::Idle
            } else {
                clone_state(&e.save_state)
            };
            let entry = ObjectEditEntry { presentation: e.presentation, base: e.base, current: e.current, runtime: e.base, save_state: state };
            self.entries.set(i, (id, entry));
            i = i + 1;
        }
        proof {
            assert(start.take(i as int) =~= start);
            assert(self.entries@ =~= adopt_all(start));
            let t = adopt_all(start);
            assert forall|a: int, b: int| 0 <= a < t.len() && 0 <= b < t.len() && a != b implies t[a].0 != t[b].0 by {
                assert(t[a].0 == start[a].0);
                assert(t[b].0 == start[b].0);
            }
        }
        if n > 0 {
            self.bump_edit_revision();
        }
        n
    }
}

/// The abstract state of a selection.
pub struct SelectionView {
    pub selected: Seq<StableObjectId>,
    pub active: Option<StableObjectId>,
}

/// The selected objects and the one that edits act on.
pub struct EditorSelection {
    selected: Vec<StableObjectId>,
    active: Option<StableObjectId>,
}

impl View for EditorSelection {
    type V = SelectionView;

    closed spec fn view(&self) -> SelectionView {
        SelectionView { selected: self.selected@, active: self.active }
    }
}

impl EditorSelection {
    /// An empty selection.
    pub fn new() -> (s: Self)
        ensures
            s@.selected.len() == 0 && s@.active is None,
    {
        EditorSelection { selected: Vec::new(), active: None }
    }

    /// Selects only the given object, pinning it in the working set; refused while saving.
    pub fn select(&mut self, record: SourceObjectViewRecord, objects: &mut EditorObjectWorkingSet) -> (selected: bool)
        requires
            old(objects).wf(),
        ensures
            final(objects).wf(),
            selected == (old(objects)@.active_save is None),
            !selected ==> final(self)@ == old(self)@ && final(objects)@ == old(objects)@,
            selected ==> final(objects)@ == pin_model(old(objects)@, record) && final(self)@ == (SelectionView {
                selected: seq![record.object.id],
                active: Some(record.object.id),
            }),
    {
        if objects.saving() {
            return false;
        }
        let id = record.object.id;
        objects.pin(record);
        self.selected.clear();
        self.selected.push(id);
        self.active = Some(id);
        assert(self.selected@ =~= seq![id]);
        true
    }

    /// Adds the object to the selection, or takes it out when selected, pinning it in the
    /// working set; refused while saving. An added object becomes active; taking out the active
    /// object makes the last remaining one active.
    pub fn toggle(&mut self, record: SourceObjectViewRecord, objects: &mut EditorObjectWorkingSet) -> (toggled: bool)
        requires
            old(objects).wf(),
        ensures
            final(objects).wf(),
            toggled == (old(objects)@.active_save is None),
            !toggled ==> final(self)@ == old(self)@ && final(objects)@ == old(objects)@,
            toggled ==> final(objects)@ == pin_model(old(objects)@, record) && final(self)@ == toggled_selection(
                old(self)@,
                record.object.id,
            ),
    {
        if objects.saving() {
            return false;
        }
        let id = record.object.id;
        objects.pin(record);
        let mut i: usize = 0;
        while i < self.selected.len()
            invariant
                i <= self.selected@.len(),
                self.selected@ == old(self)@.selected,
                self.active == old(self)@.active,
                forall|j: int| 0 <= j < i ==> self.selected@[j] != id,
                objects.wf(),
                objects@ == pin_model(old(objects)@, record),
                old(objects)@.active_save is None,
                id == record.object.id,
            decreases self.selected@.len() - i,
        {
            if self.selected[i] == id {
                proof {
                    lemma_first_index(old(self)@.selected, id, i as int);
                }
                self.selected.remove(i);
                if self.active == Some(id) {
                    self.active = if self.selected.len() > 0 {
                        Some(self.selected[self.selected.len() - 1])
                    } else {
                        None
                    };
                }
                return true;
            }
            i = i + 1;
        }
        proof {
            lemma_first_index_absent(old(self)@.selected, id);
        }
        self.selected.push(id);
        self.active = Some(id);
        true
    }

    /// Selects only the given object, which must exist locally; refused while saving.
    pub fn select_id(&mut self, object: StableObjectId, objects: &EditorObjectWorkingSet) -> (selected: bool)
        requires
            objects.wf(),
        ensures
            selected == (objects@.active_save is None && has_key(objects@.entries, object) && entry_view(
                entry_of(objects@.entries, object),
            ) is Some),
            !selected ==> final(self)@ == old(self)@,
            selected ==> final(self)@ == (SelectionView { selected: seq![object], active: Some(object) }),
    {
        if objects.saving() || objects.current_view(object).is_none() {
            return false;
        }
        self.selected.clear();
        self.selected.push(object);
        self.active = Some(object);
        assert(self.selected@ =~= seq![object]);
        true
    }

    /// Empties the selection; refused while saving.
    pub fn clear(&mut self, objects: &EditorObjectWorkingSet) -> (cleared: bool)
        ensures
            cleared == (objects@.active_save is None),
            !cleared ==> final(self)@ == old(self)@,
            cleared ==> final(self)@.selected.len() == 0 && final(self)@.active is None,
    {
        if objects.saving() {
            return false;
        }
        self.selected.clear();
        self.active = None;
        true
    }

    /// The active object.
    pub fn selected_id(&self) -> (r: Option<StableObjectId>)
        ensures
            r == self@.active,
    {
        self.active
    }

    /// The selected objects.
    pub fn selected_ids(&self) -> (r: &[StableObjectId])
        ensures
            r@ == self@.selected,
    {
        self.selected.as_slice()
    }

    /// Whether the object is selected.
    pub fn contains(&self, object: StableObjectId) -> (r: bool)
        ensures
            r == self@.selected.contains(object),
    {
        contains_id(self.selected.as_slice(), object)
    }

    /// The active object as the editor shows it.
    pub fn selected_view(&self, objects: &EditorObjectWorkingSet) -> (r: Option<SourceObjectViewRecord>)
        requires
            objects.wf(),
        ensures
            r == (match self@.active {
                Some(id) => if has_key(objects@.entries, id) { entry_view(entry_of(objects@.entries, id)) } else { None },
                None => None,
            }),
    {
        match self.active {
            Some(id) => objects.current_view(id),
            None => None,
        }
    }

    /// Whether the selection may change: no save is in flight.
    pub fn can_change_selection(&self, objects: &EditorObjectWorkingSet) -> (r: bool)
        ensures
            r == (objects@.active_save is None),
    {
        !objects.saving()
    }

    /// Whether the active object may be edited.
    pub fn can_edit(&self, objects: &EditorObjectWorkingSet) -> (r: bool)
        requires
            objects.wf(),
        ensures
            r == (match self@.active {
                Some(id) => objects@.active_save is None && has_key(objects@.entries, id) && entry_of(objects@.entries, id).current
                    is Some && !has_conflict_state(entry_of(objects@.entries, id)),
                None => false,
            }),
    {
        match self.active {
            Some(id) => objects.can_edit(id),
            None => false,
        }
    }
}

/// One object's move, with its transform before and after.
#[derive(Clone, Copy, Debug, PartialEq, Eq, Structural)]
pub struct ObjectTransformChange {
    pub object: StableObjectId,
    pub before: ObjectTransform,
    pub after: ObjectTransform,
}

/// An undoable edit of objects.
#[derive(Debug)]
pub enum ObjectCommand {
    Create { object: SourceObjectRecord },
    Transform { changes: Vec<ObjectTransformChange> },
    Delete { objects: Vec<SourceObjectRecord> },
}

/// The moves to the transforms after the changes.
pub open spec fn afters(changes: Seq<ObjectTransformChange>) -> Seq<(StableObjectId, ObjectTransform)> {
    changes.map_values(|c: ObjectTransformChange| (c.object, c.after))
}

/// The moves back to the transforms before the changes.
pub open spec fn befores(changes: Seq<ObjectTransformChange>) -> Seq<(StableObjectId, ObjectTransform)> {
    changes.map_values(|c: ObjectTransformChange| (c.object, c.before))
}

/// What applying a command does to the working set, and whether it succeeded.
pub open spec fn apply_model(command: ObjectCommand, s: ObjectsView) -> (ObjectsView, bool) {
    match command {
        ObjectCommand::Create { object } => restore_model(s, seq![object]),
        ObjectCommand::Transform { changes } => transforms_model(s, afters(changes@)),
        ObjectCommand::Delete { objects } => {
            let d = delete_model(s, record_ids(objects@));
            (d.0, d.1 is Some)
        },
    }
}

/// What reverting a command does to the working set, and whether it succeeded.
pub open spec fn revert_model(command: ObjectCommand, s: ObjectsView) -> (ObjectsView, bool) {
    match command {
        ObjectCommand::Create { object } => {
            let d = delete_model(s, seq![object.id]);
            (d.0, d.1 is Some)
        },
        ObjectCommand::Transform { changes } => transforms_model(s, befores(changes@)),
        ObjectCommand::Delete { objects } => restore_model(s, objects@),
    }
}

/// An estimate no larger than the largest `usize`.
pub open spec fn capped(v: int) -> usize {
    if v > usize::MAX { usize::MAX } else { v as usize }
}

/// The estimated memory of what a command holds.
pub open spec fn held_bytes(command: ObjectCommand) -> nat {
    match command {
        ObjectCommand::Create { .. } => vstd::layout::size_of::<SourceObjectRecord>(),
        ObjectCommand::Transform { changes } => changes@.len() * vstd::layout::size_of::<ObjectTransformChange>(),
        ObjectCommand::Delete { objects } => objects@.len() * vstd::layout::size_of::<SourceObjectRecord>(),
    }
}

pub(crate) fn capped_add(a: usize, b: usize) -> (r: usize)
    ensures
        r == capped(a + b),
{
    a.checked_add(b).unwrap_or(usize::MAX)
}

pub(crate) fn capped_mul(a: usize, b: usize) -> (r: usize)
    ensures
        r == capped(a * b),
{
    a.checked_mul(b).unwrap_or(usize::MAX)
}

impl ObjectCommand {
    /// Applies the command to the working set; reports whether it could.
    pub fn apply(&self, objects: &mut EditorObjectWorkingSet) -> (applied: bool)
        requires
            old(objects).wf(),
        ensures
            final(objects).wf(),
            (final(objects)@, applied) == apply_model(*self, old(objects)@),
    {
        match self {
            ObjectCommand::Create { object } => {
                let list = [*object];
                assert(list@ =~= seq![*object]);
                objects.restore_objects(&list)
            },
            ObjectCommand::Transform { changes } => {
                let moves = moves_of(changes.as_slice(), true);
                objects.set_transforms(moves.as_slice())
            },
            ObjectCommand::Delete { objects: deleted } => {
                let ids = ids_of(deleted.as_slice());
                objects.delete_objects(ids.as_slice()).is_some()
            },
        }
    }

    /// Reverts the command in the working set; reports whether it could.
    pub fn revert(&self, objects: &mut EditorObjectWorkingSet) -> (reverted: bool)
        requires
            old(objects).wf(),
        ensures
            final(objects).wf(),
            (final(objects)@, reverted) == revert_model(*self, old(objects)@),
    {
        match self {
            ObjectCommand::Create { object } => {
                let list = [object.id];
                assert(list@ =~= seq![object.id]);
                objects.delete_objects(&list).is_some()
            },
            ObjectCommand::Transform { changes } => {
                let moves = moves_of(changes.as_slice(), false);
                objects.set_transforms(moves.as_slice())
            },
            ObjectCommand::Delete { objects: deleted } => objects.restore_objects(deleted.as_slice()),
        }
    }
}

fn moves_of(changes: &[ObjectTransformChange], after: bool) -> (r: Vec<(StableObjectId, ObjectTransform)>)
    ensures
        r@ == if after { afters(changes@) } else { befores(changes@) },
{
    let mut r: Vec<(StableObjectId, ObjectTransform)> = Vec::new();
    let mut i: usize = 0;
    while i < changes.len()
        invariant
            i <= changes@.len(),
            r@ == if after { afters(changes@.take(i as int)) } else { befores(changes@.take(i as int)) },
        decreases changes@.len() - i,
    {
        let c = changes[i];
        r.push((c.object, if after { c.after } else { c.before }));
        proof {
            assert(afters(changes@.take(i + 1)) =~= afters(changes@.take(i as int)).push((c.object, c.after)));
            assert(befores(changes@.take(i + 1)) =~= befores(changes@.take(i as int)).push((c.object, c.before)));
        }
        i = i + 1;
    }
    assert(changes@.take(i as int) =~= changes@);
    r
}

fn ids_of(objects: &[SourceObjectRecord]) -> (r: Vec<StableObjectId>)
    ensures
        r@ == record_ids(objects@),
{
    let mut r: Vec<StableObjectId> = Vec::new();
    let mut i: usize = 0;
    while i < objects.len()
        invariant
            i <= objects@.len(),
            r@ == record_ids(objects@.take(i as int)),
        decreases objects@.len() - i,
    {
        r.push(objects[i].id);
        proof {
            assert(record_ids(objects@.take(i + 1)) =~= record_ids(objects@.take(i as int)).push(objects@[i as int].id));
        }
        i = i + 1;
    }
    assert(objects@.take(i as int) =~= objects@);
    r
}

fn collect_changes(
    objects: &EditorObjectWorkingSet,
    ts: &[(StableObjectId, ObjectTransform)],
    after: bool,
) -> (r: Option<Vec<ObjectTransformChange>>)
    requires
        objects.wf(),
    ensures
        r is Some == moves_shown(objects@.entries, ts@),
        r matches Some(c) ==> c@ == change_list(objects@.entries, ts@, after),
{
    let mut ids: Vec<StableObjectId> = Vec::new();
    let mut changes: Vec<ObjectTransformChange> = Vec::new();
    let mut i: usize = 0;
    while i < ts.len()
        invariant
            i <= ts@.len(),
            objects.wf(),
            ids@ == ts@.take(i as int).map_values(|p: (StableObjectId, ObjectTransform)| p.0),
            forall|j: int| 0 <= j < i ==> shown(objects@.entries, #[trigger] ts@[j].0),
            changes@ == change_list(objects@.entries, ts@.take(i as int), after),
        decreases ts@.len() - i,
    {
        let (id, t) = ts[i];
        proof {
            assert(ts@.take(i + 1).drop_last() =~= ts@.take(i as int));
            assert(ts@.take(i + 1).map_values(|p: (StableObjectId, ObjectTransform)| p.0) =~= ts@.take(i as int).map_values(
                |p: (StableObjectId, ObjectTransform)| p.0,
            ).push(id));
        }
        ids.push(id);
        let shown_transform = match objects.current_view(id) {
            Some(v) => v.object.transform,
            None => {
                assert(!shown(objects@.entries, ts@[i as int].0));
                return None;
            },
        };
        if shown_transform != t {
            changes.push(
                if after {
                    ObjectTransformChange { object: id, before: shown_transform, after: t }
                } else {
                    ObjectTransformChange { object: id, before: t, after: shown_transform }
                },
            );
        }
        i = i + 1;
    }
    assert(ts@.take(i as int) =~= ts@);
    if !ids_distinct(ids.as_slice()) {
        return None;
    }
    Some(changes)
}

pub proof fn lemma_first_for_distinct<T>(items: Seq<(StableObjectId, T)>, j: int)
    requires
        distinct(items.map_values(|p: (StableObjectId, T)| p.0)),
        0 <= j < items.len(),
    ensures
        first_for(items, items[j].0) == Some(items[j].1),
    decreases items.len(),
{
    let ids = items.map_values(|p: (StableObjectId, T)| p.0);
    if j > 0 {
        assert(ids[0] == items[0].0 && ids[j] == items[j].0);
        assert(items[0].0 != items[j].0);
        let rest = items.drop_first();
        let rest_ids = rest.map_values(|p: (StableObjectId, T)| p.0);
        assert forall|a: int, b: int| 0 <= a < rest_ids.len() && 0 <= b < rest_ids.len() && a != b implies rest_ids[a] != rest_ids[b] by {
            assert(rest_ids[a] == ids[a + 1] && rest_ids[b] == ids[b + 1]);
        }
        assert(rest[j - 1] == items[j]);
        lemma_first_for_distinct(rest, j - 1);
    }
}

pub proof fn lemma_map_keeps_index(
    s: Seq<(StableObjectId, ObjectEditEntry)>,
    t: Seq<(StableObjectId, ObjectEditEntry)>,
    id: StableObjectId,
)
    requires
        keys_unique(s),
        t.len() == s.len(),
        forall|i: int| 0 <= i < s.len() ==> #[trigger] t[i].0 == s[i].0,
        has_key(s, id),
    ensures
        keys_unique(t),
        has_key(t, id),
        key_index(t, id) == key_index(s, id),
{
    assert forall|a: int, b: int| 0 <= a < t.len() && 0 <= b < t.len() && a != b implies t[a].0 != t[b].0 by {
        assert(t[a].0 == s[a].0 && t[b].0 == s[b].0);
    }
    let i = key_index(s, id);
    assert(t[i].0 == id);
    lemma_key_index(t, i);
}

/// Moving objects and then moving them back to the transforms they had restores every
/// object's local version: undoing a recorded move gives back what the editor showed.
pub proof fn law_moving_back_restores(s: ObjectsView, changes: Seq<ObjectTransformChange>)
    requires
        objects_inv(s),
        transforms_model(s, afters(changes)).1,
        forall|i: int| 0 <= i < changes.len() ==> entry_of(s.entries, #[trigger] changes[i].object).current->0.transform
            == changes[i].before,
    ensures
        transforms_model(transforms_model(s, afters(changes)).0, befores(changes)).1,
        forall|i: int| 0 <= i < s.entries.len() ==> (#[trigger] transforms_model(
            transforms_model(s, afters(changes)).0,
            befores(changes),
        ).0.entries[i]).1.current == s.entries[i].1.current,
{
    let a = afters(changes);
    let b = befores(changes);
    let t = transforms_model(s, a).0;
    let ids_a = a.map_values(|p: (StableObjectId, ObjectTransform)| p.0);
    let ids_b = b.map_values(|p: (StableObjectId, ObjectTransform)| p.0);
    assert(ids_a =~= ids_b);
    assert forall|i: int| 0 <= i < s.entries.len() implies #[trigger] t.entries[i].0 == s.entries[i].0 by {}
    // Every moved object is still editable after the move, at its new transform.
    assert forall|i: int| 0 <= i < b.len() implies editable(t.entries, #[trigger] b[i].0) && entry_of(t.entries, b[i].0).current->0.transform
        == changes[i].after by {
        assert(b[i].0 == changes[i].object && a[i].0 == changes[i].object);
        assert(editable(s.entries, a[i].0));
        lemma_map_keeps_index(s.entries, t.entries, changes[i].object);
        lemma_first_for_distinct(a, i);
    }
    let j = choose|j: int| 0 <= j < a.len() && entry_of(s.entries, #[trigger] a[j].0).current->0.transform != a[j].1;
    assert(a[j].0 == changes[j].object);
    assert(entry_of(t.entries, b[j].0).current->0.transform != b[j].1);
    let u = transforms_model(t, b).0;
    assert forall|i: int| 0 <= i < s.entries.len() implies (#[trigger] u.entries[i]).1.current == s.entries[i].1.current by {
        let id = s.entries[i].0;
        match first_for(b, id) {
            Some(x) => {
                lemma_first_for_member(b, id);
                let k = choose|k: int| 0 <= k < b.len() && b[k].0 == id && first_for(b, id) == Some(b[k].1);
                lemma_first_for_distinct(a, k);
                assert(a[k].0 == id);
                lemma_key_index(s.entries, i);
            },
            None => {
                lemma_first_for_member(b, id);
                if first_for(a, id) is Some {
                    lemma_first_for_member(a, id);
                    let k = choose|k: int| 0 <= k < a.len() && a[k].0 == id && first_for(a, id) == Some(a[k].1);
                    assert(b[k].0 == id);
                }
            },
        }
    }
}

/// Deleting objects and bringing back the versions the deletion handed out restores every
/// object's local version: undoing a recorded deletion gives back what the editor showed,
/// whenever each deleted version carries its own object's identity.
pub proof fn law_restoring_deleted_restores(s: ObjectsView, ids: Seq<StableObjectId>)
    requires
        objects_inv(s),
        delete_model(s, ids).1 is Some,
        forall|k: int| 0 <= k < ids.len() ==> entry_of(s.entries, #[trigger] ids[k]).current->0.id == ids[k],
    ensures
        restore_model(delete_model(s, ids).0, delete_model(s, ids).1->0).1,
        forall|i: int| 0 <= i < s.entries.len() ==> (#[trigger] restore_model(
            delete_model(s, ids).0,
            delete_model(s, ids).1->0,
        ).0.entries[i]).1.current == s.entries[i].1.current,
{
    let t = delete_model(s, ids).0;
    let d = delete_model(s, ids).1->0;
    assert forall|i: int| 0 <= i < s.entries.len() implies #[trigger] t.entries[i].0 == s.entries[i].0 by {}
    assert(record_ids(d) =~= ids) by {
        assert forall|k: int| 0 <= k < ids.len() implies record_ids(d)[k] == ids[k] by {
            assert(editable(s.entries, ids[k]));
            let x = key_index(s.entries, ids[k]);
        }
    }
    assert forall|k: int| 0 <= k < d.len() implies restorable(t.entries, #[trigger] d[k].id) by {
        assert(record_ids(d)[k] == ids[k]);
        assert(editable(s.entries, ids[k]));
        lemma_map_keeps_index(s.entries, t.entries, ids[k]);
        assert(ids.contains(ids[k]));
    }
    let u = restore_model(t, d).0;
    assert forall|i: int| 0 <= i < s.entries.len() implies (#[trigger] u.entries[i]).1.current == s.entries[i].1.current by {
        let id = s.entries[i].0;
        lemma_first_for_member(keyed(d), id);
        if ids.contains(id) {
            let k = choose|k: int| 0 <= k < ids.len() && ids[k] == id;
            assert(keyed(d)[k] == (id, d[k]));
            let keyed_ids = keyed(d).map_values(|p: (StableObjectId, SourceObjectRecord)| p.0);
            assert(keyed_ids =~= ids);
            lemma_first_for_distinct(keyed(d), k);
            lemma_key_index(s.entries, i);
        } else {
            if first_for(keyed(d), id) is Some {
                let k = choose|k: int| 0 <= k < keyed(d).len() && keyed(d)[k].0 == id && first_for(keyed(d), id) == Some(keyed(d)[k].1);
                assert(ids[k] == id);
            }
        }
    }
}

impl EditorHistory<EditorCommand> {
    /// Creates an object and records the creation; refused as `create_object` refuses.
    pub fn create(&mut self, objects: &mut EditorObjectWorkingSet, record: SourceObjectViewRecord) -> (created: bool)
        requires
            old(self).wf(),
            old(objects).wf(),
        ensures
            final(self).wf(),
            final(objects).wf(),
            created == (old(objects)@.active_save is None && !has_key(old(objects)@.entries, record.object.id)),
            !created ==> final(objects)@ == old(objects)@ && final(self)@ == old(self)@,
            created ==> final(objects)@ == bumped(
                ObjectsView { entries: old(objects)@.entries.push((record.object.id, from_created(record))), ..old(objects)@ },
            ) && final(self)@ == record_model(
                old(self)@,
                EditorCommand::Object(ObjectCommand::Create { object: record.object }),
                editor_command_bytes(EditorCommand::Object(ObjectCommand::Create { object: record.object })) as nat,
            ),
    {
        if !objects.create_object(record) {
            return false;
        }
        let command = EditorCommand::Object(ObjectCommand::Create { object: record.object });
        let bytes = command.estimated_bytes();
        self.record(command, bytes);
        true
    }

    /// Moves objects and records the moves that changed something; refused for repeated or
    /// hidden objects, when nothing would move, and as `set_transforms` refuses.
    pub fn apply_transforms(
        &mut self,
        objects: &mut EditorObjectWorkingSet,
        transforms: &[(StableObjectId, ObjectTransform)],
    ) -> (applied: bool)
        requires
            old(self).wf(),
            old(objects).wf(),
        ensures
            final(self).wf(),
            final(objects).wf(),
            applied == (moves_shown(old(objects)@.entries, transforms@) && change_list(old(objects)@.entries, transforms@, true).len()
                > 0 && transforms_model(old(objects)@, afters(change_list(old(objects)@.entries, transforms@, true))).1),
            !applied ==> final(self)@ == old(self)@ && final(objects)@ == old(objects)@,
            applied ==> final(objects)@ == transforms_model(old(objects)@, afters(change_list(old(objects)@.entries, transforms@, true))).0
                && exists|command: ObjectCommand|
                #![trigger record_model(old(self)@, EditorCommand::Object(command), editor_command_bytes(EditorCommand::Object(command)) as nat)]
                command matches ObjectCommand::Transform { changes } && changes@ == change_list(old(objects)@.entries, transforms@, true)
                    && final(self)@ == record_model(old(self)@, EditorCommand::Object(command), editor_command_bytes(EditorCommand::Object(command)) as nat),
    {
        let changes = match collect_changes(objects, transforms, true) {
            None => return false,
            Some(c) => c,
        };
        if changes.len() == 0 {
            return false;
        }
        let moves = moves_of(changes.as_slice(), true);
        if !objects.set_transforms(moves.as_slice()) {
            return false;
        }
        let command = ObjectCommand::Transform { changes };
        let ghost g = command;
        let command = EditorCommand::Object(command);
        let bytes = command.estimated_bytes();
        self.record(command, bytes);
        assert(self@ == record_model(old(self)@, EditorCommand::Object(g), editor_command_bytes(EditorCommand::Object(g)) as nat));
        true
    }

    /// Records moves that previews already made, from the transforms before them to what the
    /// editor shows now; refused for repeated or hidden objects and when nothing moved.
    pub fn record_previews(&mut self, objects: &EditorObjectWorkingSet, before: &[(StableObjectId, ObjectTransform)]) -> (recorded: bool)
        requires
            old(self).wf(),
            objects.wf(),
        ensures
            final(self).wf(),
            recorded == (moves_shown(objects@.entries, before@) && change_list(objects@.entries, before@, false).len() > 0),
            !recorded ==> final(self)@ == old(self)@,
            recorded ==> exists|command: ObjectCommand|
                #![trigger record_model(old(self)@, EditorCommand::Object(command), editor_command_bytes(EditorCommand::Object(command)) as nat)]
                command matches ObjectCommand::Transform { changes } && changes@ == change_list(objects@.entries, before@, false)
                    && final(self)@ == record_model(old(self)@, EditorCommand::Object(command), editor_command_bytes(EditorCommand::Object(command)) as nat),
    {
        let changes = match collect_changes(objects, before, false) {
            None => return false,
            Some(c) => c,
        };
        if changes.len() == 0 {
            return false;
        }
        let command = ObjectCommand::Transform { changes };
        let ghost g = command;
        let command = EditorCommand::Object(command);
        let bytes = command.estimated_bytes();
        self.record(command, bytes);
        assert(self@ == record_model(old(self)@, EditorCommand::Object(g), editor_command_bytes(EditorCommand::Object(g)) as nat));
        true
    }

    /// Deletes the selected objects and records the deletion; refused as `delete_objects`
    /// refuses.
    pub fn delete_many(&mut self, objects: &mut EditorObjectWorkingSet, selected: &[StableObjectId]) -> (deleted: bool)
        requires
            old(self).wf(),
            old(objects).wf(),
        ensures
            final(self).wf(),
            final(objects).wf(),
            final(objects)@ == delete_model(old(objects)@, selected@).0,
            deleted == delete_model(old(objects)@, selected@).1 is Some,
            !deleted ==> final(self)@ == old(self)@,
            deleted ==> exists|command: ObjectCommand|
                #![trigger record_model(old(self)@, EditorCommand::Object(command), editor_command_bytes(EditorCommand::Object(command)) as nat)]
                command matches ObjectCommand::Delete { objects: d } && Some(d@) == delete_model(old(objects)@, selected@).1
                    && final(self)@ == record_model(old(self)@, EditorCommand::Object(command), editor_command_bytes(EditorCommand::Object(command)) as nat),
    {
        match objects.delete_objects(selected) {
            None => false,
            Some(deleted) => {
                let command = ObjectCommand::Delete { objects: deleted };
                let ghost g = command;
                let command = EditorCommand::Object(command);
                let bytes = command.estimated_bytes();
                self.record(command, bytes);
                assert(g matches ObjectCommand::Delete { objects: d } && Some(d@) == delete_model(old(objects)@, selected@).1);
                assert(self@ == record_model(old(self)@, EditorCommand::Object(g), editor_command_bytes(EditorCommand::Object(g)) as nat));
                true
            },
        }
    }

}

} // verus!
