//! The ground-cover region working set: local edits of project regions over their saved
//! records, with saving, conflicts, recovery snapshots and runtime divergence.

use vstd::prelude::*;
use crate::assoc::{has_key, keys_unique};
use crate::history::EditorHistory;
use crate::project_store::next_id;
use crate::ranked::{sort_by_rank, sort_ranked, Rank};
use crate::text::{append_decimal, decimal};
use crate::world::WorldSpaceId;

verus! {

/// Identity of a ground-cover region.
#[derive(Clone, Copy, Debug, PartialEq, Eq, Hash, Structural)]
pub struct GroundCoverRegionId(pub u128);

/// A ground-cover region: its identity, layer and world space, with the rest of its fields
/// (preset, name, density) held by content; `fields_valid` records whether its name and
/// density passed validation.
#[derive(Clone, Copy, Debug, PartialEq, Eq, Structural)]
pub struct SourceGroundCoverRegionRecord {
    pub id: GroundCoverRegionId,
    pub layer: u128,
    pub space: WorldSpaceId,
    pub enabled: bool,
    pub content: u64,
    pub fields_valid: bool,
    pub source_revision: i64,
}

/// Where the save of one region stands.
#[derive(Debug)]
pub enum RegionSaveState {
    Idle,
    Saving(u64),
    Conflict(Option<SourceGroundCoverRegionRecord>),
    BlockedByCoverage,
    Failed(String),
}

/// The saved and local version of one region; `None` is an absent region.
#[derive(Debug)]
pub struct RegionEditEntry {
    pub base: Option<SourceGroundCoverRegionRecord>,
    pub current: Option<SourceGroundCoverRegionRecord>,
    pub save_state: RegionSaveState,
}

/// A recovery snapshot of one edited region.
#[derive(Clone, Copy, Debug, PartialEq, Eq, Structural)]
pub struct DirtyRegionSnapshot {
    pub base: Option<SourceGroundCoverRegionRecord>,
    pub current: Option<SourceGroundCoverRegionRecord>,
}

/// One write of a region save transaction.
#[derive(Clone, Copy, Debug, PartialEq, Eq, Structural)]
pub enum GroundCoverRegionWrite {
    Create { record: SourceGroundCoverRegionRecord },
    DeleteEmpty { region: GroundCoverRegionId, expected_source_revision: i64 },
    Update { expected_source_revision: i64, record: SourceGroundCoverRegionRecord },
}

/// What the database committed for one write.
#[derive(Clone, Copy, Debug, PartialEq, Eq, Structural)]
pub enum GroundCoverRegionWriteCommit {
    Created(SourceGroundCoverRegionRecord),
    Updated(SourceGroundCoverRegionRecord),
    Deleted(GroundCoverRegionId),
}

/// What the database answered to a region save transaction.
#[derive(Debug)]
pub enum RegionSaveOutcome {
    Committed(Vec<GroundCoverRegionWriteCommit>),
    Conflict { region: GroundCoverRegionId, actual: Option<SourceGroundCoverRegionRecord> },
    BlockedByCoverage { region: GroundCoverRegionId },
    Failed(String),
}

/// The abstract state of the region working set.
pub struct RegionView {
    pub entries: Seq<(GroundCoverRegionId, RegionEditEntry)>,
    pub last_completed_query: u64,
    pub edit_revision: u64,
    pub runtime_diverged: bool,
}

/// The local version differs from the saved one.
pub open spec fn is_dirty(e: RegionEditEntry) -> bool {
    e.base != e.current
}

/// The entry must survive a reload: it is edited, or its save is not idle.
pub open spec fn is_pinned(e: RegionEditEntry) -> bool {
    is_dirty(e) || !(e.save_state is Idle)
}

/// A record that may be stored: its name and density passed validation and its revision is
/// not negative.
pub open spec fn spec_valid_record(r: SourceGroundCoverRegionRecord) -> bool {
    r.fields_valid && r.source_revision >= 0
}

/// The number of entries whose value satisfies `p`.
pub open spec fn count_entries(
    s: Seq<(GroundCoverRegionId, RegionEditEntry)>,
    p: spec_fn(RegionEditEntry) -> bool,
) -> nat
    decreases s.len(),
{
    if s.len() == 0 {
        0
    } else {
        count_entries(s.drop_last(), p) + if p(s.last().1) {
            1nat
        } else {
            0nat
        }
    }
}

/// Some entry's value satisfies `p`.
pub open spec fn any_entry(
    s: Seq<(GroundCoverRegionId, RegionEditEntry)>,
    p: spec_fn(RegionEditEntry) -> bool,
) -> bool {
    exists|i: int| 0 <= i < s.len() && p(#[trigger] s[i].1)
}

/// The entry's save is in flight.
pub open spec fn is_saving(e: RegionEditEntry) -> bool {
    e.save_state is Saving
}

/// The entry's save met a conflict.
pub open spec fn is_conflict(e: RegionEditEntry) -> bool {
    e.save_state is Conflict
}

/// The local version can be kept over the database's: it is the same region in the same layer
/// and world space.
pub open spec fn same_place(a: SourceGroundCoverRegionRecord, b: SourceGroundCoverRegionRecord) -> bool {
    a.id == b.id && a.layer == b.layer && a.space == b.space
}

/// A conflict that keeping the local version can resolve.
pub open spec fn keepable_conflict(e: RegionEditEntry) -> bool {
    match e.save_state {
        RegionSaveState::Conflict(Some(a)) => match e.current {
            None => true,
            Some(c) => same_place(c, a),
        },
        RegionSaveState::Conflict(None) => true,
        _ => false,
    }
}

/// The position of a key in the entries.
pub open spec fn key_index(s: Seq<(GroundCoverRegionId, RegionEditEntry)>, k: GroundCoverRegionId) -> int {
    choose|i: int| 0 <= i < s.len() && s[i].0 == k
}

/// The entries with the key's entry set: in place when the key is present, else at the end.
pub open spec fn put_entry(
    s: Seq<(GroundCoverRegionId, RegionEditEntry)>,
    k: GroundCoverRegionId,
    e: RegionEditEntry,
) -> Seq<(GroundCoverRegionId, RegionEditEntry)> {
    if has_key(s, k) {
        s.update(key_index(s, k), (k, e))
    } else {
        s.push((k, e))
    }
}

/// The entries without the key's entry.
pub open spec fn remove_entry(
    s: Seq<(GroundCoverRegionId, RegionEditEntry)>,
    k: GroundCoverRegionId,
) -> Seq<(GroundCoverRegionId, RegionEditEntry)> {
    if has_key(s, k) {
        s.remove(key_index(s, k))
    } else {
        s
    }
}

/// The working set after an edit: it differs from the runtime generation, and its revision
/// moves on.
pub open spec fn diverged(s: RegionView) -> RegionView {
    RegionView { runtime_diverged: true, edit_revision: next_id(s.edit_revision), ..s }
}

/// The entry of a key that is present.
pub open spec fn entry_of(s: Seq<(GroundCoverRegionId, RegionEditEntry)>, k: GroundCoverRegionId) -> RegionEditEntry {
    s[key_index(s, k)].1
}

/// What creating a region does: refused when a current version of it exists; otherwise it
/// gets a new, unsaved entry.
pub open spec fn create_model(s: RegionView, record: SourceGroundCoverRegionRecord) -> (RegionView, bool) {
    let k = record.id;
    if has_key(s.entries, k) && entry_of(s.entries, k).current is Some {
        (s, false)
    } else {
        (
            diverged(
                RegionView {
                    entries: put_entry(
                        s.entries,
                        k,
                        RegionEditEntry { base: None, current: Some(record), save_state: RegionSaveState::Idle },
                    ),
                    ..s
                },
            ),
            true,
        )
    }
}

/// What restoring a deleted region does: a deleted entry that is not saving gets its saved
/// version back, or the given record when it was never saved; an unknown region is created.
pub open spec fn restore_model(s: RegionView, record: SourceGroundCoverRegionRecord) -> (RegionView, bool) {
    let k = record.id;
    if has_key(s.entries, k) {
        let e = entry_of(s.entries, k);
        if e.current is Some || e.save_state is Saving {
            (s, false)
        } else {
            let restored = match e.base {
                Some(b) => b,
                None => record,
            };
            (
                diverged(
                    RegionView {
                        entries: s.entries.update(
                            key_index(s.entries, k),
                            (k, RegionEditEntry { base: e.base, current: Some(restored), save_state: RegionSaveState::Idle }),
                        ),
                        ..s
                    },
                ),
                true,
            )
        }
    } else {
        create_model(s, record)
    }
}

/// What deleting a region does: a current version that is not saving is removed and handed
/// back.
pub open spec fn delete_model(s: RegionView, k: GroundCoverRegionId) -> (RegionView, Option<SourceGroundCoverRegionRecord>) {
    if !has_key(s.entries, k) {
        (s, None)
    } else {
        let e = entry_of(s.entries, k);
        if e.save_state is Saving || e.current is None {
            (s, None)
        } else {
            (
                diverged(
                    RegionView {
                        entries: s.entries.update(
                            key_index(s.entries, k),
                            (k, RegionEditEntry { base: e.base, current: None, save_state: RegionSaveState::Idle }),
                        ),
                        ..s
                    },
                ),
                e.current,
            )
        }
    }
}

/// The record with the given source revision.
pub open spec fn with_revision(r: SourceGroundCoverRegionRecord, source_revision: i64) -> SourceGroundCoverRegionRecord {
    SourceGroundCoverRegionRecord { source_revision, ..r }
}

/// What replacing a region does: a valid record in the same layer and world space takes the
/// place of a current version that is not saving, keeping that version's source revision; an
/// unchanged record changes nothing.
pub open spec fn replace_model(s: RegionView, record: SourceGroundCoverRegionRecord) -> (RegionView, bool) {
    let k = record.id;
    if !spec_valid_record(record) || !has_key(s.entries, k) {
        (s, false)
    } else {
        let e = entry_of(s.entries, k);
        if e.current is None {
            (s, false)
        } else if e.save_state is Saving || e.current->0.layer != record.layer || e.current->0.space != record.space {
            (s, false)
        } else {
            let r = with_revision(record, e.current->0.source_revision);
            if e.current->0 == r {
                (s, false)
            } else {
                (
                    diverged(
                        RegionView {
                            entries: s.entries.update(
                                key_index(s.entries, k),
                                (k, RegionEditEntry { base: e.base, current: Some(r), save_state: RegionSaveState::Idle }),
                            ),
                            ..s
                        },
                    ),
                    true,
                )
            }
        }
    }
}

/// The first record of the list with the identity.
pub open spec fn first_with_key(records: Seq<SourceGroundCoverRegionRecord>, k: GroundCoverRegionId) -> Option<SourceGroundCoverRegionRecord>
    decreases records.len(),
{
    if records.len() == 0 {
        None
    } else if records[0].id == k {
        Some(records[0])
    } else {
        first_with_key(records.drop_first(), k)
    }
}

/// The version of a region the editor shows: the local one when it has an entry, else the
/// project's saved one.
pub open spec fn current_of(
    s: RegionView,
    project: Seq<SourceGroundCoverRegionRecord>,
    k: GroundCoverRegionId,
) -> Option<SourceGroundCoverRegionRecord> {
    if has_key(s.entries, k) {
        entry_of(s.entries, k).current
    } else {
        first_with_key(project, k)
    }
}

/// The key a recovery snapshot belongs to: that of its local version, else of its saved one.
pub open spec fn snapshot_key(snapshot: DirtyRegionSnapshot) -> Option<GroundCoverRegionId> {
    match (snapshot.current, snapshot.base) {
        (Some(c), _) => Some(c.id),
        (None, Some(b)) => Some(b.id),
        (None, None) => None,
    }
}

/// A snapshot that may be restored: a creation, a deletion, or an update in the same layer,
/// world space and source revision; it differs, and both versions are valid records of its
/// region.
pub open spec fn restorable_snapshot(snapshot: DirtyRegionSnapshot) -> bool {
    match snapshot_key(snapshot) {
        None => false,
        Some(k) => {
            &&& ((snapshot.base, snapshot.current) matches (Some(b), Some(c)) ==> b.layer == c.layer && b.space
                == c.space && b.source_revision == c.source_revision)
            &&& snapshot.base != snapshot.current
            &&& (snapshot.base matches Some(b) ==> b.id == k && spec_valid_record(b))
            &&& (snapshot.current matches Some(c) ==> c.id == k && spec_valid_record(c))
        },
    }
}

/// The entry after its failed or blocked save was dismissed.
pub open spec fn dismissed(e: RegionEditEntry) -> RegionEditEntry {
    match e.save_state {
        RegionSaveState::BlockedByCoverage | RegionSaveState::Failed(_) => RegionEditEntry {
            save_state: RegionSaveState::Idle,
            ..e
        },
        _ => e,
    }
}

/// Every entry with its failed or blocked save dismissed.
pub open spec fn dismiss_all(s: Seq<(GroundCoverRegionId, RegionEditEntry)>) -> Seq<(GroundCoverRegionId, RegionEditEntry)> {
    s.map_values(|p: (GroundCoverRegionId, RegionEditEntry)| (p.0, dismissed(p.1)))
}

/// The entry's save failed or was blocked.
pub open spec fn is_failure(e: RegionEditEntry) -> bool {
    e.save_state is BlockedByCoverage || e.save_state is Failed
}

/// The entries after `f` rewrote or dropped each one, in order.
pub open spec fn filter_map_entries(
    s: Seq<(GroundCoverRegionId, RegionEditEntry)>,
    f: spec_fn((GroundCoverRegionId, RegionEditEntry)) -> Option<(GroundCoverRegionId, RegionEditEntry)>,
) -> Seq<(GroundCoverRegionId, RegionEditEntry)>
    decreases s.len(),
{
    if s.len() == 0 {
        Seq::empty()
    } else {
        let rest = filter_map_entries(s.drop_last(), f);
        match f(s.last()) {
            Some(q) => rest.push(q),
            None => rest,
        }
    }
}

/// Accepting the database's version of a conflicting region: the actual record becomes
/// both saved and local version, or the entry goes when the region is gone.
pub open spec fn accept_step(p: (GroundCoverRegionId, RegionEditEntry)) -> Option<(GroundCoverRegionId, RegionEditEntry)> {
    match p.1.save_state {
        RegionSaveState::Conflict(Some(a)) => Some(
            (p.0, RegionEditEntry { base: Some(a), current: Some(a), save_state: RegionSaveState::Idle }),
        ),
        RegionSaveState::Conflict(None) => None,
        _ => Some(p),
    }
}

/// Every conflict resolved in favour of the database.
pub open spec fn accept_all(s: Seq<(GroundCoverRegionId, RegionEditEntry)>) -> Seq<(GroundCoverRegionId, RegionEditEntry)> {
    filter_map_entries(s, |p: (GroundCoverRegionId, RegionEditEntry)| accept_step(p))
}

/// A conflict that keeping the local version resolves: all but a local version of another
/// place.
pub open spec fn resolvable_conflict(e: RegionEditEntry) -> bool {
    match e.save_state {
        RegionSaveState::Conflict(Some(a)) => match e.current {
            None => true,
            Some(c) => same_place(c, a),
        },
        RegionSaveState::Conflict(None) => true,
        _ => false,
    }
}

/// Keeping the local version of a conflicting region: it is rebased on the database's
/// version, becomes a creation when the saved region is gone, or the entry goes when both are
/// gone.
pub open spec fn keep_step(p: (GroundCoverRegionId, RegionEditEntry)) -> Option<(GroundCoverRegionId, RegionEditEntry)> {
    if !resolvable_conflict(p.1) {
        Some(p)
    } else {
        match (p.1.save_state, p.1.current) {
            (RegionSaveState::Conflict(Some(a)), Some(c)) => Some(
                (p.0, RegionEditEntry {
                    base: Some(a),
                    current: Some(with_revision(c, a.source_revision)),
                    save_state: RegionSaveState::Idle,
                }),
            ),
            (RegionSaveState::Conflict(Some(a)), None) => Some(
                (p.0, RegionEditEntry { base: Some(a), current: None, save_state: RegionSaveState::Idle }),
            ),
            (_, Some(c)) => Some((p.0, RegionEditEntry { base: None, current: Some(c), save_state: RegionSaveState::Idle })),
            (_, None) => None,
        }
    }
}

/// Every resolvable conflict resolved in favour of the local version.
pub open spec fn keep_all(s: Seq<(GroundCoverRegionId, RegionEditEntry)>) -> Seq<(GroundCoverRegionId, RegionEditEntry)> {
    filter_map_entries(s, |p: (GroundCoverRegionId, RegionEditEntry)| keep_step(p))
}

pub proof fn lemma_filter_map_take(
    s: Seq<(GroundCoverRegionId, RegionEditEntry)>,
    i: int,
    f: spec_fn((GroundCoverRegionId, RegionEditEntry)) -> Option<(GroundCoverRegionId, RegionEditEntry)>,
)
    requires
        0 <= i < s.len(),
    ensures
        filter_map_entries(s.take(i + 1), f) == match f(s[i]) {
            Some(q) => filter_map_entries(s.take(i), f).push(q),
            None => filter_map_entries(s.take(i), f),
        },
{
    assert(s.take(i + 1).drop_last() =~= s.take(i));
}

pub proof fn lemma_filter_map_unique(
    s: Seq<(GroundCoverRegionId, RegionEditEntry)>,
    f: spec_fn((GroundCoverRegionId, RegionEditEntry)) -> Option<(GroundCoverRegionId, RegionEditEntry)>,
)
    requires
        keys_unique(s),
        forall|p: (GroundCoverRegionId, RegionEditEntry)| #[trigger] f(p) is Some ==> (f(p)->0).0 == p.0,
    ensures
        keys_unique(filter_map_entries(s, f)),
        forall|k: GroundCoverRegionId| has_key(filter_map_entries(s, f), k) ==> has_key(s, k),
    decreases s.len(),
{
    if s.len() > 0 {
        let t = s.drop_last();
        assert(keys_unique(t));
        lemma_filter_map_unique(t, f);
        let rest = filter_map_entries(t, f);
        assert forall|k: GroundCoverRegionId| has_key(t, k) implies has_key(s, k) by {
            let j = choose|j: int| 0 <= j < t.len() && t[j].0 == k;
            assert(s[j].0 == k);
        }
        assert(has_key(s, s.last().0)) by {
            assert(s[s.len() - 1].0 == s.last().0);
        }
        if f(s.last()) is Some {
            let q = f(s.last())->0;
            let r = rest.push(q);
            assert(!has_key(t, s.last().0)) by {
                if has_key(t, s.last().0) {
                    let j = choose|j: int| 0 <= j < t.len() && t[j].0 == s.last().0;
                    assert(s[j].0 == s[s.len() - 1].0);
                }
            }
            assert forall|a: int, b: int| 0 <= a < r.len() && 0 <= b < r.len() && a != b implies r[a].0
                != r[b].0 by {
                if a < rest.len() && b < rest.len() {
                    assert(r[a] == rest[a] && r[b] == rest[b]);
                } else if a < rest.len() {
                    assert(r[a] == rest[a]);
                    assert(has_key(rest, rest[a].0));
                } else {
                    assert(r[b] == rest[b]);
                    assert(has_key(rest, rest[b].0));
                }
            }
            assert forall|k: GroundCoverRegionId| has_key(r, k) implies has_key(s, k) by {
                let j = choose|j: int| 0 <= j < r.len() && r[j].0 == k;
                if j < rest.len() {
                    assert(rest[j].0 == k);
                    assert(has_key(rest, k));
                }
            }
        }
    }
}

/// The entries after `f` rewrote each one in place.
pub open spec fn map_entries(
    s: Seq<(GroundCoverRegionId, RegionEditEntry)>,
    f: spec_fn(RegionEditEntry) -> RegionEditEntry,
) -> Seq<(GroundCoverRegionId, RegionEditEntry)> {
    s.map_values(|p: (GroundCoverRegionId, RegionEditEntry)| (p.0, f(p.1)))
}

/// The entry is saving in the given request.
pub open spec fn saving_in(e: RegionEditEntry, request_id: u64) -> bool {
    e.save_state matches RegionSaveState::Saving(r) && r == request_id
}

/// One committed write applied: a created or updated region becomes the saved and local
/// version of its entry, a deleted one loses its entry.
pub open spec fn commit_step(
    t: Seq<(GroundCoverRegionId, RegionEditEntry)>,
    c: GroundCoverRegionWriteCommit,
) -> Seq<(GroundCoverRegionId, RegionEditEntry)> {
    match c {
        GroundCoverRegionWriteCommit::Created(r) | GroundCoverRegionWriteCommit::Updated(r) => if has_key(t, r.id) {
            t.update(
                key_index(t, r.id),
                (r.id, RegionEditEntry { base: Some(r), current: Some(r), save_state: RegionSaveState::Idle }),
            )
        } else {
            t
        },
        GroundCoverRegionWriteCommit::Deleted(k) => remove_entry(t, k),
    }
}

/// The committed writes applied in order.
pub open spec fn apply_commits(
    t: Seq<(GroundCoverRegionId, RegionEditEntry)>,
    commits: Seq<GroundCoverRegionWriteCommit>,
) -> Seq<(GroundCoverRegionId, RegionEditEntry)>
    decreases commits.len(),
{
    if commits.len() == 0 {
        t
    } else {
        commit_step(apply_commits(t, commits.drop_last()), commits.last())
    }
}

/// The save state that an answer other than a commit leaves on an entry saving in the
/// request: the named key, if any, gets `named`, the others `others`.
pub open spec fn settle(
    p: (GroundCoverRegionId, RegionEditEntry),
    request_id: u64,
    key: Option<GroundCoverRegionId>,
    named: RegionSaveState,
    others: RegionSaveState,
) -> (GroundCoverRegionId, RegionEditEntry) {
    if saving_in(p.1, request_id) {
        (p.0, RegionEditEntry { save_state: if key == Some(p.0) { named } else { others }, ..p.1 })
    } else {
        p
    }
}

/// Every entry settled for the answer.
pub open spec fn settle_all(
    s: Seq<(GroundCoverRegionId, RegionEditEntry)>,
    request_id: u64,
    key: Option<GroundCoverRegionId>,
    named: RegionSaveState,
    others: RegionSaveState,
) -> Seq<(GroundCoverRegionId, RegionEditEntry)> {
    s.map_values(|p: (GroundCoverRegionId, RegionEditEntry)| settle(p, request_id, key, named, others))
}

/// A region whose deletion was blocked: its local version goes back to the saved one.
pub open spec fn blocked(
    p: (GroundCoverRegionId, RegionEditEntry),
    request_id: u64,
    region: GroundCoverRegionId,
) -> (GroundCoverRegionId, RegionEditEntry) {
    if saving_in(p.1, request_id) {
        if p.0 == region {
            (p.0, RegionEditEntry { current: p.1.base, save_state: RegionSaveState::BlockedByCoverage, ..p.1 })
        } else {
            (p.0, RegionEditEntry { save_state: RegionSaveState::Idle, ..p.1 })
        }
    } else {
        p
    }
}

/// What the answer to save request `request_id` does to the entries.
pub open spec fn finished_entries(
    s: Seq<(GroundCoverRegionId, RegionEditEntry)>,
    request_id: u64,
    outcome: RegionSaveOutcome,
) -> Seq<(GroundCoverRegionId, RegionEditEntry)> {
    match outcome {
        RegionSaveOutcome::Committed(commits) => apply_commits(s, commits@),
        RegionSaveOutcome::Conflict { region, actual } => settle_all(
            s,
            request_id,
            Some(region),
            RegionSaveState::Conflict(actual),
            RegionSaveState::Idle,
        ),
        RegionSaveOutcome::BlockedByCoverage { region } => s.map_values(
            |p: (GroundCoverRegionId, RegionEditEntry)| blocked(p, request_id, region),
        ),
        RegionSaveOutcome::Failed(error) => settle_all(
            s,
            request_id,
            None,
            RegionSaveState::Failed(error),
            RegionSaveState::Failed(error),
        ),
    }
}

/// The answer leaves the history stale: a deletion of a region of the request was blocked,
/// so its local version went back.
pub open spec fn history_stale(s: Seq<(GroundCoverRegionId, RegionEditEntry)>, request_id: u64, outcome: RegionSaveOutcome) -> bool {
    outcome matches RegionSaveOutcome::BlockedByCoverage { region } && has_key(s, region) && saving_in(entry_of(s, region), request_id)
}

/// Some fresh record has the key.
pub open spec fn fresh_has(fresh: Seq<SourceGroundCoverRegionRecord>, k: GroundCoverRegionId) -> bool {
    exists|i: int| 0 <= i < fresh.len() && fresh[i].id == k
}

/// An entry survives a reload when it is pinned or the database still has its key.
pub open spec fn retain_step(
    p: (GroundCoverRegionId, RegionEditEntry),
    fresh: Seq<SourceGroundCoverRegionRecord>,
) -> Option<(GroundCoverRegionId, RegionEditEntry)> {
    if is_pinned(p.1) || fresh_has(fresh, p.0) {
        Some(p)
    } else {
        None
    }
}

/// The entries that survive a reload.
pub open spec fn retain_fresh(
    s: Seq<(GroundCoverRegionId, RegionEditEntry)>,
    fresh: Seq<SourceGroundCoverRegionRecord>,
) -> Seq<(GroundCoverRegionId, RegionEditEntry)> {
    filter_map_entries(s, |p: (GroundCoverRegionId, RegionEditEntry)| retain_step(p, fresh))
}

/// A saved record with no local edit.
pub open spec fn saved_entry(r: SourceGroundCoverRegionRecord) -> RegionEditEntry {
    RegionEditEntry { base: Some(r), current: Some(r), save_state: RegionSaveState::Idle }
}

/// One fresh record taken in: it replaces an entry that is not pinned, and a new key gets an
/// entry; a pinned entry keeps its local state.
pub open spec fn fresh_step(
    t: Seq<(GroundCoverRegionId, RegionEditEntry)>,
    r: SourceGroundCoverRegionRecord,
) -> Seq<(GroundCoverRegionId, RegionEditEntry)> {
    if has_key(t, r.id) {
        if is_pinned(entry_of(t, r.id)) {
            t
        } else {
            t.update(key_index(t, r.id), (r.id, saved_entry(r)))
        }
    } else {
        t.push((r.id, saved_entry(r)))
    }
}

/// The fresh records taken in, in order.
pub open spec fn apply_fresh(
    t: Seq<(GroundCoverRegionId, RegionEditEntry)>,
    fresh: Seq<SourceGroundCoverRegionRecord>,
) -> Seq<(GroundCoverRegionId, RegionEditEntry)>
    decreases fresh.len(),
{
    if fresh.len() == 0 {
        t
    } else {
        fresh_step(apply_fresh(t, fresh.drop_last()), fresh.last())
    }
}

/// The message a save state shows, if any.
pub open spec fn state_message(state: RegionSaveState) -> Option<Seq<char>> {
    match state {
        RegionSaveState::Idle => None,
        RegionSaveState::Saving(r) => Some("saving region transaction "@ + decimal(r as nat)),
        RegionSaveState::Conflict(Some(_)) => Some("region changed in the database; local command retained"@),
        RegionSaveState::Conflict(None) => Some("region disappeared from the database; local command retained"@),
        RegionSaveState::BlockedByCoverage => Some("region deletion was blocked because coverage still exists"@),
        RegionSaveState::Failed(e) => Some("region save failed: "@ + e@),
    }
}

/// The message of the first entry whose save is not idle.
pub open spec fn first_message(s: Seq<(GroundCoverRegionId, RegionEditEntry)>) -> Option<Seq<char>>
    decreases s.len(),
{
    if s.len() == 0 {
        None
    } else {
        match state_message(s[0].1.save_state) {
            Some(m) => Some(m),
            None => first_message(s.drop_first()),
        }
    }
}

/// The sort key of a region: its identity.
pub open spec fn region_rank(k: GroundCoverRegionId) -> Rank {
    (0u8, k.0)
}

/// The recovery snapshot of an entry.
pub open spec fn snapshot_of(e: RegionEditEntry) -> DirtyRegionSnapshot {
    DirtyRegionSnapshot { base: e.base, current: e.current }
}

/// The snapshots of the edited entries, in entry order, each with its sort key.
pub open spec fn dirty_ranked(s: Seq<(GroundCoverRegionId, RegionEditEntry)>) -> Seq<(Rank, DirtyRegionSnapshot)>
    decreases s.len(),
{
    if s.len() == 0 {
        Seq::empty()
    } else {
        let rest = dirty_ranked(s.drop_last());
        let e = s.last().1;
        if is_dirty(e) {
            rest.push((region_rank(snapshot_key(snapshot_of(e))->0), snapshot_of(e)))
        } else {
            rest
        }
    }
}

/// The recovery snapshots of the edited entries, ordered by the identity of their version.
pub open spec fn dirty_snapshot_list(s: Seq<(GroundCoverRegionId, RegionEditEntry)>) -> Seq<DirtyRegionSnapshot> {
    sort_by_rank(dirty_ranked(s)).map_values(|p: (Rank, DirtyRegionSnapshot)| p.1)
}

/// The write that saves an edited entry.
pub open spec fn write_of(k: GroundCoverRegionId, e: RegionEditEntry) -> GroundCoverRegionWrite {
    match (e.base, e.current) {
        (None, Some(r)) => GroundCoverRegionWrite::Create { record: r },
        (Some(b), None) => GroundCoverRegionWrite::DeleteEmpty { region: k, expected_source_revision: b.source_revision },
        (Some(b), Some(r)) => GroundCoverRegionWrite::Update { expected_source_revision: b.source_revision, record: r },
        (None, None) => GroundCoverRegionWrite::DeleteEmpty { region: k, expected_source_revision: 0 },
    }
}

/// The writes of the edited entries, in entry order, each with its region and sort key.
pub open spec fn save_candidates(s: Seq<(GroundCoverRegionId, RegionEditEntry)>) -> Seq<(Rank, (GroundCoverRegionId, GroundCoverRegionWrite))>
    decreases s.len(),
{
    if s.len() == 0 {
        Seq::empty()
    } else {
        let rest = save_candidates(s.drop_last());
        let (k, e) = s.last();
        if is_dirty(e) {
            rest.push((region_rank(k), (k, write_of(k, e))))
        } else {
            rest
        }
    }
}

/// The writes one transaction carries: the first `max_writes` edited regions by identity.
pub open spec fn selected_writes(
    s: Seq<(GroundCoverRegionId, RegionEditEntry)>,
    max_writes: nat,
) -> Seq<(GroundCoverRegionId, GroundCoverRegionWrite)> {
    let sorted = sort_by_rank(save_candidates(s));
    let n = if max_writes < sorted.len() { max_writes } else { sorted.len() };
    sorted.take(n as int).map_values(|p: (Rank, (GroundCoverRegionId, GroundCoverRegionWrite))| p.1)
}

/// The selected writes alone.
pub open spec fn write_list(selected: Seq<(GroundCoverRegionId, GroundCoverRegionWrite)>) -> Seq<GroundCoverRegionWrite> {
    selected.map_values(|p: (GroundCoverRegionId, GroundCoverRegionWrite)| p.1)
}

/// Some selected write belongs to the key.
pub open spec fn selects(selected: Seq<(GroundCoverRegionId, GroundCoverRegionWrite)>, k: GroundCoverRegionId) -> bool {
    exists|i: int| 0 <= i < selected.len() && selected[i].0 == k
}

/// The entries with every selected region saving in request `request_id`.
pub open spec fn mark_saving(
    s: Seq<(GroundCoverRegionId, RegionEditEntry)>,
    selected: Seq<(GroundCoverRegionId, GroundCoverRegionWrite)>,
    request_id: u64,
) -> Seq<(GroundCoverRegionId, RegionEditEntry)> {
    s.map_values(
        |p: (GroundCoverRegionId, RegionEditEntry)| if selects(selected, p.0) {
            (p.0, RegionEditEntry { save_state: RegionSaveState::Saving(request_id), ..p.1 })
        } else {
            p
        },
    )
}

/// What the answer to save request `request_id` does, when some entry is saving in it.
pub open spec fn finish_model(s: RegionView, request_id: u64, outcome: RegionSaveOutcome) -> RegionView {
    RegionView {
        entries: finished_entries(s.entries, request_id, outcome),
        edit_revision: next_id(s.edit_revision),
        ..s
    }
}

/// The region invariant: keys are distinct.
pub open spec fn region_inv(s: RegionView) -> bool {
    keys_unique(s.entries)
}

pub proof fn lemma_key_index(s: Seq<(GroundCoverRegionId, RegionEditEntry)>, i: int)
    requires
        keys_unique(s),
        0 <= i < s.len(),
    ensures
        has_key(s, s[i].0),
        key_index(s, s[i].0) == i,
{
    assert(has_key(s, s[i].0));
    let j = key_index(s, s[i].0);
    assert(0 <= j < s.len() && s[j].0 == s[i].0);
}

pub proof fn lemma_update_unique(
    s: Seq<(GroundCoverRegionId, RegionEditEntry)>,
    i: int,
    p: (GroundCoverRegionId, RegionEditEntry),
)
    requires
        keys_unique(s),
        0 <= i < s.len(),
        p.0 == s[i].0,
    ensures
        keys_unique(s.update(i, p)),
{
    let t = s.update(i, p);
    assert forall|a: int, b: int| 0 <= a < t.len() && 0 <= b < t.len() && a != b implies t[a].0
        != t[b].0 by {
        assert(t[a].0 == s[a].0);
        assert(t[b].0 == s[b].0);
    }
}

pub proof fn lemma_put_unique(
    s: Seq<(GroundCoverRegionId, RegionEditEntry)>,
    k: GroundCoverRegionId,
    e: RegionEditEntry,
)
    requires
        keys_unique(s),
    ensures
        keys_unique(put_entry(s, k, e)),
        has_key(put_entry(s, k, e), k),
{
    let t = put_entry(s, k, e);
    if has_key(s, k) {
        let i = key_index(s, k);
        assert(t[i].0 == k);
        assert forall|a: int, b: int| 0 <= a < t.len() && 0 <= b < t.len() && a != b implies t[a].0
            != t[b].0 by {
            assert(t[a].0 == s[a].0);
            assert(t[b].0 == s[b].0);
        }
    } else {
        assert(t[s.len() as int].0 == k);
        assert forall|a: int, b: int| 0 <= a < t.len() && 0 <= b < t.len() && a != b implies t[a].0
            != t[b].0 by {
            if a < s.len() && b < s.len() {
            } else if a < s.len() {
                assert(s[a].0 != k);
            } else {
                assert(s[b].0 != k);
            }
        }
    }
}

pub proof fn lemma_remove_unique(s: Seq<(GroundCoverRegionId, RegionEditEntry)>, k: GroundCoverRegionId)
    requires
        keys_unique(s),
    ensures
        keys_unique(remove_entry(s, k)),
        !has_key(remove_entry(s, k), k),
{
    if has_key(s, k) {
        let i = key_index(s, k);
        let r = s.remove(i);
        assert forall|a: int, b: int| 0 <= a < r.len() && 0 <= b < r.len() && a != b implies r[a].0
            != r[b].0 by {
            let sa = if a < i { a } else { a + 1 };
            let sb = if b < i { b } else { b + 1 };
            assert(r[a] == s[sa]);
            assert(r[b] == s[sb]);
        }
        if has_key(r, k) {
            let j = choose|j: int| 0 <= j < r.len() && r[j].0 == k;
            let sj = if j < i { j } else { j + 1 };
            assert(r[j] == s[sj]);
        }
    }
}

pub proof fn lemma_count_step(
    s: Seq<(GroundCoverRegionId, RegionEditEntry)>,
    i: int,
    p: spec_fn(RegionEditEntry) -> bool,
)
    requires
        0 <= i < s.len(),
    ensures
        count_entries(s.take(i + 1), p) == count_entries(s.take(i), p) + if p(s[i].1) {
            1nat
        } else {
            0nat
        },
{
    assert(s.take(i + 1).drop_last() =~= s.take(i));
}

pub proof fn lemma_count_zero(
    s: Seq<(GroundCoverRegionId, RegionEditEntry)>,
    p: spec_fn(RegionEditEntry) -> bool,
)
    requires
        count_entries(s, p) == 0,
    ensures
        forall|i: int| 0 <= i < s.len() ==> !p(#[trigger] s[i].1),
    decreases s.len(),
{
    if s.len() > 0 {
        lemma_count_zero(s.drop_last(), p);
        assert forall|i: int| 0 <= i < s.len() implies !p(#[trigger] s[i].1) by {
            if i < s.len() - 1 {
                assert(s.drop_last()[i] == s[i]);
            }
        }
    }
}

pub proof fn lemma_filter_map_identity(
    s: Seq<(GroundCoverRegionId, RegionEditEntry)>,
    f: spec_fn((GroundCoverRegionId, RegionEditEntry)) -> Option<(GroundCoverRegionId, RegionEditEntry)>,
)
    requires
        forall|i: int| 0 <= i < s.len() ==> #[trigger] f(s[i]) == Some(s[i]),
    ensures
        filter_map_entries(s, f) == s,
    decreases s.len(),
{
    if s.len() > 0 {
        assert forall|i: int| 0 <= i < s.drop_last().len() implies #[trigger] f(s.drop_last()[i]) == Some(s.drop_last()[i]) by {
            assert(s.drop_last()[i] == s[i]);
        }
        lemma_filter_map_identity(s.drop_last(), f);
        assert(f(s[s.len() - 1]) == Some(s[s.len() - 1]));
        assert(s.drop_last().push(s.last()) =~= s);
    }
}

/// Whether a record may be stored: its fields passed validation and its revision is not
/// negative.
pub fn valid_region(record: &SourceGroundCoverRegionRecord) -> (r: bool)
    ensures
        r == spec_valid_record(*record),
{
    record.fields_valid && record.source_revision >= 0
}

fn same_record(a: &Option<SourceGroundCoverRegionRecord>, b: &Option<SourceGroundCoverRegionRecord>) -> (r: bool)
    ensures
        r == (*a == *b),
{
    match (a, b) {
        (None, None) => true,
        (Some(x), Some(y)) => *x == *y,
        _ => false,
    }
}

fn clone_text(s: &String) -> (r: String)
    ensures
        r == *s,
{
    s.clone()
}

fn clone_state(s: &RegionSaveState) -> (r: RegionSaveState)
    ensures
        r == *s,
{
    match s {
        RegionSaveState::Idle => RegionSaveState::Idle,
        RegionSaveState::Saving(id) => RegionSaveState::Saving(*id),
        RegionSaveState::Conflict(actual) => RegionSaveState::Conflict(*actual),
        RegionSaveState::BlockedByCoverage => RegionSaveState::BlockedByCoverage,
        RegionSaveState::Failed(e) => RegionSaveState::Failed(clone_text(e)),
    }
}

fn entry_dirty(e: &RegionEditEntry) -> (r: bool)
    ensures
        r == is_dirty(*e),
{
    !same_record(&e.base, &e.current)
}

fn entry_pinned(e: &RegionEditEntry) -> (r: bool)
    ensures
        r == is_pinned(*e),
{
    entry_dirty(e) || !matches!(e.save_state, RegionSaveState::Idle)
}

fn find_entry(entries: &Vec<(GroundCoverRegionId, RegionEditEntry)>, key: GroundCoverRegionId) -> (r: Option<usize>)
    requires
        keys_unique(entries@),
    ensures
        match r {
            Some(i) => i < entries@.len() && entries@[i as int].0 == key && has_key(entries@, key)
                && key_index(entries@, key) == i,
            None => !has_key(entries@, key),
        },
{
    let mut i: usize = 0;
    while i < entries.len()
        invariant
            i <= entries@.len(),
            keys_unique(entries@),
            forall|j: int| 0 <= j < i ==> entries@[j].0 != key,
        decreases entries@.len() - i,
    {
        if entries[i].0 == key {
            proof {
                lemma_key_index(entries@, i as int);
            }
            return Some(i);
        }
        i = i + 1;
    }
    None
}

fn put(entries: &mut Vec<(GroundCoverRegionId, RegionEditEntry)>, key: GroundCoverRegionId, entry: RegionEditEntry)
    requires
        keys_unique(old(entries)@),
    ensures
        final(entries)@ == put_entry(old(entries)@, key, entry),
        keys_unique(final(entries)@),
{
    proof {
        lemma_put_unique(entries@, key, entry);
    }
    match find_entry(entries, key) {
        Some(i) => {
            entries.set(i, (key, entry));
        },
        None => {
            entries.push((key, entry));
        },
    }
}

fn remove(entries: &mut Vec<(GroundCoverRegionId, RegionEditEntry)>, key: GroundCoverRegionId)
    requires
        keys_unique(old(entries)@),
    ensures
        final(entries)@ == remove_entry(old(entries)@, key),
        keys_unique(final(entries)@),
{
    proof {
        lemma_remove_unique(entries@, key);
    }
    match find_entry(entries, key) {
        Some(i) => {
            entries.remove(i);
        },
        None => {},
    }
}

fn accept_entry(p: (GroundCoverRegionId, RegionEditEntry)) -> (r: Option<(GroundCoverRegionId, RegionEditEntry)>)
    ensures
        r == accept_step(p),
{
    match p.1.save_state {
        RegionSaveState::Conflict(Some(a)) => Some(
            (p.0, RegionEditEntry { base: Some(a), current: Some(a), save_state: RegionSaveState::Idle }),
        ),
        RegionSaveState::Conflict(None) => None,
        _ => Some(p),
    }
}

fn keep_entry(p: (GroundCoverRegionId, RegionEditEntry)) -> (r: Option<(GroundCoverRegionId, RegionEditEntry)>)
    ensures
        r == keep_step(p),
{
    let (key, e) = p;
    if !resolvable(&e) {
        return Some((key, e));
    }
    match (e.save_state, e.current) {
        (RegionSaveState::Conflict(Some(a)), Some(c)) => Some(
            (key, RegionEditEntry {
                base: Some(a),
                current: Some(SourceGroundCoverRegionRecord { source_revision: a.source_revision, ..c }),
                save_state: RegionSaveState::Idle,
            }),
        ),
        (RegionSaveState::Conflict(Some(a)), None) => Some(
            (key, RegionEditEntry { base: Some(a), current: None, save_state: RegionSaveState::Idle }),
        ),
        (_, Some(c)) => Some((key, RegionEditEntry { base: None, current: Some(c), save_state: RegionSaveState::Idle })),
        (_, None) => None,
    }
}

fn resolvable(e: &RegionEditEntry) -> (r: bool)
    ensures
        r == resolvable_conflict(*e),
{
    match &e.save_state {
        RegionSaveState::Conflict(Some(a)) => match &e.current {
            None => true,
            Some(c) => c.id == a.id && c.layer == a.layer && c.space == a.space,
        },
        RegionSaveState::Conflict(None) => true,
        _ => false,
    }
}

fn apply_commit(entries: &mut Vec<(GroundCoverRegionId, RegionEditEntry)>, c: GroundCoverRegionWriteCommit)
    requires
        keys_unique(old(entries)@),
    ensures
        keys_unique(final(entries)@),
        final(entries)@ == commit_step(old(entries)@, c),
{
    match c {
        GroundCoverRegionWriteCommit::Created(r) | GroundCoverRegionWriteCommit::Updated(r) => {
            match find_entry(entries, r.id) {
                Some(i) => {
                    let entry = RegionEditEntry { base: Some(r), current: Some(r), save_state: RegionSaveState::Idle };
                    proof {
                        lemma_update_unique(entries@, i as int, (r.id, entry));
                    }
                    entries.set(i, (r.id, entry));
                },
                None => {},
            }
        },
        GroundCoverRegionWriteCommit::Deleted(k) => {
            remove(entries, k);
        },
    }
}

fn fresh_contains(fresh: &[SourceGroundCoverRegionRecord], key: GroundCoverRegionId) -> (r: bool)
    ensures
        r == fresh_has(fresh@, key),
{
    let mut i: usize = 0;
    while i < fresh.len()
        invariant
            i <= fresh@.len(),
            forall|j: int| 0 <= j < i ==> fresh@[j].id != key,
        decreases fresh@.len() - i,
    {
        if fresh[i].id == key {
            return true;
        }
        i = i + 1;
    }
    false
}

fn literal(s: &str) -> (r: String)
    ensures
        r@ == s@,
{
    s.to_owned()
}

fn state_text(state: &RegionSaveState) -> (r: Option<String>)
    ensures
        match (r, state_message(*state)) {
            (None, None) => true,
            (Some(t), Some(m)) => t@ == m,
            _ => false,
        },
{
    match state {
        RegionSaveState::Idle => None,
        RegionSaveState::Saving(request) => {
            let mut t = literal("saving region transaction ");
            append_decimal(&mut t, *request);
            Some(t)
        },
        RegionSaveState::Conflict(actual) => {
            if actual.is_some() {
                Some(literal("region changed in the database; local command retained"))
            } else {
                Some(literal("region disappeared from the database; local command retained"))
            }
        },
        RegionSaveState::BlockedByCoverage => Some(literal("region deletion was blocked because coverage still exists")),
        RegionSaveState::Failed(error) => {
            let mut t = literal("region save failed: ");
            t.append(error.as_str());
            Some(t)
        },
    }
}

fn write_of_exec(k: GroundCoverRegionId, e: &RegionEditEntry) -> (w: GroundCoverRegionWrite)
    ensures
        w == write_of(k, *e),
{
    match (e.base, e.current) {
        (None, Some(r)) => GroundCoverRegionWrite::Create { record: r },
        (Some(b), None) => GroundCoverRegionWrite::DeleteEmpty { region: k, expected_source_revision: b.source_revision },
        (Some(b), Some(r)) => GroundCoverRegionWrite::Update { expected_source_revision: b.source_revision, record: r },
        (None, None) => GroundCoverRegionWrite::DeleteEmpty { region: k, expected_source_revision: 0 },
    }
}

/// Saving never brings the runtime back in line: only adopting a runtime generation clears
/// the divergence, whatever the database answered.
pub proof fn law_saving_keeps_divergence(s: RegionView, request_id: u64, outcome: RegionSaveOutcome)
    ensures
        finish_model(s, request_id, outcome).runtime_diverged == s.runtime_diverged,
{
}

/// Replacing a region keeps the source revision of the version it replaces, so replaying
/// an old command value after a save does not roll the revision back.
pub proof fn law_replace_keeps_revision(s: RegionView, record: SourceGroundCoverRegionRecord)
    requires
        region_inv(s),
        replace_model(s, record).1,
    ensures
        entry_of(replace_model(s, record).0.entries, record.id).current == Some(
            with_revision(record, entry_of(s.entries, record.id).current->0.source_revision),
        ),
{
    let i = key_index(s.entries, record.id);
    let t = replace_model(s, record).0.entries;
    lemma_update_unique(s.entries, i, t[i]);
    lemma_key_index(t, i);
}

/// After the database's versions are accepted no conflict remains.
pub proof fn law_accept_clears_conflicts(s: Seq<(GroundCoverRegionId, RegionEditEntry)>)
    ensures
        !any_entry(accept_all(s), |e: RegionEditEntry| is_conflict(e)),
    decreases s.len(),
{
    let f = |p: (GroundCoverRegionId, RegionEditEntry)| accept_step(p);
    if s.len() > 0 {
        law_accept_clears_conflicts(s.drop_last());
        let rest = accept_all(s.drop_last());
        assert(accept_all(s) == match f(s.last()) {
            Some(q) => rest.push(q),
            None => rest,
        });
        if f(s.last()) is Some {
            let r = rest.push(f(s.last())->0);
            assert forall|i: int| 0 <= i < r.len() implies !is_conflict(#[trigger] r[i].1) by {
                if i < rest.len() {
                    assert(r[i] == rest[i]);
                }
            }
        }
    }
}

/// After the local versions are kept no resolvable conflict remains.
pub proof fn law_keep_clears_resolvable_conflicts(s: Seq<(GroundCoverRegionId, RegionEditEntry)>)
    ensures
        !any_entry(keep_all(s), |e: RegionEditEntry| resolvable_conflict(e)),
    decreases s.len(),
{
    let f = |p: (GroundCoverRegionId, RegionEditEntry)| keep_step(p);
    if s.len() > 0 {
        law_keep_clears_resolvable_conflicts(s.drop_last());
        let rest = keep_all(s.drop_last());
        assert(keep_all(s) == match f(s.last()) {
            Some(q) => rest.push(q),
            None => rest,
        });
        if f(s.last()) is Some {
            let r = rest.push(f(s.last())->0);
            assert forall|i: int| 0 <= i < r.len() implies !resolvable_conflict(#[trigger] r[i].1) by {
                if i < rest.len() {
                    assert(r[i] == rest[i]);
                }
            }
        }
    }
}

/// Deleting a region and restoring it brings back its saved version, or the given record
/// when it was never saved, and leaves it idle.
pub proof fn law_restore_after_delete(s: RegionView, k: GroundCoverRegionId, record: SourceGroundCoverRegionRecord)
    requires
        region_inv(s),
        delete_model(s, k).1 is Some,
        record.id == k,
    ensures
        restore_model(delete_model(s, k).0, record).1,
        entry_of(restore_model(delete_model(s, k).0, record).0.entries, k) == (RegionEditEntry {
            base: entry_of(s.entries, k).base,
            current: Some(
                match entry_of(s.entries, k).base {
                    Some(b) => b,
                    None => record,
                },
            ),
            save_state: RegionSaveState::Idle,
        }),
{
    let i = key_index(s.entries, k);
    let t = delete_model(s, k).0.entries;
    lemma_update_unique(s.entries, i, t[i]);
    lemma_key_index(t, i);
    let u = restore_model(delete_model(s, k).0, record).0.entries;
    lemma_update_unique(t, i, u[i]);
    lemma_key_index(u, i);
}

/// The ground-cover region working set.
pub struct GroundCoverRegionWorkingSet {
    entries: Vec<(GroundCoverRegionId, RegionEditEntry)>,
    last_completed_query: u64,
    edit_revision: u64,
    runtime_diverged: bool,
}

impl View for GroundCoverRegionWorkingSet {
    type V = RegionView;

    closed spec fn view(&self) -> RegionView {
        RegionView {
            entries: self.entries@,
            last_completed_query: self.last_completed_query,
            edit_revision: self.edit_revision,
            runtime_diverged: self.runtime_diverged,
        }
    }
}

impl GroundCoverRegionWorkingSet {
    /// The internal invariant, which every operation keeps.
    pub open spec fn wf(&self) -> bool {
        region_inv(self@)
    }

    /// A working set with no entries.
    pub fn new() -> (s: Self)
        ensures
            s.wf(),
            s@.entries.len() == 0,
            s@.last_completed_query == 0 && s@.edit_revision == 0 && !s@.runtime_diverged,
    {
        GroundCoverRegionWorkingSet {
            entries: Vec::new(),
            last_completed_query: 0,
            edit_revision: 0,
            runtime_diverged: false,
        }
    }

    /// The revision of the local edits, which moves on with every change.
    pub fn edit_revision(&self) -> (r: u64)
        ensures
            r == self@.edit_revision,
    {
        self.edit_revision
    }

    /// Whether the source regions differs from the generation the runtime shows. Saving does
    /// not clear this; only adopting a new runtime generation does.
    pub fn runtime_diverged(&self) -> (r: bool)
        ensures
            r == self@.runtime_diverged,
    {
        self.runtime_diverged
    }

    /// The entries, each with its key.
    pub fn entries(&self) -> (r: &Vec<(GroundCoverRegionId, RegionEditEntry)>)
        ensures
            r@ == self@.entries,
    {
        &self.entries
    }


    /// How many regions differ from their saved version.
    pub fn dirty_count(&self) -> (n: usize)
        ensures
            n == count_entries(self@.entries, |e: RegionEditEntry| is_dirty(e)),
    {
        let ghost p = |e: RegionEditEntry| is_dirty(e);
        let mut n: usize = 0;
        let mut i: usize = 0;
        while i < self.entries.len()
            invariant
                i <= self.entries@.len(),
                n == count_entries(self.entries@.take(i as int), p),
                p == (|e: RegionEditEntry| is_dirty(e)),
                n <= i,
            decreases self.entries@.len() - i,
        {
            proof {
                lemma_count_step(self.entries@, i as int, p);
                assert(p(self.entries@[i as int].1) == is_dirty(self.entries@[i as int].1));
            }
            if entry_dirty(&self.entries[i].1) {
                n = n + 1;
            }
            i = i + 1;
        }
        assert(self.entries@.take(i as int) =~= self.entries@);
        n
    }

    /// How many regions wait for a conflict to be resolved.
    pub fn conflict_count(&self) -> (n: usize)
        ensures
            n == count_entries(self@.entries, |e: RegionEditEntry| is_conflict(e)),
    {
        let ghost p = |e: RegionEditEntry| is_conflict(e);
        let mut n: usize = 0;
        let mut i: usize = 0;
        while i < self.entries.len()
            invariant
                i <= self.entries@.len(),
                n == count_entries(self.entries@.take(i as int), p),
                p == (|e: RegionEditEntry| is_conflict(e)),
                n <= i,
            decreases self.entries@.len() - i,
        {
            proof {
                lemma_count_step(self.entries@, i as int, p);
                assert(p(self.entries@[i as int].1) == is_conflict(self.entries@[i as int].1));
            }
            if matches!(self.entries[i].1.save_state, RegionSaveState::Conflict(_)) {
                n = n + 1;
            }
            i = i + 1;
        }
        assert(self.entries@.take(i as int) =~= self.entries@);
        n
    }

    /// Whether a save is in flight.
    pub fn saving(&self) -> (r: bool)
        ensures
            r == any_entry(self@.entries, |e: RegionEditEntry| is_saving(e)),
    {
        let mut i: usize = 0;
        while i < self.entries.len()
            invariant
                i <= self.entries@.len(),
                forall|j: int| 0 <= j < i ==> !is_saving(#[trigger] self.entries@[j].1),
            decreases self.entries@.len() - i,
        {
            if matches!(self.entries[i].1.save_state, RegionSaveState::Saving(_)) {
                assert(is_saving(self.entries@[i as int].1));
                return true;
            }
            i = i + 1;
        }
        false
    }

    /// Whether some save met a conflict.
    pub fn has_any_conflict(&self) -> (r: bool)
        ensures
            r == any_entry(self@.entries, |e: RegionEditEntry| is_conflict(e)),
    {
        let mut i: usize = 0;
        while i < self.entries.len()
            invariant
                i <= self.entries@.len(),
                forall|j: int| 0 <= j < i ==> !is_conflict(#[trigger] self.entries@[j].1),
            decreases self.entries@.len() - i,
        {
            if matches!(self.entries[i].1.save_state, RegionSaveState::Conflict(_)) {
                assert(is_conflict(self.entries@[i as int].1));
                return true;
            }
            i = i + 1;
        }
        false
    }

    /// Whether some conflict can be resolved by keeping the local version.
    pub fn can_keep_local_conflicts(&self) -> (r: bool)
        ensures
            r == any_entry(self@.entries, |e: RegionEditEntry| keepable_conflict(e)),
    {
        let mut i: usize = 0;
        while i < self.entries.len()
            invariant
                i <= self.entries@.len(),
                forall|j: int| 0 <= j < i ==> !keepable_conflict(#[trigger] self.entries@[j].1),
            decreases self.entries@.len() - i,
        {
            if resolvable(&self.entries[i].1) {
                assert(keepable_conflict(self.entries@[i as int].1));
                return true;
            }
            i = i + 1;
        }
        false
    }

    /// The version of a region the editor shows, from the local entries or the project's
    /// saved regions.
    pub fn current(&self, project: &[SourceGroundCoverRegionRecord], region: GroundCoverRegionId) -> (r: Option<SourceGroundCoverRegionRecord>)
        requires
            self.wf(),
        ensures
            r == current_of(self@, project@, region),
    {
        self.current_record(project, region)
    }

    fn current_record(&self, project: &[SourceGroundCoverRegionRecord], key: GroundCoverRegionId) -> (r: Option<SourceGroundCoverRegionRecord>)
        requires
            self.wf(),
        ensures
            r == current_of(self@, project@, key),
    {
        match find_entry(&self.entries, key) {
            Some(i) => self.entries[i].1.current,
            None => {
                let mut j: usize = 0;
                assert(project@.skip(0) =~= project@);
                while j < project.len()
                    invariant
                        j <= project@.len(),
                        !has_key(self@.entries, key),
                        first_with_key(project@, key) == first_with_key(project@.skip(j as int), key),
                    decreases project@.len() - j,
                {
                    proof {
                        assert(project@.skip(j as int).drop_first() =~= project@.skip(j + 1));
                        assert(project@.skip(j as int)[0] == project@[j as int]);
                    }
                    if project[j].id == key {
                        return Some(project[j]);
                    }
                    j = j + 1;
                }
                assert(project@.skip(j as int).len() == 0);
                None
            },
        }
    }

    /// Creates a region; refused when it has a current version.
    pub fn create(&mut self, record: SourceGroundCoverRegionRecord) -> (created: bool)
        requires
            old(self).wf(),
        ensures
            final(self).wf(),
            (final(self)@, created) == create_model(old(self)@, record),
    {
        let key = record.id;
        match find_entry(&self.entries, key) {
            Some(i) => {
                if self.entries[i].1.current.is_some() {
                    return false;
                }
            },
            None => {},
        }
        put(
            &mut self.entries,
            key,
            RegionEditEntry { base: None, current: Some(record), save_state: RegionSaveState::Idle },
        );
        self.mark_runtime_diverged();
        true
    }

    /// Brings a deleted region back; an unknown key is created from the record.
    pub fn restore(&mut self, record: SourceGroundCoverRegionRecord) -> (restored: bool)
        requires
            old(self).wf(),
        ensures
            final(self).wf(),
            (final(self)@, restored) == restore_model(old(self)@, record),
    {
        let key = record.id;
        match find_entry(&self.entries, key) {
            Some(i) => {
                let e = &self.entries[i].1;
                if e.current.is_some() || matches!(e.save_state, RegionSaveState::Saving(_)) {
                    return false;
                }
                let base = e.base;
                let restored = match base {
                    Some(b) => b,
                    None => record,
                };
                proof {
                    lemma_update_unique(self.entries@, i as int, (key, RegionEditEntry { base, current: Some(restored), save_state: RegionSaveState::Idle }));
                }
                self.entries.set(i, (key, RegionEditEntry { base, current: Some(restored), save_state: RegionSaveState::Idle }));
                self.mark_runtime_diverged();
                true
            },
            None => self.create(record),
        }
    }

    /// Deletes the current version of a region that is not saving and hands it back.
    pub fn delete(&mut self, key: GroundCoverRegionId) -> (deleted: Option<SourceGroundCoverRegionRecord>)
        requires
            old(self).wf(),
        ensures
            final(self).wf(),
            (final(self)@, deleted) == delete_model(old(self)@, key),
    {
        let i = match find_entry(&self.entries, key) {
            Some(i) => i,
            None => return None,
        };
        let e = &self.entries[i].1;
        if matches!(e.save_state, RegionSaveState::Saving(_)) {
            return None;
        }
        let deleted = match e.current {
            Some(c) => c,
            None => return None,
        };
        let base = e.base;
        proof {
            lemma_update_unique(self.entries@, i as int, (key, RegionEditEntry { base, current: None, save_state: RegionSaveState::Idle }));
        }
        self.entries.set(i, (key, RegionEditEntry { base, current: None, save_state: RegionSaveState::Idle }));
        self.mark_runtime_diverged();
        Some(deleted)
    }

    /// Replaces the current version of a region that is not saving with a valid record,
    /// which keeps the replaced version's source revision; reports whether anything changed.
    pub fn replace(&mut self, record: SourceGroundCoverRegionRecord) -> (replaced: bool)
        requires
            old(self).wf(),
        ensures
            final(self).wf(),
            (final(self)@, replaced) == replace_model(old(self)@, record),
    {
        if !valid_region(&record) {
            return false;
        }
        let key = record.id;
        let i = match find_entry(&self.entries, key) {
            Some(i) => i,
            None => return false,
        };
        let e = &self.entries[i].1;
        let current = match e.current {
            Some(c) => c,
            None => return false,
        };
        if matches!(e.save_state, RegionSaveState::Saving(_)) || current.layer != record.layer || current.space != record.space {
            return false;
        }
        let record = SourceGroundCoverRegionRecord { source_revision: current.source_revision, ..record };
        if current == record {
            return false;
        }
        let base = e.base;
        proof {
            lemma_update_unique(self.entries@, i as int, (key, RegionEditEntry { base, current: Some(record), save_state: RegionSaveState::Idle }));
        }
        self.entries.set(i, (key, RegionEditEntry { base, current: Some(record), save_state: RegionSaveState::Idle }));
        self.mark_runtime_diverged();
        true
    }

    /// Restores a recovery snapshot as an idle entry of its key; refused unless the snapshot
    /// is restorable.
    pub fn restore_dirty_snapshot(&mut self, snapshot: DirtyRegionSnapshot) -> (restored: bool)
        requires
            old(self).wf(),
        ensures
            final(self).wf(),
            !restorable_snapshot(snapshot) ==> !restored && final(self)@ == old(self)@,
            restorable_snapshot(snapshot) ==> restored && final(self)@ == diverged(
                RegionView {
                    entries: put_entry(
                        old(self)@.entries,
                        snapshot_key(snapshot)->0,
                        RegionEditEntry {
                            base: snapshot.base,
                            current: snapshot.current,
                            save_state: RegionSaveState::Idle,
                        },
                    ),
                    ..old(self)@
                },
            ),
    {
        let key = match (snapshot.current, snapshot.base) {
            (Some(c), _) => c.id,
            (None, Some(b)) => b.id,
            (None, None) => return false,
        };
        let base_bad = match snapshot.base {
            Some(b) => b.id != key || !valid_region(&b),
            None => false,
        };
        let current_bad = match snapshot.current {
            Some(c) => c.id != key || !valid_region(&c),
            None => false,
        };
        let shape_bad = match (snapshot.base, snapshot.current) {
            (Some(b), Some(c)) => b.layer != c.layer || b.space != c.space || b.source_revision != c.source_revision,
            _ => false,
        };
        if shape_bad || same_record(&snapshot.base, &snapshot.current) || base_bad || current_bad {
            return false;
        }
        put(
            &mut self.entries,
            key,
            RegionEditEntry { base: snapshot.base, current: snapshot.current, save_state: RegionSaveState::Idle },
        );
        self.mark_runtime_diverged();
        true
    }

    /// Dismisses every failed or blocked save; reports whether there was one, in which case the
    /// edit revision moves on.
    pub fn dismiss_status(&mut self) -> (dismissed_any: bool)
        requires
            old(self).wf(),
        ensures
            final(self).wf(),
            dismissed_any == any_entry(old(self)@.entries, |e: RegionEditEntry| is_failure(e)),
            !dismissed_any ==> final(self)@ == (RegionView { entries: dismiss_all(old(self)@.entries), ..old(self)@ }),
            dismissed_any ==> final(self)@ == (RegionView {
                entries: dismiss_all(old(self)@.entries),
                edit_revision: next_id(old(self)@.edit_revision),
                ..old(self)@
            }),
    {
        let ghost start = self.entries@;
        let mut any = false;
        let mut i: usize = 0;
        while i < self.entries.len()
            invariant
                i <= self.entries@.len(),
                self.entries@.len() == start.len(),
                forall|j: int| 0 <= j < i ==> self.entries@[j] == (start[j].0, dismissed(start[j].1)),
                forall|j: int| i <= j < start.len() ==> self.entries@[j] == start[j],
                any == exists|j: int| 0 <= j < i && is_failure(#[trigger] start[j].1),
                self.edit_revision == old(self).edit_revision,
                self.runtime_diverged == old(self).runtime_diverged,
                self.last_completed_query == old(self).last_completed_query,
            decreases start.len() - i,
        {
            let failed = matches!(
                self.entries[i].1.save_state,
                RegionSaveState::BlockedByCoverage | RegionSaveState::Failed(_)
            );
            if failed {
                let key = self.entries[i].0;
                let base = self.entries[i].1.base;
                let current = self.entries[i].1.current;
                self.entries.set(i, (key, RegionEditEntry { base, current, save_state: RegionSaveState::Idle }));
                any = true;
            }
            proof {
                if !failed {
                    assert(dismissed(start[i as int].1) == start[i as int].1);
                }
            }
            i = i + 1;
        }
        proof {
            let mapped = dismiss_all(start);
            assert(self.entries@ =~= mapped);
            assert forall|a: int, b: int| 0 <= a < mapped.len() && 0 <= b < mapped.len() && a != b implies mapped[a].0 != mapped[b].0 by {
                assert(mapped[a].0 == start[a].0);
                assert(mapped[b].0 == start[b].0);
            }
            if any {
                let j = choose|j: int| 0 <= j < i && is_failure(#[trigger] start[j].1);
                assert(is_failure(start[j].1));
            }
        }
        if any {
            self.bump_revision();
        }
        any
    }

    /// Resolves every conflict in favour of the database: the actual record becomes the saved
    /// and local version, or the entry goes when the region is gone. Returns how many
    /// conflicts there were.
    pub fn accept_database_conflicts(&mut self) -> (n: usize)
        requires
            old(self).wf(),
        ensures
            final(self).wf(),
            n == count_entries(old(self)@.entries, |e: RegionEditEntry| is_conflict(e)),
            n == 0 ==> final(self)@ == old(self)@,
            n > 0 ==> final(self)@ == diverged(RegionView { entries: accept_all(old(self)@.entries), ..old(self)@ }),
    {
        let ghost start = self.entries@;
        let ghost f = |p: (GroundCoverRegionId, RegionEditEntry)| accept_step(p);
        let ghost c = |e: RegionEditEntry| is_conflict(e);
        assert(start.len() == self.entries.len());
        let mut rest: Vec<(GroundCoverRegionId, RegionEditEntry)> = Vec::new();
        core::mem::swap(&mut rest, &mut self.entries);
        let mut out: Vec<(GroundCoverRegionId, RegionEditEntry)> = Vec::new();
        let mut n: usize = 0;
        let mut i: usize = 0;
        assert(start.skip(0) =~= start);
        while rest.len() > 0
            invariant
                i <= start.len(),
                start.len() <= usize::MAX,
                rest@ == start.skip(i as int),
                out@ == filter_map_entries(start.take(i as int), f),
                n == count_entries(start.take(i as int), c),
                n <= i,
                f == (|p: (GroundCoverRegionId, RegionEditEntry)| accept_step(p)),
                c == (|e: RegionEditEntry| is_conflict(e)),
                self.edit_revision == old(self).edit_revision,
                self.runtime_diverged == old(self).runtime_diverged,
                self.last_completed_query == old(self).last_completed_query,
            decreases rest@.len(),
        {
            let p = rest.remove(0);
            proof {
                assert(p == start[i as int]);
                assert(start.skip(i as int).remove(0) =~= start.skip(i + 1));
                lemma_filter_map_take(start, i as int, f);
                lemma_count_step(start, i as int, c);
            }
            if matches!(p.1.save_state, RegionSaveState::Conflict(_)) {
                n = n + 1;
            }
            match accept_entry(p) {
                Some(q) => out.push(q),
                None => {},
            }
            i = i + 1;
        }
        proof {
            assert(start.take(i as int) =~= start);
            lemma_filter_map_unique(start, f);
        }
        self.entries = out;
        if n > 0 {
            self.mark_runtime_diverged();
        } else {
            proof {
                lemma_count_zero(start, c);
                lemma_filter_map_identity(start, f);
            }
        }
        n
    }

    /// Resolves every resolvable conflict in favour of the local version: it is rebased on the
    /// database's version, becomes a creation when the saved region is gone, or the entry
    /// goes when both are gone. Returns how many were resolved.
    pub fn keep_local_conflicts(&mut self) -> (n: usize)
        requires
            old(self).wf(),
        ensures
            final(self).wf(),
            n == count_entries(old(self)@.entries, |e: RegionEditEntry| resolvable_conflict(e)),
            n == 0 ==> final(self)@ == old(self)@,
            n > 0 ==> final(self)@ == diverged(RegionView { entries: keep_all(old(self)@.entries), ..old(self)@ }),
    {
        let ghost start = self.entries@;
        let ghost f = |p: (GroundCoverRegionId, RegionEditEntry)| keep_step(p);
        let ghost c = |e: RegionEditEntry| resolvable_conflict(e);
        assert(start.len() == self.entries.len());
        let mut rest: Vec<(GroundCoverRegionId, RegionEditEntry)> = Vec::new();
        core::mem::swap(&mut rest, &mut self.entries);
        let mut out: Vec<(GroundCoverRegionId, RegionEditEntry)> = Vec::new();
        let mut n: usize = 0;
        let mut i: usize = 0;
        assert(start.skip(0) =~= start);
        while rest.len() > 0
            invariant
                i <= start.len(),
                start.len() <= usize::MAX,
                rest@ == start.skip(i as int),
                out@ == filter_map_entries(start.take(i as int), f),
                n == count_entries(start.take(i as int), c),
                n <= i,
                f == (|p: (GroundCoverRegionId, RegionEditEntry)| keep_step(p)),
                c == (|e: RegionEditEntry| resolvable_conflict(e)),
                self.edit_revision == old(self).edit_revision,
                self.runtime_diverged == old(self).runtime_diverged,
                self.last_completed_query == old(self).last_completed_query,
            decreases rest@.len(),
        {
            let p = rest.remove(0);
            proof {
                assert(p == start[i as int]);
                assert(start.skip(i as int).remove(0) =~= start.skip(i + 1));
                lemma_filter_map_take(start, i as int, f);
                lemma_count_step(start, i as int, c);
            }
            let resolvable = resolvable(&p.1);
            if resolvable {
                n = n + 1;
            }
            match keep_entry(p) {
                Some(q) => out.push(q),
                None => {},
            }
            i = i + 1;
        }
        proof {
            assert(start.take(i as int) =~= start);
            lemma_filter_map_unique(start, f);
        }
        self.entries = out;
        if n > 0 {
            self.mark_runtime_diverged();
        } else {
            proof {
                lemma_count_zero(start, c);
                lemma_filter_map_identity(start, f);
            }
        }
        n
    }

    fn saving_in_request(&self, request_id: u64) -> (r: bool)
        ensures
            r == any_entry(self@.entries, |e: RegionEditEntry| saving_in(e, request_id)),
    {
        let mut i: usize = 0;
        while i < self.entries.len()
            invariant
                i <= self.entries@.len(),
                forall|j: int| 0 <= j < i ==> !saving_in(#[trigger] self.entries@[j].1, request_id),
            decreases self.entries@.len() - i,
        {
            let hit = match self.entries[i].1.save_state {
                RegionSaveState::Saving(r) => r == request_id,
                _ => false,
            };
            if hit {
                assert(saving_in(self.entries@[i as int].1, request_id));
                return true;
            }
            i = i + 1;
        }
        false
    }

    fn settle_saving(
        &mut self,
        request_id: u64,
        key: Option<GroundCoverRegionId>,
        named: &RegionSaveState,
        others: &RegionSaveState,
    )
        requires
            old(self).wf(),
        ensures
            final(self).wf(),
            final(self)@ == (RegionView {
                entries: settle_all(old(self)@.entries, request_id, key, *named, *others),
                ..old(self)@
            }),
    {
        let ghost start = self.entries@;
        let mut i: usize = 0;
        while i < self.entries.len()
            invariant
                i <= self.entries@.len(),
                self.entries@.len() == start.len(),
                forall|j: int| 0 <= j < i ==> self.entries@[j] == settle(start[j], request_id, key, *named, *others),
                forall|j: int| i <= j < start.len() ==> self.entries@[j] == start[j],
                self.edit_revision == old(self).edit_revision,
                self.runtime_diverged == old(self).runtime_diverged,
                self.last_completed_query == old(self).last_completed_query,
            decreases start.len() - i,
        {
            let hit = match self.entries[i].1.save_state {
                RegionSaveState::Saving(r) => r == request_id,
                _ => false,
            };
            if hit {
                let k = self.entries[i].0;
                let base = self.entries[i].1.base;
                let current = self.entries[i].1.current;
                let named_here = match key {
                    Some(x) => x == k,
                    None => false,
                };
                let state = if named_here {
                    clone_state(named)
                } else {
                    clone_state(others)
                };
                self.entries.set(i, (k, RegionEditEntry { base, current, save_state: state }));
            }
            i = i + 1;
        }
        proof {
            let mapped = settle_all(start, request_id, key, *named, *others);
            assert(self.entries@ =~= mapped);
            assert forall|a: int, b: int| 0 <= a < mapped.len() && 0 <= b < mapped.len() && a != b implies mapped[a].0 != mapped[b].0 by {
                assert(mapped[a].0 == start[a].0);
                assert(mapped[b].0 == start[b].0);
            }
        }
    }

    /// Takes in the database's answer to save request `request_id`; an answer to no entry's
    /// request changes nothing. Committed writes become the saved versions; a conflict is
    /// recorded on the named region and releases the others; a deletion blocked by coverage
    /// brings the named region back to its saved version and releases the others; a failure
    /// is recorded on every region of the request. Reports whether the history is stale
    /// because a blocked deletion was undone.
    pub fn finish_save(&mut self, request_id: u64, outcome: RegionSaveOutcome) -> (stale: bool)
        requires
            old(self).wf(),
        ensures
            final(self).wf(),
            !any_entry(old(self)@.entries, |e: RegionEditEntry| saving_in(e, request_id)) ==> !stale && final(self)@
                == old(self)@,
            any_entry(old(self)@.entries, |e: RegionEditEntry| saving_in(e, request_id)) ==> final(self)@
                == finish_model(old(self)@, request_id, outcome) && stale == history_stale(old(self)@.entries, request_id, outcome),
    {
        if !self.saving_in_request(request_id) {
            return false;
        }
        let ghost start = self.entries@;
        let ghost g_outcome = outcome;
        let mut stale = false;
        match outcome {
            RegionSaveOutcome::Committed(commits) => {
                let mut i: usize = 0;
                while i < commits.len()
                    invariant
                        i <= commits@.len(),
                        keys_unique(self.entries@),
                        self.entries@ == apply_commits(start, commits@.take(i as int)),
                        self.edit_revision == old(self).edit_revision,
                        self.runtime_diverged == old(self).runtime_diverged,
                        self.last_completed_query == old(self).last_completed_query,
                    decreases commits@.len() - i,
                {
                    proof {
                        assert(commits@.take(i + 1).drop_last() =~= commits@.take(i as int));
                    }
                    apply_commit(&mut self.entries, commits[i]);
                    i = i + 1;
                }
                assert(commits@.take(i as int) =~= commits@);
            },
            RegionSaveOutcome::Conflict { region, actual } => {
                self.settle_saving(request_id, Some(region), &RegionSaveState::Conflict(actual), &RegionSaveState::Idle);
            },
            RegionSaveOutcome::BlockedByCoverage { region } => {
                stale = self.block_saving(request_id, region);
            },
            RegionSaveOutcome::Failed(error) => {
                let failed = RegionSaveState::Failed(error);
                self.settle_saving(request_id, None, &failed, &failed);
            },
        }
        self.bump_revision();
        stale
    }

    fn block_saving(&mut self, request_id: u64, region: GroundCoverRegionId) -> (stale: bool)
        requires
            old(self).wf(),
        ensures
            final(self).wf(),
            final(self)@ == (RegionView {
                entries: old(self)@.entries.map_values(|p: (GroundCoverRegionId, RegionEditEntry)| blocked(p, request_id, region)),
                ..old(self)@
            }),
            stale == (has_key(old(self)@.entries, region) && saving_in(entry_of(old(self)@.entries, region), request_id)),
    {
        let ghost start = self.entries@;
        let mut stale = false;
        let mut i: usize = 0;
        while i < self.entries.len()
            invariant
                i <= self.entries@.len(),
                self.entries@.len() == start.len(),
                keys_unique(start),
                forall|j: int| 0 <= j < i ==> self.entries@[j] == blocked(start[j], request_id, region),
                forall|j: int| i <= j < start.len() ==> self.entries@[j] == start[j],
                stale == exists|j: int| 0 <= j < i && start[j].0 == region && saving_in(start[j].1, request_id),
                self.edit_revision == old(self).edit_revision,
                self.runtime_diverged == old(self).runtime_diverged,
                self.last_completed_query == old(self).last_completed_query,
            decreases start.len() - i,
        {
            let hit = match self.entries[i].1.save_state {
                RegionSaveState::Saving(r) => r == request_id,
                _ => false,
            };
            let ghost was = stale;
            if hit {
                let k = self.entries[i].0;
                let base = self.entries[i].1.base;
                let current = self.entries[i].1.current;
                if k == region {
                    self.entries.set(i, (k, RegionEditEntry { base, current: base, save_state: RegionSaveState::BlockedByCoverage }));
                    stale = true;
                } else {
                    self.entries.set(i, (k, RegionEditEntry { base, current, save_state: RegionSaveState::Idle }));
                }
            }
            proof {
                assert(hit == saving_in(start[i as int].1, request_id));
                if start[i as int].0 == region && hit {
                    assert(stale);
                } else {
                    assert(stale == was);
                }
                assert(stale == exists|j: int| 0 <= j < i + 1 && start[j].0 == region && saving_in(start[j].1, request_id));
            }
            i = i + 1;
        }
        proof {
            let mapped = start.map_values(|p: (GroundCoverRegionId, RegionEditEntry)| blocked(p, request_id, region));
            assert(self.entries@ =~= mapped);
            assert forall|a: int, b: int| 0 <= a < mapped.len() && 0 <= b < mapped.len() && a != b implies mapped[a].0 != mapped[b].0 by {
                assert(mapped[a].0 == start[a].0);
                assert(mapped[b].0 == start[b].0);
            }
            if stale {
                let j = choose|j: int| 0 <= j < i && start[j].0 == region && saving_in(start[j].1, request_id);
                lemma_key_index(start, j);
            }
            if has_key(start, region) && saving_in(entry_of(start, region), request_id) {
                let j = key_index(start, region);
                assert(start[j].0 == region);
            }
        }
        stale
    }

    /// Takes in the answer to a save, clearing the history when the answer made it stale.
    pub fn finish_save_with_history<C>(&mut self, request_id: u64, outcome: RegionSaveOutcome, history: &mut EditorHistory<C>)
        requires
            old(self).wf(),
            old(history).wf(),
        ensures
            final(self).wf(),
            final(history).wf(),
            !any_entry(old(self)@.entries, |e: RegionEditEntry| saving_in(e, request_id)) ==> final(self)@ == old(self)@,
            any_entry(old(self)@.entries, |e: RegionEditEntry| saving_in(e, request_id)) ==> final(self)@ == finish_model(
                old(self)@,
                request_id,
                outcome,
            ),
            !(any_entry(old(self)@.entries, |e: RegionEditEntry| saving_in(e, request_id)) && history_stale(
                old(self)@.entries,
                request_id,
                outcome,
            )) ==> final(history)@ == old(history)@,
            any_entry(old(self)@.entries, |e: RegionEditEntry| saving_in(e, request_id)) && history_stale(
                old(self)@.entries,
                request_id,
                outcome,
            ) ==> final(history)@.undo.len() == 0 && final(history)@.redo.len() == 0,
    {
        if self.finish_save(request_id, outcome) {
            history.clear();
        }
    }

    /// Takes in the project's records after query `completed_queries` completed: only a newer
    /// query does anything. Entries that are not pinned go when the database lost their key;
    /// each fresh record then replaces an entry that is not pinned or gets a new one.
    pub fn reconcile(&mut self, completed_queries: u64, fresh: &[SourceGroundCoverRegionRecord])
        requires
            old(self).wf(),
        ensures
            final(self).wf(),
            completed_queries == old(self)@.last_completed_query ==> final(self)@ == old(self)@,
            completed_queries != old(self)@.last_completed_query ==> final(self)@ == (RegionView {
                entries: apply_fresh(retain_fresh(old(self)@.entries, fresh@), fresh@),
                last_completed_query: completed_queries,
                ..old(self)@
            }),
    {
        if self.last_completed_query == completed_queries {
            return;
        }
        self.last_completed_query = completed_queries;
        let ghost start = self.entries@;
        let ghost f = |p: (GroundCoverRegionId, RegionEditEntry)| retain_step(p, fresh@);
        assert(start.len() == self.entries.len());
        let mut rest: Vec<(GroundCoverRegionId, RegionEditEntry)> = Vec::new();
        core::mem::swap(&mut rest, &mut self.entries);
        let mut out: Vec<(GroundCoverRegionId, RegionEditEntry)> = Vec::new();
        let mut i: usize = 0;
        assert(start.skip(0) =~= start);
        while rest.len() > 0
            invariant
                i <= start.len(),
                start.len() <= usize::MAX,
                rest@ == start.skip(i as int),
                out@ == filter_map_entries(start.take(i as int), f),
                f == (|p: (GroundCoverRegionId, RegionEditEntry)| retain_step(p, fresh@)),
            decreases rest@.len(),
        {
            let p = rest.remove(0);
            proof {
                assert(p == start[i as int]);
                assert(start.skip(i as int).remove(0) =~= start.skip(i + 1));
                lemma_filter_map_take(start, i as int, f);
            }
            let keep = entry_pinned(&p.1) || fresh_contains(fresh, p.0);
            if keep {
                out.push(p);
            }
            i = i + 1;
        }
        proof {
            assert(start.take(i as int) =~= start);
            lemma_filter_map_unique(start, f);
        }
        let ghost kept = out@;
        let mut j: usize = 0;
        while j < fresh.len()
            invariant
                j <= fresh@.len(),
                keys_unique(out@),
                out@ == apply_fresh(kept, fresh@.take(j as int)),
            decreases fresh@.len() - j,
        {
            proof {
                assert(fresh@.take(j + 1).drop_last() =~= fresh@.take(j as int));
            }
            let r = fresh[j];
            match find_entry(&out, r.id) {
                Some(k) => {
                    if !entry_pinned(&out[k].1) {
                        proof {
                            lemma_update_unique(out@, k as int, (r.id, saved_entry(r)));
                        }
                        out.set(k, (r.id, RegionEditEntry { base: Some(r), current: Some(r), save_state: RegionSaveState::Idle }));
                    }
                },
                None => {
                    proof {
                        lemma_put_unique(out@, r.id, saved_entry(r));
                    }
                    out.push((r.id, RegionEditEntry { base: Some(r), current: Some(r), save_state: RegionSaveState::Idle }));
                },
            }
            j = j + 1;
        }
        assert(fresh@.take(j as int) =~= fresh@);
        self.entries = out;
    }

    /// The message of the first region whose save is not idle, if any.
    pub fn status(&self) -> (r: Option<String>)
        ensures
            match (r, first_message(self@.entries)) {
                (None, None) => true,
                (Some(t), Some(m)) => t@ == m,
                _ => false,
            },
    {
        let mut i: usize = 0;
        assert(self.entries@.skip(0) =~= self.entries@);
        while i < self.entries.len()
            invariant
                i <= self.entries@.len(),
                first_message(self.entries@) == first_message(self.entries@.skip(i as int)),
            decreases self.entries@.len() - i,
        {
            proof {
                assert(self.entries@.skip(i as int).drop_first() =~= self.entries@.skip(i + 1));
                assert(self.entries@.skip(i as int)[0] == self.entries@[i as int]);
            }
            match state_text(&self.entries[i].1.save_state) {
                Some(t) => return Some(t),
                None => {},
            }
            i = i + 1;
        }
        assert(self.entries@.skip(i as int).len() == 0);
        None
    }

    /// The recovery snapshots of every edited region, ordered by the identity of their
    /// version.
    pub fn dirty_snapshots(&self) -> (r: Vec<DirtyRegionSnapshot>)
        ensures
            r@ == dirty_snapshot_list(self@.entries),
    {
        let mut ranked: Vec<(Rank, DirtyRegionSnapshot)> = Vec::new();
        let mut i: usize = 0;
        while i < self.entries.len()
            invariant
                i <= self.entries@.len(),
                ranked@ == dirty_ranked(self.entries@.take(i as int)),
            decreases self.entries@.len() - i,
        {
            proof {
                assert(self.entries@.take(i + 1).drop_last() =~= self.entries@.take(i as int));
            }
            let e = &self.entries[i].1;
            if entry_dirty(e) {
                let snapshot = DirtyRegionSnapshot { base: e.base, current: e.current };
                let key = match (snapshot.current, snapshot.base) {
                    (Some(c), _) => c.id,
                    (None, Some(b)) => b.id,
                    (None, None) => GroundCoverRegionId(0),
                };
                ranked.push(((0u8, key.0), snapshot));
            }
            i = i + 1;
        }
        assert(self.entries@.take(i as int) =~= self.entries@);
        sort_ranked(&mut ranked);
        let mut out: Vec<DirtyRegionSnapshot> = Vec::new();
        let mut j: usize = 0;
        while j < ranked.len()
            invariant
                j <= ranked@.len(),
                out@ == ranked@.take(j as int).map_values(|p: (Rank, DirtyRegionSnapshot)| p.1),
            decreases ranked@.len() - j,
        {
            out.push(ranked[j].1);
            proof {
                assert(ranked@.take(j + 1).map_values(|p: (Rank, DirtyRegionSnapshot)| p.1) =~= ranked@.take(j as int).map_values(|p: (Rank, DirtyRegionSnapshot)| p.1).push(ranked@[j as int].1));
            }
            j = j + 1;
        }
        assert(ranked@.take(j as int) =~= ranked@);
        out
    }

    /// Queues one save transaction through `queue`, which hands the writes to the project
    /// store and answers with the request's identity, or `None` when it refused. Nothing is
    /// queued while a save is in flight or a conflict waits. The transaction carries the first
    /// `max_writes` edited regions by identity; they are then saving in the request.
    pub fn queue_save<F: FnOnce(Vec<GroundCoverRegionWrite>) -> Option<u64>>(
        &mut self,
        max_writes: usize,
        queue: F,
    ) -> (queued: bool)
        requires
            old(self).wf(),
            forall|w: Vec<GroundCoverRegionWrite>| w@ == write_list(selected_writes(old(self)@.entries, max_writes as nat))
                ==> #[trigger] queue.requires((w,)),
        ensures
            final(self).wf(),
            any_entry(old(self)@.entries, |e: RegionEditEntry| is_saving(e)) || any_entry(
                old(self)@.entries,
                |e: RegionEditEntry| is_conflict(e),
            ) ==> !queued && final(self)@ == old(self)@,
            !any_entry(old(self)@.entries, |e: RegionEditEntry| is_saving(e)) && !any_entry(
                old(self)@.entries,
                |e: RegionEditEntry| is_conflict(e),
            ) ==> exists|w: Vec<GroundCoverRegionWrite>, answer: Option<u64>|
                w@ == write_list(selected_writes(old(self)@.entries, max_writes as nat))
                    && #[trigger] queue.ensures((w,), answer) && match answer {
                    None => !queued && final(self)@ == old(self)@,
                    Some(id) => queued && final(self)@ == (RegionView {
                        entries: mark_saving(
                            old(self)@.entries,
                            selected_writes(old(self)@.entries, max_writes as nat),
                            id,
                        ),
                        ..old(self)@
                    }),
                },
    {
        if self.saving() || self.has_any_conflict() {
            return false;
        }
        let ghost start = self.entries@;
        let mut candidates: Vec<(Rank, (GroundCoverRegionId, GroundCoverRegionWrite))> = Vec::new();
        let mut i: usize = 0;
        while i < self.entries.len()
            invariant
                i <= self.entries@.len(),
                candidates@ == save_candidates(self.entries@.take(i as int)),
            decreases self.entries@.len() - i,
        {
            proof {
                assert(self.entries@.take(i + 1).drop_last() =~= self.entries@.take(i as int));
            }
            let key = self.entries[i].0;
            let e = &self.entries[i].1;
            if entry_dirty(e) {
                candidates.push(((0u8, key.0), (key, write_of_exec(key, e))));
            }
            i = i + 1;
        }
        assert(self.entries@.take(i as int) =~= self.entries@);
        sort_ranked(&mut candidates);
        let n = if max_writes < candidates.len() {
            max_writes
        } else {
            candidates.len()
        };
        let ghost selected = selected_writes(start, max_writes as nat);
        let mut keys: Vec<GroundCoverRegionId> = Vec::new();
        let mut writes: Vec<GroundCoverRegionWrite> = Vec::new();
        let mut j: usize = 0;
        while j < n
            invariant
                j <= n,
                n <= candidates@.len(),
                selected.len() == n,
                forall|k: int| 0 <= k < n ==> #[trigger] selected[k] == candidates@[k].1,
                keys@.len() == j && writes@.len() == j,
                forall|k: int| 0 <= k < j ==> #[trigger] keys@[k] == selected[k].0,
                forall|k: int| 0 <= k < j ==> #[trigger] writes@[k] == selected[k].1,
            decreases n - j,
        {
            keys.push(candidates[j].1.0);
            writes.push(candidates[j].1.1);
            j = j + 1;
        }
        proof {
            assert(writes@ =~= write_list(selected));
        }
        let ghost w = writes;
        let answer = queue(writes);
        let request_id = match answer {
            None => {
                assert(self@ == old(self)@);
                return false;
            },
            Some(id) => id,
        };
        let mut k: usize = 0;
        while k < self.entries.len()
            invariant
                k <= self.entries@.len(),
                self.entries@.len() == start.len(),
                keys@.len() == selected.len(),
                forall|x: int| 0 <= x < keys@.len() ==> #[trigger] keys@[x] == selected[x].0,
                forall|x: int| 0 <= x < k ==> self.entries@[x] == mark_saving(start, selected, request_id)[x],
                forall|x: int| k <= x < start.len() ==> self.entries@[x] == start[x],
                self.edit_revision == old(self).edit_revision,
                self.runtime_diverged == old(self).runtime_diverged,
                self.last_completed_query == old(self).last_completed_query,
            decreases start.len() - k,
        {
            let key = self.entries[k].0;
            let mut hit = false;
            let mut x: usize = 0;
            while x < keys.len()
                invariant
                    x <= keys@.len(),
                    hit == exists|y: int| 0 <= y < x && keys@[y] == key,
                decreases keys@.len() - x,
            {
                if keys[x] == key {
                    hit = true;
                }
                x = x + 1;
            }
            proof {
                if hit {
                    let y = choose|y: int| 0 <= y < keys@.len() && keys@[y] == key;
                    assert(selected[y].0 == key);
                }
                if selects(selected, key) {
                    let y = choose|y: int| 0 <= y < selected.len() && selected[y].0 == key;
                    assert(keys@[y] == key);
                }
            }
            if hit {
                let base = self.entries[k].1.base;
                let current = self.entries[k].1.current;
                self.entries.set(k, (key, RegionEditEntry { base, current, save_state: RegionSaveState::Saving(request_id) }));
            }
            k = k + 1;
        }
        proof {
            let marked = mark_saving(start, selected, request_id);
            assert(self.entries@ =~= marked);
            assert forall|a: int, b: int| 0 <= a < marked.len() && 0 <= b < marked.len() && a != b implies marked[a].0 != marked[b].0 by {
                assert(marked[a].0 == start[a].0);
                assert(marked[b].0 == start[b].0);
            }
        }
        true
    }

    /// Tracks a saved region that a command is about to touch, unless it is tracked already.
    pub fn pin_source(&mut self, source: SourceGroundCoverRegionRecord)
        requires
            old(self).wf(),
        ensures
            final(self).wf(),
            has_key(old(self)@.entries, source.id) ==> final(self)@ == old(self)@,
            !has_key(old(self)@.entries, source.id) ==> final(self)@ == (RegionView {
                entries: old(self)@.entries.push((source.id, saved_entry(source))),
                ..old(self)@
            }),
    {
        if find_entry(&self.entries, source.id).is_none() {
            proof {
                lemma_put_unique(self.entries@, source.id, saved_entry(source));
            }
            self.entries.push((source.id, RegionEditEntry { base: Some(source), current: Some(source), save_state: RegionSaveState::Idle }));
        }
    }

    fn bump_revision(&mut self)
        ensures
            final(self)@ == (RegionView { edit_revision: next_id(old(self)@.edit_revision), ..old(self)@ }),
    {
        self.edit_revision = crate::project_store::bump(self.edit_revision);
    }

    fn mark_runtime_diverged(&mut self)
        ensures
            final(self)@ == diverged(old(self)@),
    {
        self.runtime_diverged = true;
        self.bump_revision();
    }

    /// Notes that the runtime now shows the source regions; reports whether it had diverged.
    pub fn adopt_runtime_generation(&mut self) -> (adopted: bool)
        requires
            old(self).wf(),
        ensures
            final(self).wf(),
            adopted == old(self)@.runtime_diverged,
            !adopted ==> final(self)@ == old(self)@,
            adopted ==> final(self)@ == (RegionView {
                runtime_diverged: false,
                edit_revision: next_id(old(self)@.edit_revision),
                ..old(self)@
            }),
    {
        if !self.runtime_diverged {
            return false;
        }
        self.runtime_diverged = false;
        self.bump_revision();
        true
    }
}

} // verus!
