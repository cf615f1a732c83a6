//! The atmosphere working set: local profile edits of each world space over its saved
//! revision, with preview gestures, recovery snapshots, saving and conflict resolution.

use vstd::prelude::*;
use crate::world::WorldSpaceId;

verus! {

/// An atmosphere profile, held by content: equal contents stand for equal profiles, and
/// `valid` records whether the profile passed validation.
#[derive(Clone, Copy, Debug, PartialEq, Eq, Hash, Structural)]
pub struct AtmosphereProfile {
    pub content: u64,
    pub valid: bool,
}

} // verus!

verus! {

/// The saved and local profile of one world space.
#[derive(Clone, Copy, Debug, PartialEq, Eq, Structural)]
pub struct Snapshot {
    pub space: WorldSpaceId,
    pub revision: i64,
    pub base: AtmosphereProfile,
    pub current: AtmosphereProfile,
}

/// The atmosphere of a world space as the project database holds it.
#[derive(Clone, Copy, Debug, PartialEq, Eq, Structural)]
pub struct WorldSpaceAtmosphere {
    pub id: WorldSpaceId,
    pub atmosphere_revision: i64,
    pub atmosphere: AtmosphereProfile,
}

/// What the database answered to an atmosphere save.
#[derive(Clone, Debug, PartialEq, Eq)]
pub enum AtmosphereWriteResult {
    Committed(Vec<(WorldSpaceId, i64, AtmosphereProfile)>),
    Conflict { space: WorldSpaceId, revision: i64, actual: AtmosphereProfile },
}

/// The abstract state of an atmosphere working set. Entries are ordered by space.
pub struct AtmosphereView {
    pub entries: Seq<Snapshot>,
    pub revision: u64,
    pub saving: Option<u64>,
    pub error: Option<Seq<char>>,
    pub conflict: Option<(WorldSpaceId, i64, AtmosphereProfile)>,
    pub gesture: Option<(WorldSpaceId, AtmosphereProfile)>,
}

/// Entries ordered strictly by space identity.
pub open spec fn entries_sorted(entries: Seq<Snapshot>) -> bool {
    forall|i: int, j: int| 0 <= i < j < entries.len() ==> entries[i].space.0 < entries[j].space.0
}

/// Whether an entry of the space exists.
pub open spec fn has_space(entries: Seq<Snapshot>, space: WorldSpaceId) -> bool {
    exists|i: int| 0 <= i < entries.len() && entries[i].space == space
}

/// The position of the entry of the space.
pub open spec fn space_index(entries: Seq<Snapshot>, space: WorldSpaceId) -> int {
    choose|i: int| 0 <= i < entries.len() && entries[i].space == space
}

/// How many leading entries have a smaller space identity.
pub open spec fn lower_bound(entries: Seq<Snapshot>, space: WorldSpaceId) -> nat
    decreases entries.len(),
{
    if entries.len() == 0 {
        0
    } else if entries[0].space.0 < space.0 {
        1 + lower_bound(entries.skip(1), space)
    } else {
        0
    }
}

/// The entries with the snapshot put in place of the entry of its space, or added in order.
pub open spec fn put_entry(entries: Seq<Snapshot>, snapshot: Snapshot) -> Seq<Snapshot> {
    if has_space(entries, snapshot.space) {
        entries.update(space_index(entries, snapshot.space), snapshot)
    } else {
        entries.insert(lower_bound(entries, snapshot.space) as int, snapshot)
    }
}

/// Whether the local profile differs from the saved one.
pub open spec fn is_dirty(e: Snapshot) -> bool {
    e.base != e.current
}

/// How many entries are dirty.
pub open spec fn dirty_total(entries: Seq<Snapshot>) -> nat
    decreases entries.len(),
{
    if entries.len() == 0 {
        0
    } else {
        dirty_total(entries.drop_last()) + if is_dirty(entries.last()) { 1nat } else { 0nat }
    }
}

/// Whether saving, a gesture or a conflict blocks edits and saves.
pub open spec fn spec_blocked(s: AtmosphereView) -> bool {
    s.saving is Some || s.gesture is Some || s.conflict is Some
}

/// The entry as a recovery journal records it: during a gesture, the profile before it.
pub open spec fn journal_entry(e: Snapshot, gesture: Option<(WorldSpaceId, AtmosphereProfile)>) -> Snapshot {
    match gesture {
        Some(g) => if g.0 == e.space { Snapshot { current: g.1, ..e } } else { e },
        None => e,
    }
}

/// The dirty entries as the journal records them, in space order.
pub open spec fn journal_of(entries: Seq<Snapshot>, gesture: Option<(WorldSpaceId, AtmosphereProfile)>) -> Seq<Snapshot>
    decreases entries.len(),
{
    if entries.len() == 0 {
        Seq::empty()
    } else {
        let rest = journal_of(entries.drop_last(), gesture);
        let e = journal_entry(entries.last(), gesture);
        if is_dirty(e) {
            rest.push(e)
        } else {
            rest
        }
    }
}

/// The save writes of the dirty entries, in space order.
pub open spec fn writes_of(entries: Seq<Snapshot>) -> Seq<crate::project_store::AtmosphereWrite>
    decreases entries.len(),
{
    if entries.len() == 0 {
        Seq::empty()
    } else {
        let rest = writes_of(entries.drop_last());
        let e = entries.last();
        if is_dirty(e) {
            rest.push(
                crate::project_store::AtmosphereWrite {
                    space: e.space,
                    expected_revision: e.revision,
                    profile: e.current,
                },
            )
        } else {
            rest
        }
    }
}

/// A recovery snapshot that may be restored: valid profiles and a saved revision.
pub open spec fn restorable(snapshot: Snapshot) -> bool {
    snapshot.base.valid && snapshot.current.valid && snapshot.revision >= 1
}

/// Restores snapshots in turn: each valid one replaces a clean or missing entry. Returns the
/// entries and how many snapshots were restored.
pub open spec fn restore_all(entries: Seq<Snapshot>, snapshots: Seq<Snapshot>) -> (Seq<Snapshot>, nat)
    decreases snapshots.len(),
{
    if snapshots.len() == 0 {
        (entries, 0)
    } else {
        let (e, n) = restore_all(entries, snapshots.drop_last());
        let snapshot = snapshots.last();
        if restorable(snapshot) && (!has_space(e, snapshot.space) || !is_dirty(
            e[space_index(e, snapshot.space)],
        )) {
            (put_entry(e, snapshot), n + 1)
        } else {
            (e, n)
        }
    }
}

/// Applies committed records in turn: the saved revision and profile of each known space.
pub open spec fn commit_all(entries: Seq<Snapshot>, records: Seq<(WorldSpaceId, i64, AtmosphereProfile)>) -> Seq<Snapshot>
    decreases records.len(),
{
    if records.len() == 0 {
        entries
    } else {
        let e = commit_all(entries, records.drop_last());
        let (space, revision, profile) = records.last();
        if has_space(e, space) {
            let i = space_index(e, space);
            e.update(i, Snapshot { revision, base: profile, ..e[i] })
        } else {
            e
        }
    }
}

/// The next working-set revision.
pub open spec fn next_revision(r: u64) -> u64 {
    if r == u64::MAX {
        0
    } else {
        (r + 1) as u64
    }
}

/// The message shown when the database holds a newer atmosphere.
pub open spec fn conflict_message() -> Seq<char> {
    "Atmosphere changed in the project database. Resolve the conflict below."@
}

} // verus!

verus! {

pub proof fn lemma_space_index(entries: Seq<Snapshot>, i: int)
    requires
        entries_sorted(entries),
        0 <= i < entries.len(),
    ensures
        has_space(entries, entries[i].space),
        space_index(entries, entries[i].space) == i,
{
    assert(has_space(entries, entries[i].space));
    let c = space_index(entries, entries[i].space);
    if c < i {
        assert(entries[c].space.0 < entries[i].space.0);
    } else if c > i {
        assert(entries[i].space.0 < entries[c].space.0);
    }
}

pub proof fn lemma_lower_bound(entries: Seq<Snapshot>, space: WorldSpaceId)
    requires
        entries_sorted(entries),
    ensures
        lower_bound(entries, space) <= entries.len(),
        forall|k: int| 0 <= k < lower_bound(entries, space) ==> entries[k].space.0 < space.0,
        forall|k: int| lower_bound(entries, space) <= k < entries.len() ==> entries[k].space.0 >= space.0,
    decreases entries.len(),
{
    if entries.len() > 0 && entries[0].space.0 < space.0 {
        let t = entries.skip(1);
        assert(entries_sorted(t)) by {
            assert forall|i: int, j: int| 0 <= i < j < t.len() implies t[i].space.0 < t[j].space.0 by {
                assert(t[i] == entries[i + 1]);
                assert(t[j] == entries[j + 1]);
            }
        }
        lemma_lower_bound(t, space);
        assert forall|k: int| 0 <= k < lower_bound(entries, space) implies entries[k].space.0 < space.0 by {
            if k > 0 {
                assert(entries[k] == t[k - 1]);
            }
        }
        assert forall|k: int| lower_bound(entries, space) <= k < entries.len() implies entries[k].space.0
            >= space.0 by {
            assert(entries[k] == t[k - 1]);
        }
    } else if entries.len() > 0 {
        assert forall|k: int| 0 <= k < entries.len() implies entries[k].space.0 >= space.0 by {
            if k > 0 {
                assert(entries[0].space.0 < entries[k].space.0);
            }
        }
    }
}

pub proof fn lemma_put_entry(entries: Seq<Snapshot>, snapshot: Snapshot)
    requires
        entries_sorted(entries),
    ensures
        entries_sorted(put_entry(entries, snapshot)),
        forall|x: WorldSpaceId|
            has_space(put_entry(entries, snapshot), x) <==> (has_space(entries, x) || x
                == snapshot.space),
        put_entry(entries, snapshot)[space_index(put_entry(entries, snapshot), snapshot.space)]
            == snapshot,
{
    let p = put_entry(entries, snapshot);
    if has_space(entries, snapshot.space) {
        let i = space_index(entries, snapshot.space);
        assert forall|a: int, b: int| 0 <= a < b < p.len() implies p[a].space.0 < p[b].space.0 by {
            assert(p[a].space == entries[a].space);
            assert(p[b].space == entries[b].space);
        }
        assert forall|x: WorldSpaceId| has_space(p, x) <==> (has_space(entries, x) || x == snapshot.space) by {
            if has_space(p, x) {
                let k = choose|k: int| 0 <= k < p.len() && p[k].space == x;
                assert(entries[k].space == x);
            }
            if has_space(entries, x) {
                let k = choose|k: int| 0 <= k < entries.len() && entries[k].space == x;
                assert(p[k].space == x);
            }
        }
        lemma_space_index(p, i);
    } else {
        lemma_lower_bound(entries, snapshot.space);
        let lb = lower_bound(entries, snapshot.space) as int;
        assert forall|k: int| lb <= k < entries.len() implies entries[k].space.0 > snapshot.space.0 by {
            if entries[k].space.0 == snapshot.space.0 {
                assert(entries[k].space == snapshot.space);
            }
        }
        assert forall|a: int, b: int| 0 <= a < b < p.len() implies p[a].space.0 < p[b].space.0 by {
            let ea = if a < lb { a } else { a - 1 };
            let eb = if b < lb { b } else { b - 1 };
            if a != lb && b != lb {
                assert(p[a] == entries[ea]);
                assert(p[b] == entries[eb]);
            } else if a == lb {
                assert(p[b] == entries[eb]);
            } else {
                assert(p[a] == entries[ea]);
            }
        }
        assert forall|x: WorldSpaceId| has_space(p, x) <==> (has_space(entries, x) || x == snapshot.space) by {
            if has_space(p, x) {
                let k = choose|k: int| 0 <= k < p.len() && p[k].space == x;
                if k < lb {
                    assert(entries[k].space == x);
                } else if k > lb {
                    assert(entries[k - 1].space == x);
                }
            }
            if has_space(entries, x) {
                let k = choose|k: int| 0 <= k < entries.len() && entries[k].space == x;
                if k < lb {
                    assert(p[k].space == x);
                } else {
                    assert(p[k + 1].space == x);
                }
            }
            if x == snapshot.space {
                assert(p[lb].space == x);
            }
        }
        lemma_space_index(p, lb);
    }
}

fn find_space(entries: &Vec<Snapshot>, space: WorldSpaceId) -> (r: Option<usize>)
    requires
        entries_sorted(entries@),
    ensures
        match r {
            Some(i) => i < entries@.len() && has_space(entries@, space) && space_index(entries@, space) == i
                && entries@[i as int].space == space,
            None => !has_space(entries@, space),
        },
{
    let mut i: usize = 0;
    while i < entries.len()
        invariant
            i <= entries@.len(),
            entries_sorted(entries@),
            forall|k: int| 0 <= k < i ==> entries@[k].space != space,
        decreases entries@.len() - i,
    {
        if entries[i].space == space {
            proof {
                lemma_space_index(entries@, i as int);
            }
            return Some(i);
        }
        i = i + 1;
    }
    None
}

fn put(entries: &mut Vec<Snapshot>, snapshot: Snapshot)
    requires
        entries_sorted(old(entries)@),
    ensures
        final(entries)@ == put_entry(old(entries)@, snapshot),
        entries_sorted(final(entries)@),
{
    proof {
        lemma_put_entry(entries@, snapshot);
        lemma_lower_bound(entries@, snapshot.space);
    }
    match find_space(entries, snapshot.space) {
        Some(i) => {
            entries.set(i, snapshot);
        },
        None => {
            let ghost before = entries@;
            let mut i: usize = 0;
            while i < entries.len() && entries[i].space.0 < snapshot.space.0
                invariant
                    i <= entries@.len(),
                    entries@ == before,
                    entries_sorted(before),
                    lower_bound(before, snapshot.space) <= before.len(),
                    forall|k: int| 0 <= k < lower_bound(before, snapshot.space) ==> before[k].space.0 < snapshot.space.0,
                    forall|k: int| lower_bound(before, snapshot.space) <= k < before.len() ==> before[k].space.0 >= snapshot.space.0,
                    i <= lower_bound(before, snapshot.space),
                decreases entries@.len() - i,
            {
                i = i + 1;
            }
            entries.insert(i, snapshot);
        },
    }
}

/// The local atmosphere edits of every pinned world space.
pub struct WorkingSet {
    entries: Vec<Snapshot>,
    revision: u64,
    saving: Option<u64>,
    error: Option<String>,
    conflict: Option<(WorldSpaceId, i64, AtmosphereProfile)>,
    gesture: Option<(WorldSpaceId, AtmosphereProfile)>,
}

impl View for WorkingSet {
    type V = AtmosphereView;

    closed spec fn view(&self) -> AtmosphereView {
        AtmosphereView {
            entries: self.entries@,
            revision: self.revision,
            saving: self.saving,
            error: crate::project_store::opt_text(self.error),
            conflict: self.conflict,
            gesture: self.gesture,
        }
    }
}

/// The working-set invariant: entries in space order, and a gesture only over a pinned space.
pub open spec fn atmosphere_inv(s: AtmosphereView) -> bool {
    &&& entries_sorted(s.entries)
    &&& s.gesture is Some ==> has_space(s.entries, (s.gesture->0).0)
}

impl WorkingSet {
    /// The internal invariant, which every operation keeps.
    pub open spec fn wf(&self) -> bool {
        atmosphere_inv(self@)
    }

    /// An empty working set.
    pub fn new() -> (s: Self)
        ensures
            s.wf(),
            s@.entries.len() == 0,
            s@.revision == 0,
            s@.saving is None && s@.error is None && s@.conflict is None && s@.gesture is None,
    {
        WorkingSet { entries: Vec::new(), revision: 0, saving: None, error: None, conflict: None, gesture: None }
    }

    /// The entries, ordered by space.
    pub fn entries(&self) -> (e: &Vec<Snapshot>)
        ensures
            e@ == self@.entries,
    {
        &self.entries
    }

    /// The entry of a space.
    pub fn entry(&self, space: WorldSpaceId) -> (e: Option<Snapshot>)
        requires
            self.wf(),
        ensures
            match e {
                Some(x) => has_space(self@.entries, space) && x == self@.entries[space_index(self@.entries, space)],
                None => !has_space(self@.entries, space),
            },
    {
        match find_space(&self.entries, space) {
            Some(i) => Some(self.entries[i]),
            None => None,
        }
    }

    /// The working-set revision, advanced by every change that previews or journals observe.
    pub fn revision(&self) -> (r: u64)
        ensures
            r == self@.revision,
    {
        self.revision
    }

    /// The request identity of the save in flight.
    pub fn saving(&self) -> (r: Option<u64>)
        ensures
            r == self@.saving,
    {
        self.saving
    }

    /// The pending conflict: the space, the database revision and the database profile.
    pub fn conflict(&self) -> (r: Option<(WorldSpaceId, i64, AtmosphereProfile)>)
        ensures
            r == self@.conflict,
    {
        self.conflict
    }

    /// The open preview gesture: the space and its profile before the gesture.
    pub fn gesture(&self) -> (r: Option<(WorldSpaceId, AtmosphereProfile)>)
        ensures
            r == self@.gesture,
    {
        self.gesture
    }

    /// The message to show, if any.
    pub fn error(&self) -> (r: Option<&str>)
        ensures
            match r {
                Some(e) => self@.error == Some(e@),
                None => self@.error is None,
            },
    {
        match &self.error {
            Some(e) => Some(e.as_str()),
            None => None,
        }
    }

    /// Pins the saved atmosphere of a space; an existing entry is kept as it is.
    pub fn pin(&mut self, source: &WorldSpaceAtmosphere)
        requires
            old(self).wf(),
        ensures
            final(self).wf(),
            final(self)@ == (AtmosphereView {
                entries: if has_space(old(self)@.entries, source.id) {
                    old(self)@.entries
                } else {
                    put_entry(
                        old(self)@.entries,
                        Snapshot {
                            space: source.id,
                            revision: source.atmosphere_revision,
                            base: source.atmosphere,
                            current: source.atmosphere,
                        },
                    )
                },
                ..old(self)@
            }),
    {
        if find_space(&self.entries, source.id).is_none() {
            let snapshot = Snapshot {
                space: source.id,
                revision: source.atmosphere_revision,
                base: source.atmosphere,
                current: source.atmosphere,
            };
            proof {
                lemma_put_entry(self.entries@, snapshot);
            }
            put(&mut self.entries, snapshot);
        }
    }

    /// The number of spaces whose local profile differs from the saved one.
    pub fn dirty_count(&self) -> (n: usize)
        ensures
            n == dirty_total(self@.entries),
    {
        let mut n: usize = 0;
        let mut i: usize = 0;
        while i < self.entries.len()
            invariant
                i <= self.entries@.len(),
                n == dirty_total(self.entries@.take(i as int)),
                n <= i,
            decreases self.entries@.len() - i,
        {
            proof {
                assert(self.entries@.take(i + 1).drop_last() =~= self.entries@.take(i as int));
            }
            if self.entries[i].base != self.entries[i].current {
                n = n + 1;
            }
            i = i + 1;
        }
        proof {
            assert(self.entries@.take(i as int) =~= self.entries@);
        }
        n
    }

    /// Whether a save, a gesture or a conflict blocks edits and saves.
    pub fn blocked(&self) -> (r: bool)
        ensures
            r == spec_blocked(self@),
    {
        self.saving.is_some() || self.gesture.is_some() || self.conflict.is_some()
    }

    /// Sets the local profile of a pinned space; refused while blocked or for an invalid profile.
    pub fn apply(&mut self, space: WorldSpaceId, profile: AtmosphereProfile) -> (ok: bool)
        requires
            old(self).wf(),
        ensures
            final(self).wf(),
            ok == (!spec_blocked(old(self)@) && profile.valid && has_space(old(self)@.entries, space)),
            ok ==> final(self)@ == (AtmosphereView {
                entries: old(self)@.entries.update(
                    space_index(old(self)@.entries, space),
                    Snapshot { current: profile, ..old(self)@.entries[space_index(old(self)@.entries, space)] },
                ),
                revision: next_revision(old(self)@.revision),
                error: None,
                ..old(self)@
            }),
            !ok ==> final(self)@ == old(self)@,
    {
        if self.blocked() || !profile.valid {
            return false;
        }
        let i = match find_space(&self.entries, space) {
            Some(i) => i,
            None => return false,
        };
        let entry = self.entries[i];
        self.entries.set(i, Snapshot { current: profile, ..entry });
        self.revision = self.revision.wrapping_add(1);
        self.error = None;
        proof {
            assert forall|a: int, b: int| 0 <= a < b < self.entries@.len() implies self.entries@[a].space.0
                < self.entries@[b].space.0 by {
                assert(self.entries@[a].space == old(self)@.entries[a].space);
                assert(self.entries@[b].space == old(self)@.entries[b].space);
            }
        }
        true
    }

    /// Shows a previewed profile of a pinned space at once, opening a gesture that remembers the
    /// profile before it. Invalid or unchanged profiles are ignored.
    pub fn preview_edit(&mut self, space: WorldSpaceId, edited: AtmosphereProfile) -> (ok: bool)
        requires
            old(self).wf(),
        ensures
            final(self).wf(),
            ok == (has_space(old(self)@.entries, space) && edited.valid
                && edited != old(self)@.entries[space_index(old(self)@.entries, space)].current),
            ok ==> {
                let i = space_index(old(self)@.entries, space);
                let before = old(self)@.entries[i].current;
                final(self)@ == (AtmosphereView {
                    entries: old(self)@.entries.update(i, Snapshot { current: edited, ..old(self)@.entries[i] }),
                    gesture: if old(self)@.gesture is None { Some((space, before)) } else { old(self)@.gesture },
                    error: None,
                    ..old(self)@
                })
            },
            !ok ==> final(self)@ == old(self)@,
    {
        let i = match find_space(&self.entries, space) {
            Some(i) => i,
            None => return false,
        };
        let entry = self.entries[i];
        if !edited.valid || edited == entry.current {
            return false;
        }
        if self.gesture.is_none() {
            self.gesture = Some((space, entry.current));
        }
        self.entries.set(i, Snapshot { current: edited, ..entry });
        self.error = None;
        proof {
            assert forall|a: int, b: int| 0 <= a < b < self.entries@.len() implies self.entries@[a].space.0
                < self.entries@[b].space.0 by {
                assert(self.entries@[a].space == old(self)@.entries[a].space);
                assert(self.entries@[b].space == old(self)@.entries[b].space);
            }
            if self.gesture is Some {
                let g = (self.gesture->0).0;
                let k = space_index(old(self)@.entries, g);
                assert(self.entries@[k].space == g);
            }
        }
        true
    }

    /// Ends the open gesture. Returns the space, the profile before and after it when the
    /// gesture changed the profile, for one undoable command.
    pub fn finish_gesture(&mut self) -> (r: Option<(WorldSpaceId, AtmosphereProfile, AtmosphereProfile)>)
        requires
            old(self).wf(),
        ensures
            final(self).wf(),
            match old(self)@.gesture {
                None => r is None && final(self)@ == old(self)@,
                Some((space, before)) => {
                    let after = old(self)@.entries[space_index(old(self)@.entries, space)].current;
                    if before == after {
                        r is None && final(self)@ == (AtmosphereView { gesture: None, ..old(self)@ })
                    } else {
                        r == Some((space, before, after)) && final(self)@ == (AtmosphereView {
                            gesture: None,
                            revision: next_revision(old(self)@.revision),
                            ..old(self)@
                        })
                    }
                },
            },
    {
        let (space, before) = match self.gesture {
            Some(g) => g,
            None => return None,
        };
        self.gesture = None;
        let i = match find_space(&self.entries, space) {
            Some(i) => i,
            None => return None,
        };
        let after = self.entries[i].current;
        if before == after {
            return None;
        }
        self.revision = self.revision.wrapping_add(1);
        Some((space, before, after))
    }

    /// Cancels the open gesture, putting back the profile before it.
    pub fn cancel_gesture(&mut self)
        requires
            old(self).wf(),
        ensures
            final(self).wf(),
            match old(self)@.gesture {
                None => final(self)@ == old(self)@,
                Some((space, before)) => {
                    let i = space_index(old(self)@.entries, space);
                    final(self)@ == (AtmosphereView {
                        entries: old(self)@.entries.update(i, Snapshot { current: before, ..old(self)@.entries[i] }),
                        gesture: None,
                        ..old(self)@
                    })
                },
            },
    {
        if let Some((space, before)) = self.gesture {
            self.gesture = None;
            if let Some(i) = find_space(&self.entries, space) {
                let entry = self.entries[i];
                self.entries.set(i, Snapshot { current: before, ..entry });
                proof {
                    assert forall|a: int, b: int| 0 <= a < b < self.entries@.len() implies self.entries@[a].space.0
                        < self.entries@[b].space.0 by {
                        assert(self.entries@[a].space == old(self)@.entries[a].space);
                        assert(self.entries@[b].space == old(self)@.entries[b].space);
                    }
                }
            }
        }
    }

    /// The dirty entries for the recovery journal, in space order; during a gesture its space
    /// is recorded with the profile before the gesture.
    pub fn journal(&self) -> (snapshots: Vec<Snapshot>)
        ensures
            snapshots@ == journal_of(self@.entries, self@.gesture),
    {
        let mut out: Vec<Snapshot> = Vec::new();
        let mut i: usize = 0;
        while i < self.entries.len()
            invariant
                i <= self.entries@.len(),
                out@ == journal_of(self.entries@.take(i as int), self.gesture),
            decreases self.entries@.len() - i,
        {
            proof {
                assert(self.entries@.take(i + 1).drop_last() =~= self.entries@.take(i as int));
            }
            let mut entry = self.entries[i];
            if let Some((space, before)) = self.gesture {
                if space == entry.space {
                    entry = Snapshot { current: before, ..entry };
                }
            }
            if entry.base != entry.current {
                out.push(entry);
            }
            i = i + 1;
        }
        proof {
            assert(self.entries@.take(i as int) =~= self.entries@);
        }
        out
    }

    /// Restores up to 32 recovery snapshots: each valid one replaces a clean or missing entry.
    /// Returns how many were restored; the revision advances in any case.
    pub fn restore(&mut self, snapshots: Vec<Snapshot>) -> (count: usize)
        requires
            old(self).wf(),
        ensures
            final(self).wf(),
            ({
                let taken = if snapshots@.len() > 32 { snapshots@.take(32) } else { snapshots@ };
                let (entries, n) = restore_all(old(self)@.entries, taken);
                &&& count == n
                &&& final(self)@ == (AtmosphereView {
                    entries,
                    revision: next_revision(old(self)@.revision),
                    ..old(self)@
                })
            }),
    {
        let ghost start = self@;
        let limit: usize = if snapshots.len() > 32 { 32 } else { snapshots.len() };
        let ghost taken = if snapshots@.len() > 32 { snapshots@.take(32) } else { snapshots@ };
        proof {
            assert(taken =~= snapshots@.take(limit as int));
        }
        let mut count: usize = 0;
        let mut i: usize = 0;
        while i < limit
            invariant
                i <= limit <= snapshots@.len(),
                limit <= 32,
                taken == snapshots@.take(limit as int),
                (self.entries@, count as nat) == restore_all(start.entries, taken.take(i as int)),
                count <= i,
                entries_sorted(self.entries@),
                start.gesture is Some ==> has_space(self.entries@, (start.gesture->0).0),
                self.gesture == start.gesture,
                self.revision == start.revision,
                self.saving == start.saving,
                crate::project_store::opt_text(self.error) == start.error,
                self.conflict == start.conflict,
            decreases limit - i,
        {
            proof {
                assert(taken.take(i + 1).drop_last() =~= taken.take(i as int));
                assert(taken.take(i + 1).last() == snapshots@[i as int]);
            }
            let snapshot = snapshots[i];
            if snapshot.base.valid && snapshot.current.valid && snapshot.revision >= 1 {
                let replaceable = match find_space(&self.entries, snapshot.space) {
                    Some(k) => self.entries[k].base == self.entries[k].current,
                    None => true,
                };
                if replaceable {
                    proof {
                        lemma_put_entry(self.entries@, snapshot);
                    }
                    put(&mut self.entries, snapshot);
                    count = count + 1;
                }
            }
            i = i + 1;
        }
        proof {
            assert(taken.take(i as int) =~= taken);
        }
        self.revision = self.revision.wrapping_add(1);
        count
    }

    /// Queues the dirty entries as one atmosphere save; refused while blocked.
    pub fn queue_save(&mut self, store: &mut crate::project_store::ProjectEditorStore) -> (queued: bool)
        requires
            old(self).wf(),
        ensures
            final(self).wf(),
            spec_blocked(old(self)@) ==> !queued && final(self)@ == old(self)@ && final(store)@ == old(store)@,
            !spec_blocked(old(self)@) ==> {
                &&& queued == (writes_of(old(self)@.entries).len() > 0
                    && crate::project_store::can_queue_save(old(store)@))
                &&& final(self)@ == (AtmosphereView {
                    saving: if queued { Some(final(store)@.next_save_request_id) } else { None },
                    error: None,
                    ..old(self)@
                })
                &&& queued ==> final(store)@ == (crate::project_store::ProjectStoreView {
                    next_save_request_id: crate::project_store::next_id(old(store)@.next_save_request_id),
                    pending_atmosphere_save: Some((
                        crate::project_store::next_id(old(store)@.next_save_request_id),
                        writes_of(old(self)@.entries),
                    )),
                    ..old(store)@
                })
                &&& !queued ==> final(store)@ == old(store)@
            },
    {
        if self.blocked() {
            return false;
        }
        let mut writes: Vec<crate::project_store::AtmosphereWrite> = Vec::new();
        let mut i: usize = 0;
        while i < self.entries.len()
            invariant
                i <= self.entries@.len(),
                writes@ == writes_of(self.entries@.take(i as int)),
            decreases self.entries@.len() - i,
        {
            proof {
                assert(self.entries@.take(i + 1).drop_last() =~= self.entries@.take(i as int));
            }
            let e = self.entries[i];
            if e.base != e.current {
                writes.push(crate::project_store::AtmosphereWrite {
                    space: e.space,
                    expected_revision: e.revision,
                    profile: e.current,
                });
            }
            i = i + 1;
        }
        proof {
            assert(self.entries@.take(i as int) =~= self.entries@);
        }
        self.saving = store.queue_atmospheres(writes);
        self.error = None;
        self.saving.is_some()
    }

    /// Receives the answer to the save in flight. A commit advances the saved revisions and
    /// profiles; a conflict keeps the local profiles and waits for a resolution.
    pub fn complete(&mut self, result: Result<AtmosphereWriteResult, String>) -> (committed: bool)
        requires
            old(self).wf(),
        ensures
            final(self).wf(),
            match result {
                Ok(AtmosphereWriteResult::Committed(records)) => committed && final(self)@ == (AtmosphereView {
                    entries: commit_all(old(self)@.entries, records@),
                    saving: None,
                    revision: next_revision(old(self)@.revision),
                    error: None,
                    ..old(self)@
                }),
                Ok(AtmosphereWriteResult::Conflict { space, revision, actual }) => !committed && final(self)@
                    == (AtmosphereView {
                    saving: None,
                    conflict: Some((space, revision, actual)),
                    error: Some(conflict_message()),
                    ..old(self)@
                }),
                Err(e) => !committed && final(self)@ == (AtmosphereView {
                    saving: None,
                    error: Some(e@),
                    ..old(self)@
                }),
            },
    {
        self.saving = None;
        match result {
            Ok(AtmosphereWriteResult::Committed(records)) => {
                let ghost start = self.entries@;
                let ghost sv = self@;
                let mut i: usize = 0;
                while i < records.len()
                    invariant
                        i <= records@.len(),
                        self.revision == sv.revision,
                        self.saving == sv.saving,
                        crate::project_store::opt_text(self.error) == sv.error,
                        self.conflict == sv.conflict,
                        self.gesture == sv.gesture,
                        sv.entries == start,
                        sv.gesture is Some ==> has_space(start, (sv.gesture->0).0),
                        self.entries@ == commit_all(start, records@.take(i as int)),
                        entries_sorted(self.entries@),
                        forall|x: WorldSpaceId| has_space(self.entries@, x) <==> has_space(start, x),
                    decreases records@.len() - i,
                {
                    proof {
                        assert(records@.take(i + 1).drop_last() =~= records@.take(i as int));
                    }
                    let (space, revision, profile) = records[i];
                    if let Some(k) = find_space(&self.entries, space) {
                        let entry = self.entries[k];
                        let ghost before = self.entries@;
                        self.entries.set(k, Snapshot { revision, base: profile, ..entry });
                        proof {
                            assert forall|a: int, b: int| 0 <= a < b < self.entries@.len() implies self.entries@[a].space.0
                                < self.entries@[b].space.0 by {
                                assert(self.entries@[a].space == before[a].space);
                                assert(self.entries@[b].space == before[b].space);
                            }
                            assert forall|x: WorldSpaceId| has_space(self.entries@, x) <==> has_space(before, x) by {
                                if has_space(self.entries@, x) {
                                    let j = choose|j: int| 0 <= j < self.entries@.len() && self.entries@[j].space == x;
                                    assert(before[j].space == x);
                                }
                                if has_space(before, x) {
                                    let j = choose|j: int| 0 <= j < before.len() && before[j].space == x;
                                    assert(self.entries@[j].space == x);
                                }
                            }
                        }
                    }
                    i = i + 1;
                }
                proof {
                    assert(records@.take(i as int) =~= records@);
                }
                self.revision = self.revision.wrapping_add(1);
                self.error = None;
                true
            },
            Ok(AtmosphereWriteResult::Conflict { space, revision, actual }) => {
                self.conflict = Some((space, revision, actual));
                self.error = Some(
                    String::from_str("Atmosphere changed in the project database. Resolve the conflict below."),
                );
                false
            },
            Err(error) => {
                self.error = Some(error);
                false
            },
        }
    }

    /// Resolves the pending conflict: the database revision and profile become the saved state,
    /// and the local profile is kept or replaced by the database profile.
    pub fn resolve_conflict(&mut self, keep_local: bool)
        requires
            old(self).wf(),
        ensures
            final(self).wf(),
            match old(self)@.conflict {
                None => final(self)@ == old(self)@,
                Some((id, revision, actual)) => final(self)@ == (AtmosphereView {
                    entries: if has_space(old(self)@.entries, id) {
                        let i = space_index(old(self)@.entries, id);
                        let e = old(self)@.entries[i];
                        old(self)@.entries.update(
                            i,
                            Snapshot {
                                revision,
                                base: actual,
                                current: if keep_local { e.current } else { actual },
                                ..e
                            },
                        )
                    } else {
                        old(self)@.entries
                    },
                    conflict: None,
                    revision: next_revision(old(self)@.revision),
                    error: None,
                    ..old(self)@
                }),
            },
    {
        if let Some((id, revision, actual)) = self.conflict {
            self.conflict = None;
            if let Some(i) = find_space(&self.entries, id) {
                let e = self.entries[i];
                let current = if keep_local { e.current } else { actual };
                self.entries.set(i, Snapshot { revision, base: actual, current, ..e });
                proof {
                    assert forall|a: int, b: int| 0 <= a < b < self.entries@.len() implies self.entries@[a].space.0
                        < self.entries@[b].space.0 by {
                        assert(self.entries@[a].space == old(self)@.entries[a].space);
                        assert(self.entries@[b].space == old(self)@.entries[b].space);
                    }
                    if self.gesture is Some {
                        let g = (self.gesture->0).0;
                        let k = space_index(old(self)@.entries, g);
                        assert(self.entries@[k].space == g);
                    }
                }
            }
            self.revision = self.revision.wrapping_add(1);
            self.error = None;
        }
    }
}

} // verus!
