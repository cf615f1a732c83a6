//! Bounded, revision-aware coordination of editor-derived work.
//!
//! Requests are keyed by product and scope. A request for a revision that is already
//! accepted is satisfied at once; a newer revision of a pending key replaces the pending
//! revision; a newer revision of a running key cancels the running job. A completion is
//! accepted only while it still carries the latest requested revision of its key.

use vstd::prelude::*;
use crate::assoc::{as_map, has_key, keys_unique};
use crate::world::{CellCoord, WorldSpaceId};

verus! {

/// Pending requests beyond this number are rejected.
pub const MAX_PENDING_DERIVED_JOBS: usize = 512;

/// At most this many jobs are leased at once.
pub const MAX_RUNNING_DERIVED_JOBS: usize = 4;

/// A product derived from editor source data.
#[derive(Clone, Copy, Debug, PartialEq, Eq, Hash, Structural)]
pub enum DerivedProduct {
    CookedObjectPage,
    TerrainPage,
    Collision,
    Navigation,
    Overview,
}

/// The source area that a derived job covers.
#[derive(Clone, Copy, Debug, PartialEq, Eq, Hash, Structural)]
pub enum DerivedJobScope {
    Cell { space: WorldSpaceId, cell: CellCoord },
    Region { space: WorldSpaceId, minimum: CellCoord, maximum: CellCoord },
}

/// Identity of one derived product of one scope.
#[derive(Clone, Copy, Debug, PartialEq, Eq, Hash, Structural)]
pub struct DerivedJobKey {
    pub product: DerivedProduct,
    pub scope: DerivedJobScope,
}

/// Identity of an editor tool that owns a set of derived requests.
#[derive(Clone, Copy, Debug, PartialEq, Eq, Hash, Structural)]
pub struct EditorToolId(pub u32);

/// A requested revision of one key.
#[derive(Clone, Copy, Debug, PartialEq, Eq, Structural)]
pub struct DerivedJobRequest {
    pub key: DerivedJobKey,
    pub input_revision: u64,
}

/// A leased job and whether a newer request has cancelled it.
#[derive(Clone, Copy, Debug, PartialEq, Eq, Structural)]
pub struct RunningDerivedJob {
    pub id: u64,
    pub request: DerivedJobRequest,
    pub cancelled: bool,
}

/// Work handed to an executor. `cancelled` records a cancellation that was found when the
/// lease was completed; while the job runs the scheduler holds it.
#[derive(Clone, Copy, Debug, PartialEq, Eq, Structural)]
pub struct DerivedJobLease {
    pub id: u64,
    pub key: DerivedJobKey,
    pub input_revision: u64,
    pub cancelled: bool,
}

/// What became of a completed lease.
#[derive(Clone, Copy, Debug, PartialEq, Eq, Structural)]
pub enum DerivedJobCompletion {
    Accepted,
    Stale,
    Unknown,
}

/// Whether the cell of the given space lies in the scope.
pub open spec fn spec_scope_contains(scope: DerivedJobScope, space: WorldSpaceId, cell: CellCoord) -> bool {
    match scope {
        DerivedJobScope::Cell { space: s, cell: c } => s == space && c == cell,
        DerivedJobScope::Region { space: s, minimum, maximum } => {
            &&& s == space
            &&& minimum.x <= cell.x <= maximum.x
            &&& minimum.z <= cell.z <= maximum.z
        },
    }
}

/// Whether the cell of the given space lies in the scope.
pub fn scope_contains(scope: DerivedJobScope, space: WorldSpaceId, cell: CellCoord) -> (r: bool)
    ensures
        r == spec_scope_contains(scope, space, cell),
{
    match scope {
        DerivedJobScope::Cell { space: s, cell: c } => s == space && c == cell,
        DerivedJobScope::Region { space: s, minimum, maximum } => {
            s == space && cell.x >= minimum.x && cell.x <= maximum.x && cell.z >= minimum.z
                && cell.z <= maximum.z
        },
    }
}

/// The abstract state of a scheduler.
pub struct SchedulerView {
    pub pending: Seq<DerivedJobRequest>,
    pub running: Seq<RunningDerivedJob>,
    pub latest_requested: Map<DerivedJobKey, u64>,
    pub accepted: Map<DerivedJobKey, u64>,
    pub tool_keys: Map<EditorToolId, Seq<DerivedJobKey>>,
    pub next_job_id: u64,
    pub maximum_pending: nat,
    pub maximum_running: nat,
    pub coalesced: u64,
    pub cancelled: u64,
    pub stale_results: u64,
    pub capacity_rejections: u64,
}

/// Adds to a counter, stopping at its largest value.
pub open spec fn saturating(counter: u64, amount: int) -> u64 {
    if counter + amount > u64::MAX {
        u64::MAX
    } else {
        (counter + amount) as u64
    }
}

/// Whether some pending request has the key.
pub open spec fn pending_has(pending: Seq<DerivedJobRequest>, key: DerivedJobKey) -> bool {
    exists|i: int| 0 <= i < pending.len() && pending[i].key == key
}

/// The position of the pending request with the key.
pub open spec fn pending_index(pending: Seq<DerivedJobRequest>, key: DerivedJobKey) -> int {
    choose|i: int| 0 <= i < pending.len() && pending[i].key == key
}

/// Whether some running job has the key.
pub open spec fn running_has(running: Seq<RunningDerivedJob>, key: DerivedJobKey) -> bool {
    exists|i: int| 0 <= i < running.len() && running[i].request.key == key
}

/// The position of the first running job with the key.
pub open spec fn first_running_index(running: Seq<RunningDerivedJob>, key: DerivedJobKey) -> int {
    choose|i: int|
        0 <= i < running.len() && running[i].request.key == key && forall|j: int|
            0 <= j < i ==> running[j].request.key != key
}

/// The position of the running job with the lease identity.
pub open spec fn running_id_index(running: Seq<RunningDerivedJob>, id: u64) -> int {
    choose|i: int| 0 <= i < running.len() && running[i].id == id
}

/// Whether some running job has the lease identity.
pub open spec fn running_has_id(running: Seq<RunningDerivedJob>, id: u64) -> bool {
    exists|i: int| 0 <= i < running.len() && running[i].id == id
}

/// The latest requested revision of a key, or zero.
pub open spec fn latest_or_zero(latest: Map<DerivedJobKey, u64>, key: DerivedJobKey) -> u64 {
    if latest.contains_key(key) {
        latest[key]
    } else {
        0
    }
}

/// Whether a request of the revision cancels the first running job of its key.
pub open spec fn request_cancels(running: Seq<RunningDerivedJob>, key: DerivedJobKey, revision: u64) -> bool {
    running_has(running, key) && {
        let j = first_running_index(running, key);
        revision > running[j].request.input_revision && !running[j].cancelled
    }
}

/// A newer revision replaces the revision of the pending request with the same key.
#[verifier::opaque]
pub open spec fn coalesce_model(s: SchedulerView, key: DerivedJobKey, revision: u64) -> SchedulerView {
    SchedulerView {
        pending: s.pending.update(
            pending_index(s.pending, key),
            DerivedJobRequest { key, input_revision: revision },
        ),
        latest_requested: s.latest_requested.insert(key, revision),
        coalesced: saturating(s.coalesced, 1),
        ..s
    }
}

/// A request of a key with nothing pending is queued; it cancels older running work of the key.
#[verifier::opaque]
pub open spec fn enqueue_model(s: SchedulerView, key: DerivedJobKey, revision: u64) -> SchedulerView {
    let cancels = request_cancels(s.running, key, revision);
    let running = if cancels {
        let j = first_running_index(s.running, key);
        s.running.update(j, RunningDerivedJob { cancelled: true, ..s.running[j] })
    } else {
        s.running
    };
    let previous = latest_or_zero(s.latest_requested, key);
    SchedulerView {
        pending: s.pending.push(DerivedJobRequest { key, input_revision: revision }),
        running,
        latest_requested: s.latest_requested.insert(
            key,
            if previous >= revision { previous } else { revision },
        ),
        cancelled: if cancels { saturating(s.cancelled, 1) } else { s.cancelled },
        ..s
    }
}

/// One request: what `request` does to the state, and whether the key is now served.
pub open spec fn request_model(s: SchedulerView, key: DerivedJobKey, revision: u64) -> (SchedulerView, bool) {
    if s.accepted.contains_key(key) && s.accepted[key] >= revision {
        (s, true)
    } else if pending_has(s.pending, key) {
        if revision > s.pending[pending_index(s.pending, key)].input_revision {
            (coalesce_model(s, key, revision), true)
        } else {
            (s, true)
        }
    } else if s.pending.len() >= s.maximum_pending {
        (SchedulerView { capacity_rejections: saturating(s.capacity_rejections, 1), ..s }, false)
    } else {
        (enqueue_model(s, key, revision), true)
    }
}

/// The pending requests whose key differs from the given key, in order.
pub open spec fn pending_without(pending: Seq<DerivedJobRequest>, key: DerivedJobKey) -> Seq<DerivedJobRequest>
    decreases pending.len(),
{
    if pending.len() == 0 {
        pending
    } else {
        let rest = pending_without(pending.drop_last(), key);
        if pending.last().key == key {
            rest
        } else {
            rest.push(pending.last())
        }
    }
}

/// The running jobs, with every job of the key marked cancelled.
pub open spec fn running_cancelled(running: Seq<RunningDerivedJob>, key: DerivedJobKey) -> Seq<RunningDerivedJob> {
    running.map_values(
        |job: RunningDerivedJob|
            if job.request.key == key {
                RunningDerivedJob { cancelled: true, ..job }
            } else {
                job
            },
    )
}

/// How many running jobs of the key were not yet cancelled.
pub open spec fn newly_cancelled(running: Seq<RunningDerivedJob>, key: DerivedJobKey) -> nat
    decreases running.len(),
{
    if running.len() == 0 {
        0
    } else {
        newly_cancelled(running.drop_last(), key) + if running.last().request.key == key
            && !running.last().cancelled {
            1nat
        } else {
            0nat
        }
    }
}

/// What cancelling every request and job of a key does to the state.
pub open spec fn cancel_model(s: SchedulerView, key: DerivedJobKey) -> SchedulerView {
    let pending = pending_without(s.pending, key);
    SchedulerView {
        pending,
        running: running_cancelled(s.running, key),
        latest_requested: s.latest_requested.remove(key),
        cancelled: saturating(
            s.cancelled,
            (s.pending.len() - pending.len()) + newly_cancelled(s.running, key),
        ),
        ..s
    }
}

/// The lease identity that follows the given one: zero is never used.
pub open spec fn next_lease_id(id: u64) -> u64 {
    if id == u64::MAX {
        1
    } else {
        (id + 1) as u64
    }
}

/// The running jobs with a job added, replacing a job of the same identity.
pub open spec fn running_insert(running: Seq<RunningDerivedJob>, job: RunningDerivedJob) -> Seq<RunningDerivedJob> {
    if running_has_id(running, job.id) {
        running.update(running_id_index(running, job.id), job)
    } else {
        running.push(job)
    }
}

/// What leasing does to the state, and the lease handed out.
pub open spec fn lease_model(s: SchedulerView) -> (SchedulerView, Option<DerivedJobLease>) {
    if s.running.len() >= s.maximum_running || s.pending.len() == 0 {
        (s, None)
    } else {
        let request = s.pending[0];
        let id = next_lease_id(s.next_job_id);
        (
            SchedulerView {
                pending: s.pending.skip(1),
                running: running_insert(
                    s.running,
                    RunningDerivedJob { id, request, cancelled: false },
                ),
                next_job_id: id,
                ..s
            },
            Some(DerivedJobLease { id, key: request.key, input_revision: request.input_revision, cancelled: false }),
        )
    }
}

/// Whether the lease's job is cancelled: as recorded on the lease at its completion, or, while
/// it runs, as the scheduler holds it.
pub open spec fn lease_cancelled(s: SchedulerView, lease: DerivedJobLease) -> bool {
    lease.cancelled || (running_has_id(s.running, lease.id) && s.running[running_id_index(
        s.running,
        lease.id,
    )].cancelled)
}

/// The lease after its completion: it keeps the cancellation its job had.
pub open spec fn completed_lease(s: SchedulerView, lease: DerivedJobLease) -> DerivedJobLease {
    DerivedJobLease { cancelled: lease_cancelled(s, lease), ..lease }
}

/// What completing a lease does to the state, and the verdict.
pub open spec fn complete_model(s: SchedulerView, lease_id: u64) -> (SchedulerView, DerivedJobCompletion) {
    if !running_has_id(s.running, lease_id) {
        (s, DerivedJobCompletion::Unknown)
    } else {
        let i = running_id_index(s.running, lease_id);
        let job = s.running[i];
        let running = s.running.remove(i);
        let current = s.latest_requested.contains_key(job.request.key)
            && s.latest_requested[job.request.key] == job.request.input_revision;
        if job.cancelled || !current {
            (
                SchedulerView { running, stale_results: saturating(s.stale_results, 1), ..s },
                DerivedJobCompletion::Stale,
            )
        } else {
            (
                SchedulerView {
                    running,
                    accepted: s.accepted.insert(job.request.key, job.request.input_revision),
                    ..s
                },
                DerivedJobCompletion::Accepted,
            )
        }
    }
}

/// The requests with one entry per key: the last one given for it.
pub open spec fn last_per_key(requests: Seq<(DerivedJobKey, u64)>) -> Seq<(DerivedJobKey, u64)>
    decreases requests.len(),
{
    if requests.len() == 0 {
        requests
    } else {
        let rest = last_per_key(requests.drop_last());
        let key = requests.last().0;
        let without = if has_key(rest, key) {
            rest.remove(choose|i: int| 0 <= i < rest.len() && rest[i].0 == key)
        } else {
            rest
        };
        without.push(requests.last())
    }
}

/// The keys, in order, that the requests do not name.
pub open spec fn keys_not_in(keys: Seq<DerivedJobKey>, requests: Seq<(DerivedJobKey, u64)>) -> Seq<DerivedJobKey>
    decreases keys.len(),
{
    if keys.len() == 0 {
        keys
    } else if has_key(requests, keys.last()) {
        keys_not_in(keys.drop_last(), requests)
    } else {
        keys_not_in(keys.drop_last(), requests).push(keys.last())
    }
}

/// Cancels each key in turn.
pub open spec fn cancel_all(s: SchedulerView, keys: Seq<DerivedJobKey>) -> SchedulerView
    decreases keys.len(),
{
    if keys.len() == 0 {
        s
    } else {
        cancel_model(cancel_all(s, keys.drop_last()), keys.last())
    }
}

/// Requests each key in turn, collecting the keys that are served.
pub open spec fn request_all(s: SchedulerView, requests: Seq<(DerivedJobKey, u64)>) -> (SchedulerView, Seq<DerivedJobKey>)
    decreases requests.len(),
{
    if requests.len() == 0 {
        (s, Seq::empty())
    } else {
        let (s1, served) = request_all(s, requests.drop_last());
        let (s2, ok) = request_model(s1, requests.last().0, requests.last().1);
        (s2, if ok { served.push(requests.last().0) } else { served })
    }
}

/// What replacing the demand of a tool does to the state.
pub open spec fn replace_model(s: SchedulerView, tool: EditorToolId, requests: Seq<(DerivedJobKey, u64)>) -> SchedulerView {
    let previous = if s.tool_keys.contains_key(tool) { s.tool_keys[tool] } else { Seq::empty() };
    let desired = last_per_key(requests);
    let obsolete = keys_not_in(previous, desired);
    let s1 = cancel_all(SchedulerView { tool_keys: s.tool_keys.remove(tool), ..s }, obsolete);
    let (s2, served) = request_all(s1, desired);
    SchedulerView {
        tool_keys: if served.len() > 0 { s2.tool_keys.insert(tool, served) } else { s2.tool_keys },
        ..s2
    }
}

/// No two running jobs share a lease identity.
#[verifier::opaque]
pub open spec fn running_ids_distinct(running: Seq<RunningDerivedJob>) -> bool {
    forall|i: int, j: int|
        0 <= i < running.len() && 0 <= j < running.len() && i != j ==> running[i].id
            != running[j].id
}

/// No two pending requests share a key.
#[verifier::opaque]
pub open spec fn pending_keys_distinct(pending: Seq<DerivedJobRequest>) -> bool {
    forall|i: int, j: int|
        0 <= i < pending.len() && 0 <= j < pending.len() && i != j ==> pending[i].key
            != pending[j].key
}

/// The state invariant: bounded queues, one pending request per key, distinct leases.
pub open spec fn scheduler_inv(s: SchedulerView) -> bool {
    &&& s.pending.len() <= s.maximum_pending
    &&& s.running.len() <= s.maximum_running
    &&& pending_keys_distinct(s.pending)
    &&& running_ids_distinct(s.running)
}

pub proof fn lemma_ids_same(s: Seq<RunningDerivedJob>, t: Seq<RunningDerivedJob>)
    requires
        running_ids_distinct(s),
        s.len() == t.len(),
        forall|i: int| 0 <= i < s.len() ==> #[trigger] s[i].id == t[i].id,
    ensures
        running_ids_distinct(t),
{
    reveal(running_ids_distinct);
    assert forall|i: int, j: int| 0 <= i < t.len() && 0 <= j < t.len() && i != j implies t[i].id
        != t[j].id by {
        assert(s[i].id == t[i].id);
        assert(s[j].id == t[j].id);
    }
}

pub proof fn lemma_ids_remove(s: Seq<RunningDerivedJob>, k: int)
    requires
        running_ids_distinct(s),
        0 <= k < s.len(),
    ensures
        running_ids_distinct(s.remove(k)),
        !running_has_id(s.remove(k), s[k].id),
{
    reveal(running_ids_distinct);
    let r = s.remove(k);
    assert forall|i: int, j: int| 0 <= i < r.len() && 0 <= j < r.len() && i != j implies r[i].id
        != r[j].id by {
        let si = if i < k { i } else { i + 1 };
        let sj = if j < k { j } else { j + 1 };
        assert(r[i] == s[si]);
        assert(r[j] == s[sj]);
    }
    if running_has_id(r, s[k].id) {
        let i = choose|i: int| 0 <= i < r.len() && r[i].id == s[k].id;
        let si = if i < k { i } else { i + 1 };
        assert(r[i] == s[si]);
    }
}

pub proof fn lemma_ids_push(s: Seq<RunningDerivedJob>, job: RunningDerivedJob)
    requires
        running_ids_distinct(s),
        !running_has_id(s, job.id),
    ensures
        running_ids_distinct(s.push(job)),
{
    reveal(running_ids_distinct);
    let r = s.push(job);
    assert forall|i: int, j: int| 0 <= i < r.len() && 0 <= j < r.len() && i != j implies r[i].id
        != r[j].id by {
        if i < s.len() && j < s.len() {
        } else if i < s.len() {
            assert(s[i].id != job.id);
        } else {
            assert(s[j].id != job.id);
        }
    }
}

pub proof fn lemma_ids_unique_index(s: Seq<RunningDerivedJob>, k: int)
    requires
        running_ids_distinct(s),
        0 <= k < s.len(),
    ensures
        running_has_id(s, s[k].id),
        running_id_index(s, s[k].id) == k,
{
    reveal(running_ids_distinct);
    assert(running_has_id(s, s[k].id));
    let c = running_id_index(s, s[k].id);
    if c != k {
        assert(s[c].id != s[k].id);
    }
}

pub proof fn lemma_keys_same(s: Seq<DerivedJobRequest>, t: Seq<DerivedJobRequest>)
    requires
        pending_keys_distinct(s),
        s.len() == t.len(),
        forall|i: int| 0 <= i < s.len() ==> #[trigger] s[i].key == t[i].key,
    ensures
        pending_keys_distinct(t),
{
    reveal(pending_keys_distinct);
    assert forall|i: int, j: int| 0 <= i < t.len() && 0 <= j < t.len() && i != j implies t[i].key
        != t[j].key by {
        assert(s[i].key == t[i].key);
        assert(s[j].key == t[j].key);
    }
}

pub proof fn lemma_keys_push(s: Seq<DerivedJobRequest>, request: DerivedJobRequest)
    requires
        pending_keys_distinct(s),
        !pending_has(s, request.key),
    ensures
        pending_keys_distinct(s.push(request)),
{
    reveal(pending_keys_distinct);
    let r = s.push(request);
    assert forall|i: int, j: int| 0 <= i < r.len() && 0 <= j < r.len() && i != j implies r[i].key
        != r[j].key by {
        if i < s.len() && j < s.len() {
        } else if i < s.len() {
            assert(s[i].key != request.key);
        } else {
            assert(s[j].key != request.key);
        }
    }
}

pub proof fn lemma_keys_skip(s: Seq<DerivedJobRequest>)
    requires
        pending_keys_distinct(s),
        s.len() > 0,
    ensures
        pending_keys_distinct(s.skip(1)),
{
    reveal(pending_keys_distinct);
    let r = s.skip(1);
    assert forall|i: int, j: int| 0 <= i < r.len() && 0 <= j < r.len() && i != j implies r[i].key
        != r[j].key by {
        assert(r[i] == s[i + 1]);
        assert(r[j] == s[j + 1]);
    }
}

pub proof fn lemma_keys_unique_index(s: Seq<DerivedJobRequest>, k: int)
    requires
        pending_keys_distinct(s),
        0 <= k < s.len(),
    ensures
        pending_has(s, s[k].key),
        pending_index(s, s[k].key) == k,
{
    reveal(pending_keys_distinct);
    assert(pending_has(s, s[k].key));
    let c = pending_index(s, s[k].key);
    if c != k {
        assert(s[c].key != s[k].key);
    }
}

/// The position of the key in an association list keyed by job keys.
pub fn find_key<V>(entries: &Vec<(DerivedJobKey, V)>, key: DerivedJobKey) -> (r: Option<usize>)
    ensures
        match r {
            Some(i) => i < entries@.len() && entries@[i as int].0 == key,
            None => !has_key(entries@, key),
        },
{
    let mut i: usize = 0;
    while i < entries.len()
        invariant
            i <= entries@.len(),
            forall|j: int| 0 <= j < i ==> entries@[j].0 != key,
        decreases entries@.len() - i,
    {
        if entries[i].0 == key {
            return Some(i);
        }
        i = i + 1;
    }
    None
}

/// Sets the value of a key in a revision list.
pub fn set_revision(entries: &mut Vec<(DerivedJobKey, u64)>, key: DerivedJobKey, value: u64)
    requires
        keys_unique(old(entries)@),
    ensures
        keys_unique(final(entries)@),
        as_map(final(entries)@) == as_map(old(entries)@).insert(key, value),
{
    match find_key(entries, key) {
        Some(i) => {
            proof {
                crate::assoc::lemma_as_map_update(entries@, i as int, value);
            }
            entries.set(i, (key, value));
        },
        None => {
            proof {
                crate::assoc::lemma_as_map_push(entries@, key, value);
            }
            entries.push((key, value));
        },
    }
}

/// Removes a key from an association list keyed by job keys.
pub fn remove_key<V>(entries: &mut Vec<(DerivedJobKey, V)>, key: DerivedJobKey)
    requires
        keys_unique(old(entries)@),
    ensures
        keys_unique(final(entries)@),
        as_map(final(entries)@) == as_map(old(entries)@).remove(key),
{
    match find_key(entries, key) {
        Some(i) => {
            proof {
                crate::assoc::lemma_as_map_remove(entries@, i as int);
            }
            entries.remove(i);
        },
        None => {
            proof {
                crate::assoc::lemma_as_map_absent(entries@, key);
                assert(as_map(entries@).remove(key) == as_map(entries@));
            }
        },
    }
}

/// Looks up the value of a key in a revision list.
pub fn get_revision(entries: &Vec<(DerivedJobKey, u64)>, key: DerivedJobKey) -> (r: Option<u64>)
    requires
        keys_unique(entries@),
    ensures
        r == (if as_map(entries@).contains_key(key) {
            Some(as_map(entries@)[key])
        } else {
            None::<u64>
        }),
{
    match find_key(entries, key) {
        Some(i) => {
            proof {
                crate::assoc::lemma_as_map_at(entries@, i as int);
            }
            Some(entries[i].1)
        },
        None => {
            proof {
                crate::assoc::lemma_as_map_absent(entries@, key);
            }
            None
        },
    }
}

/// Sets the value of a key in an association list keyed by job keys.
pub fn set_entry<V>(entries: &mut Vec<(DerivedJobKey, V)>, key: DerivedJobKey, value: V)
    requires
        keys_unique(old(entries)@),
    ensures
        keys_unique(final(entries)@),
        as_map(final(entries)@) == as_map(old(entries)@).insert(key, value),
{
    match find_key(entries, key) {
        Some(i) => {
            proof {
                crate::assoc::lemma_as_map_update(entries@, i as int, value);
            }
            entries.set(i, (key, value));
        },
        None => {
            proof {
                crate::assoc::lemma_as_map_push(entries@, key, value);
            }
            entries.push((key, value));
        },
    }
}

/// Completing a lease keeps whether it is cancelled: a cancelled lease stays cancelled once its
/// job has left the running list, and a lease that was not cancelled is not cancelled by
/// completing it.
pub proof fn law_cancellation_survives_completion(s: SchedulerView, lease: DerivedJobLease)
    requires
        scheduler_inv(s),
    ensures
        lease_cancelled(complete_model(s, lease.id).0, completed_lease(s, lease)) == lease_cancelled(s, lease),
{
    if running_has_id(s.running, lease.id) {
        let i = running_id_index(s.running, lease.id);
        lemma_ids_remove(s.running, i);
    }
}

/// A request newer than what was accepted for its key is never dropped as served: afterwards a
/// request of the key is pending at that revision or a newer one, unless the pending queue is
/// full (and nothing of the key is pending), in which case it is refused and counted.
pub proof fn law_newer_revision_is_pending(s: SchedulerView, key: DerivedJobKey, revision: u64)
    requires
        !s.accepted.contains_key(key) || s.accepted[key] < revision,
    ensures
        request_model(s, key, revision).1 ==> exists|i: int|
            0 <= i < request_model(s, key, revision).0.pending.len() && (#[trigger] request_model(
                s,
                key,
                revision,
            ).0.pending[i]).key == key && request_model(s, key, revision).0.pending[i].input_revision >= revision,
        !request_model(s, key, revision).1 <==> (!pending_has(s.pending, key) && s.pending.len()
            >= s.maximum_pending),
{
    let (t, served) = request_model(s, key, revision);
    if pending_has(s.pending, key) {
        let i = pending_index(s.pending, key);
        assert(0 <= i < s.pending.len() && s.pending[i].key == key);
        if revision > s.pending[i].input_revision {
            reveal(coalesce_model);
            assert(t.pending[i].key == key && t.pending[i].input_revision == revision);
        } else {
            assert(t.pending[i].key == key && t.pending[i].input_revision >= revision);
        }
    } else if s.pending.len() < s.maximum_pending {
        reveal(enqueue_model);
        let n = s.pending.len() as int;
        assert(t.pending[n] == DerivedJobRequest { key, input_revision: revision });
    }
}

} // verus!
