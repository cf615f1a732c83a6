//! The derived-job scheduler: bounded pending and running queues over revisioned keys.

use vstd::prelude::*;
use crate::assoc::{as_map, has_key, keys_unique};
use crate::jobs::{
    cancel_all, cancel_model, coalesce_model, keys_not_in, last_per_key, replace_model, request_all, complete_model, enqueue_model, find_key, first_running_index, get_revision, lease_model,
    newly_cancelled, pending_has, request_cancels, pending_keys_distinct, running_ids_distinct,
    lemma_ids_same, lemma_ids_remove, lemma_ids_push, lemma_ids_unique_index, lemma_keys_same,
    lemma_keys_push, lemma_keys_skip, lemma_keys_unique_index, pending_index, pending_without, remove_key, request_model,
    completed_lease, lease_cancelled, running_cancelled, running_has, running_has_id, running_id_index, saturating, scheduler_inv,
    set_revision, DerivedJobCompletion, DerivedJobKey, DerivedJobLease, DerivedJobRequest,
    EditorToolId, RunningDerivedJob, SchedulerView, MAX_PENDING_DERIVED_JOBS,
    MAX_RUNNING_DERIVED_JOBS,
};

verus! {

/// Coordinates derived work: which revision of each key is wanted, queued, running and accepted.
pub struct DerivedJobScheduler {
    pending: Vec<DerivedJobRequest>,
    running: Vec<RunningDerivedJob>,
    latest_requested: Vec<(DerivedJobKey, u64)>,
    accepted: Vec<(DerivedJobKey, u64)>,
    tool_keys: Vec<(EditorToolId, Vec<DerivedJobKey>)>,
    next_job_id: u64,
    maximum_pending: usize,
    maximum_running: usize,
    coalesced: u64,
    cancelled: u64,
    stale_results: u64,
    capacity_rejections: u64,
}

/// The tool demand as a sequence of plain pairs.
pub open spec fn tool_pairs(v: Seq<(EditorToolId, Vec<DerivedJobKey>)>) -> Seq<(EditorToolId, Seq<DerivedJobKey>)> {
    v.map_values(|p: (EditorToolId, Vec<DerivedJobKey>)| (p.0, p.1@))
}

fn saturating_inc(counter: u64, amount: u64) -> (r: u64)
    ensures
        r == saturating(counter, amount as int),
{
    counter.saturating_add(amount)
}

impl View for DerivedJobScheduler {
    type V = SchedulerView;

    closed spec fn view(&self) -> SchedulerView {
        SchedulerView {
            pending: self.pending@,
            running: self.running@,
            latest_requested: as_map(self.latest_requested@),
            accepted: as_map(self.accepted@),
            tool_keys: as_map(tool_pairs(self.tool_keys@)),
            next_job_id: self.next_job_id,
            maximum_pending: self.maximum_pending as nat,
            maximum_running: self.maximum_running as nat,
            coalesced: self.coalesced,
            cancelled: self.cancelled,
            stale_results: self.stale_results,
            capacity_rejections: self.capacity_rejections,
        }
    }
}

impl DerivedJobScheduler {
    /// The internal invariant, which every operation keeps.
    pub closed spec fn wf(&self) -> bool {
        &&& keys_unique(self.latest_requested@)
        &&& keys_unique(self.accepted@)
        &&& keys_unique(tool_pairs(self.tool_keys@))
        &&& scheduler_inv(self@)
    }

    /// A scheduler with the default bounds.
    pub fn new() -> (s: Self)
        ensures
            s.wf(),
            s@.pending.len() == 0,
            s@.running.len() == 0,
            s@.latest_requested == Map::<DerivedJobKey, u64>::empty(),
            s@.accepted == Map::<DerivedJobKey, u64>::empty(),
            s@.tool_keys == Map::<EditorToolId, Seq<DerivedJobKey>>::empty(),
            s@.next_job_id == 0,
            s@.maximum_pending == MAX_PENDING_DERIVED_JOBS,
            s@.maximum_running == MAX_RUNNING_DERIVED_JOBS,
            s@.coalesced == 0 && s@.cancelled == 0 && s@.stale_results == 0
                && s@.capacity_rejections == 0,
    {
        Self::with_limits(MAX_PENDING_DERIVED_JOBS, MAX_RUNNING_DERIVED_JOBS)
    }

    /// A scheduler with the given queue bounds.
    pub fn with_limits(maximum_pending: usize, maximum_running: usize) -> (s: Self)
        ensures
            s.wf(),
            s@.pending.len() == 0,
            s@.running.len() == 0,
            s@.latest_requested == Map::<DerivedJobKey, u64>::empty(),
            s@.accepted == Map::<DerivedJobKey, u64>::empty(),
            s@.tool_keys == Map::<EditorToolId, Seq<DerivedJobKey>>::empty(),
            s@.next_job_id == 0,
            s@.maximum_pending == maximum_pending,
            s@.maximum_running == maximum_running,
            s@.coalesced == 0 && s@.cancelled == 0 && s@.stale_results == 0
                && s@.capacity_rejections == 0,
    {
        let s = DerivedJobScheduler {
            pending: Vec::new(),
            running: Vec::new(),
            latest_requested: Vec::new(),
            accepted: Vec::new(),
            tool_keys: Vec::new(),
            next_job_id: 0,
            maximum_pending,
            maximum_running,
            coalesced: 0,
            cancelled: 0,
            stale_results: 0,
            capacity_rejections: 0,
        };
        proof {
            reveal(pending_keys_distinct);
            reveal(running_ids_distinct);
            assert(tool_pairs(s.tool_keys@) =~= Seq::empty());
            assert(as_map(s.latest_requested@) =~= Map::empty());
            assert(as_map(s.accepted@) =~= Map::empty());
            assert(as_map(tool_pairs(s.tool_keys@)) =~= Map::empty());
        }
        s
    }

    fn find_pending(&self, key: DerivedJobKey) -> (r: Option<usize>)
        requires
            self.wf(),
        ensures
            match r {
                Some(i) => i < self@.pending.len() && self@.pending[i as int].key == key
                    && pending_index(self@.pending, key) == i && pending_has(self@.pending, key),
                None => !pending_has(self@.pending, key),
            },
    {
        let mut i: usize = 0;
        while i < self.pending.len()
            invariant
                i <= self.pending@.len(),
                self.wf(),
                forall|j: int| 0 <= j < i ==> self.pending@[j].key != key,
            decreases self.pending@.len() - i,
        {
            if self.pending[i].key == key {
                proof {
                    lemma_keys_unique_index(self@.pending, i as int);
                }
                return Some(i);
            }
            i = i + 1;
        }
        None
    }

    fn find_running_id(&self, id: u64) -> (r: Option<usize>)
        requires
            self.wf(),
        ensures
            match r {
                Some(i) => i < self@.running.len() && running_has_id(self@.running, id)
                    && running_id_index(self@.running, id) == i,
                None => !running_has_id(self@.running, id),
            },
    {
        let mut i: usize = 0;
        while i < self.running.len()
            invariant
                i <= self.running@.len(),
                self.wf(),
                forall|j: int| 0 <= j < i ==> self.running@[j].id != id,
            decreases self.running@.len() - i,
        {
            if self.running[i].id == id {
                proof {
                    lemma_ids_unique_index(self@.running, i as int);
                }
                return Some(i);
            }
            i = i + 1;
        }
        None
    }

    /// Requests a revision of a key; `false` when the pending queue is full.
    pub fn request(&mut self, key: DerivedJobKey, input_revision: u64) -> (ok: bool)
        requires
            old(self).wf(),
        ensures
            final(self).wf(),
            (final(self)@, ok) == request_model(old(self)@, key, input_revision),
    {
        let accepted = get_revision(&self.accepted, key);
        if let Some(revision) = accepted {
            if revision >= input_revision {
                return true;
            }
        }
        if let Some(i) = self.find_pending(key) {
            if input_revision > self.pending[i].input_revision {
                self.coalesce(i, key, input_revision);
            }
            return true;
        }
        if self.pending.len() >= self.maximum_pending {
            self.capacity_rejections = saturating_inc(self.capacity_rejections, 1);
            return false;
        }
        self.enqueue(key, input_revision);
        true
    }

    fn coalesce(&mut self, i: usize, key: DerivedJobKey, input_revision: u64)
        requires
            old(self).wf(),
            i < old(self)@.pending.len(),
            old(self)@.pending[i as int].key == key,
            pending_index(old(self)@.pending, key) == i,
        ensures
            final(self).wf(),
            final(self)@ == coalesce_model(old(self)@, key, input_revision),
    {
        let ghost before = self@;
        proof {
            reveal(coalesce_model);
        }
        self.pending.set(i, DerivedJobRequest { key, input_revision });
        set_revision(&mut self.latest_requested, key, input_revision);
        self.coalesced = saturating_inc(self.coalesced, 1);
        proof {
            lemma_keys_same(before.pending, self@.pending);
        }
    }

        fn enqueue(&mut self, key: DerivedJobKey, input_revision: u64)
        requires
            old(self).wf(),
            !pending_has(old(self)@.pending, key),
            old(self)@.pending.len() < old(self)@.maximum_pending,
        ensures
            final(self).wf(),
            final(self)@ == enqueue_model(old(self)@, key, input_revision),
    {
        let ghost before = self@;
        proof {
            reveal(enqueue_model);
        }
        let cancels = cancel_older_running(&mut self.running, key, input_revision);
        if cancels {
            self.cancelled = saturating_inc(self.cancelled, 1);
        }
        let previous = get_revision(&self.latest_requested, key);
        let latest = match previous {
            Some(p) => if p >= input_revision {
                p
            } else {
                input_revision
            },
            None => input_revision,
        };
        set_revision(&mut self.latest_requested, key, latest);
        self.pending.push(DerivedJobRequest { key, input_revision });
        proof {
            let m = enqueue_model(before, key, input_revision);
            assert(self@.pending =~= m.pending);
            assert(self@.latest_requested =~= m.latest_requested);
            lemma_keys_push(before.pending, DerivedJobRequest { key, input_revision });
        }
    }

    /// Cancels every pending request and running job of a key and forgets its latest revision.
    pub fn cancel_key(&mut self, key: DerivedJobKey)
        requires
            old(self).wf(),
        ensures
            final(self).wf(),
            final(self)@ == cancel_model(old(self)@, key),
    {
        let ghost before = self@;
        let kept = pending_other_keys(&self.pending, key);
        let removed = self.pending.len() - kept.len();
        self.pending = kept;
        let newly = mark_cancelled(&mut self.running, key);
        self.cancelled = saturating_inc(saturating_inc(self.cancelled, removed as u64), newly);
        remove_key(&mut self.latest_requested, key);
        proof {
            lemma_pending_without_distinct(before.pending, key);
            lemma_ids_same(before.running, self@.running);
            assert(self@ == cancel_model(before, key));
        }
    }

    /// Leases the oldest pending request when fewer than the maximum number of jobs run.
    pub fn lease_next(&mut self) -> (lease: Option<DerivedJobLease>)
        requires
            old(self).wf(),
        ensures
            final(self).wf(),
            (final(self)@, lease) == lease_model(old(self)@),
    {
        if self.running.len() >= self.maximum_running || self.pending.len() == 0 {
            return None;
        }
        let ghost before = self@;
        let request = self.pending.remove(0);
        proof {
            assert(self@.pending =~= before.pending.skip(1));
            lemma_keys_skip(before.pending);
        }
        let id = if self.next_job_id == u64::MAX {
            1
        } else {
            self.next_job_id + 1
        };
        self.next_job_id = id;
        let job = RunningDerivedJob { id, request, cancelled: false };
        match self.find_running_id(id) {
            Some(i) => {
                self.running.set(i, job);
                proof {
                    lemma_ids_same(before.running, self@.running);
                }
            },
            None => {
                proof {
                    lemma_ids_push(before.running, job);
                }
                self.running.push(job);
            },
        }
        Some(DerivedJobLease { id, key: request.key, input_revision: request.input_revision, cancelled: false })
    }

    /// Completes a lease: accepted only when it is running, not cancelled and still the latest
    /// requested revision of its key. The lease keeps the cancellation of its job, so that it
    /// stays observable once the job has left the running list.
    pub fn complete(&mut self, lease: &mut DerivedJobLease) -> (completion: DerivedJobCompletion)
        requires
            old(self).wf(),
        ensures
            final(self).wf(),
            (final(self)@, completion) == complete_model(old(self)@, old(lease).id),
            *final(lease) == completed_lease(old(self)@, *old(lease)),
    {
        let i = match self.find_running_id(lease.id) {
            Some(i) => i,
            None => return DerivedJobCompletion::Unknown,
        };
        let ghost before = self@;
        let job = self.running.remove(i);
        proof {
            lemma_ids_remove(before.running, i as int);
        }
        lease.cancelled = lease.cancelled || job.cancelled;
        let current = get_revision(&self.latest_requested, job.request.key);
        let is_current = match current {
            Some(revision) => revision == job.request.input_revision,
            None => false,
        };
        if job.cancelled || !is_current {
            self.stale_results = saturating_inc(self.stale_results, 1);
            return DerivedJobCompletion::Stale;
        }
        set_revision(&mut self.accepted, job.request.key, job.request.input_revision);
        DerivedJobCompletion::Accepted
    }

    /// Whether a newer request has cancelled the lease's job, while it runs or after it was
    /// completed.
    pub fn is_cancelled(&self, lease: &DerivedJobLease) -> (r: bool)
        requires
            self.wf(),
        ensures
            r == lease_cancelled(self@, *lease),
    {
        if lease.cancelled {
            return true;
        }
        match self.find_running_id(lease.id) {
            Some(i) => self.running[i].cancelled,
            None => false,
        }
    }

    /// What the invariant gives callers: the queues stay within their bounds, no key is
    /// pending twice, and no two running jobs share a lease identity.
    pub proof fn lemma_wf_bounds(&self)
        requires
            self.wf(),
        ensures
            scheduler_inv(self@),
    {
    }

    /// The lease identities of the running jobs that are cancelled, in lease order.
    pub fn cancelled_leases(&self) -> (ids: Vec<u64>)
        ensures
            ids@ == cancelled_ids(self@.running),
    {
        let mut ids: Vec<u64> = Vec::new();
        let mut i: usize = 0;
        while i < self.running.len()
            invariant
                i <= self.running@.len(),
                ids@ == cancelled_ids(self.running@.take(i as int)),
            decreases self.running@.len() - i,
        {
            proof {
                assert(self.running@.take(i + 1).drop_last() =~= self.running@.take(i as int));
            }
            if self.running[i].cancelled {
                ids.push(self.running[i].id);
            }
            i = i + 1;
        }
        proof {
            assert(self.running@.take(i as int) =~= self.running@);
        }
        ids
    }

    /// The number of pending requests.
    pub fn pending_count(&self) -> (n: usize)
        ensures
            n == self@.pending.len(),
    {
        self.pending.len()
    }

    /// The number of running jobs.
    pub fn running_count(&self) -> (n: usize)
        ensures
            n == self@.running.len(),
    {
        self.running.len()
    }

    /// How many completions were rejected as stale.
    pub fn stale_results(&self) -> (n: u64)
        ensures
            n == self@.stale_results,
    {
        self.stale_results
    }

    /// How many requests and jobs were cancelled.
    pub fn cancelled_count(&self) -> (n: u64)
        ensures
            n == self@.cancelled,
    {
        self.cancelled
    }

    /// How many requests were rejected because the pending queue was full.
    pub fn capacity_rejections(&self) -> (n: u64)
        ensures
            n == self@.capacity_rejections,
    {
        self.capacity_rejections
    }

    /// How many pending requests were replaced by a newer revision.
    pub fn coalesced_count(&self) -> (n: u64)
        ensures
            n == self@.coalesced,
    {
        self.coalesced
    }

    /// Replaces the demand of a tool: keys it no longer requests are cancelled, the rest are
    /// requested in turn, and the keys that are served become its demand.
    pub fn replace_tool_requests(&mut self, tool: EditorToolId, requests: Vec<(DerivedJobKey, u64)>)
        requires
            old(self).wf(),
        ensures
            final(self).wf(),
            final(self)@ == replace_model(old(self)@, tool, requests@),
    {
        let ghost s0 = self@;
        let desired = last_per_key_of(&requests);
        let previous = self.take_tool_keys(tool);
        let ghost s1 = self@;
        let obsolete = keys_absent_from(&previous, &desired);
        let mut i: usize = 0;
        while i < obsolete.len()
            invariant
                i <= obsolete@.len(),
                self.wf(),
                self@ == cancel_all(s1, obsolete@.take(i as int)),
            decreases obsolete@.len() - i,
        {
            proof {
                assert(obsolete@.take(i + 1).drop_last() =~= obsolete@.take(i as int));
            }
            self.cancel_key(obsolete[i]);
            i = i + 1;
        }
        proof {
            assert(obsolete@.take(i as int) =~= obsolete@);
        }
        let ghost s2 = self@;
        let mut served: Vec<DerivedJobKey> = Vec::new();
        let mut j: usize = 0;
        while j < desired.len()
            invariant
                j <= desired@.len(),
                self.wf(),
                (self@, served@) == request_all(s2, desired@.take(j as int)),
            decreases desired@.len() - j,
        {
            proof {
                assert(desired@.take(j + 1).drop_last() =~= desired@.take(j as int));
            }
            let (key, revision) = desired[j];
            if self.request(key, revision) {
                served.push(key);
            }
            j = j + 1;
        }
        proof {
            assert(desired@.take(j as int) =~= desired@);
        }
        if served.len() > 0 {
            let ghost old_pairs = tool_pairs(self.tool_keys@);
            let ghost served_view = served@;
            proof {
                lemma_requests_keep_tools(s2, desired@.take(j as int));
                lemma_cancels_keep_tools(s1, obsolete@);
                assert(!self@.tool_keys.contains_key(tool));
                crate::assoc::lemma_as_map_domain(old_pairs, tool);
                crate::assoc::lemma_as_map_push(old_pairs, tool, served_view);
            }
            self.tool_keys.push((tool, served));
            proof {
                assert(tool_pairs(self.tool_keys@) =~= old_pairs.push((tool, served_view)));
            }
        }
    }

    fn take_tool_keys(&mut self, tool: EditorToolId) -> (keys: Vec<DerivedJobKey>)
        requires
            old(self).wf(),
        ensures
            final(self).wf(),
            final(self)@ == (SchedulerView { tool_keys: old(self)@.tool_keys.remove(tool), ..old(self)@ }),
            keys@ == (if old(self)@.tool_keys.contains_key(tool) {
                old(self)@.tool_keys[tool]
            } else {
                Seq::<DerivedJobKey>::empty()
            }),
    {
        let ghost pairs = tool_pairs(self.tool_keys@);
        let mut i: usize = 0;
        while i < self.tool_keys.len()
            invariant
                i <= self.tool_keys@.len(),
                self.wf(),
                self@ == old(self)@,
                pairs == tool_pairs(self.tool_keys@),
                forall|j: int| 0 <= j < i ==> self.tool_keys@[j].0 != tool,
            decreases self.tool_keys@.len() - i,
        {
            if self.tool_keys[i].0 == tool {
                proof {
                    crate::assoc::lemma_as_map_at(pairs, i as int);
                    crate::assoc::lemma_as_map_remove(pairs, i as int);
                }
                let (_, keys) = self.tool_keys.remove(i);
                proof {
                    assert(tool_pairs(self.tool_keys@) =~= pairs.remove(i as int));
                }
                return keys;
            }
            i = i + 1;
        }
        proof {
            assert(!has_key(pairs, tool)) by {
                if has_key(pairs, tool) {
                    let j = choose|j: int| 0 <= j < pairs.len() && pairs[j].0 == tool;
                    assert(self.tool_keys@[j].0 == tool);
                }
            }
            crate::assoc::lemma_as_map_absent(pairs, tool);
            assert(as_map(pairs).remove(tool) =~= as_map(pairs));
        }
        Vec::new()
    }

}

/// The lease identities of the cancelled jobs, in order.
pub open spec fn cancelled_ids(running: Seq<RunningDerivedJob>) -> Seq<u64>
    decreases running.len(),
{
    if running.len() == 0 {
        Seq::empty()
    } else if running.last().cancelled {
        cancelled_ids(running.drop_last()).push(running.last().id)
    } else {
        cancelled_ids(running.drop_last())
    }
}

/// The position of the first running job with the key.
fn first_running_with(running: &Vec<RunningDerivedJob>, key: DerivedJobKey) -> (r: Option<usize>)
    ensures
        match r {
            Some(i) => i < running@.len() && running_has(running@, key)
                && first_running_index(running@, key) == i,
            None => !running_has(running@, key),
        },
{
    let mut i: usize = 0;
    while i < running.len()
        invariant
            i <= running@.len(),
            forall|j: int| 0 <= j < i ==> running@[j].request.key != key,
        decreases running@.len() - i,
    {
        if running[i].request.key == key {
            proof {
                assert(running_has(running@, key));
                let c = first_running_index(running@, key);
                assert(0 <= c < running@.len() && running@[c].request.key == key && forall|j: int|
                    0 <= j < c ==> running@[j].request.key != key);
                if c < i {
                } else if c > i {
                    assert(running@[i as int].request.key == key);
                }
            }
            return Some(i);
        }
        i = i + 1;
    }
    None
}

/// Cancels the first running job of the key when the revision is newer and it is not cancelled yet.
fn cancel_older_running(running: &mut Vec<RunningDerivedJob>, key: DerivedJobKey, revision: u64) -> (cancels: bool)
    requires
        running_ids_distinct(old(running)@),
    ensures
        cancels == request_cancels(old(running)@, key, revision),
        final(running)@ == (if cancels {
            let j = first_running_index(old(running)@, key);
            old(running)@.update(j, RunningDerivedJob { cancelled: true, ..old(running)@[j] })
        } else {
            old(running)@
        }),
        running_ids_distinct(final(running)@),
        final(running)@.len() == old(running)@.len(),
{
    let ghost before = running@;
    match first_running_with(running, key) {
        Some(i) => {
            let job = running[i];
            if revision > job.request.input_revision && !job.cancelled {
                running.set(i, RunningDerivedJob { cancelled: true, ..job });
                proof {
                    lemma_ids_same(before, running@);
                }
                true
            } else {
                false
            }
        },
        None => false,
    }
}

/// The pending requests of other keys, in order.
fn pending_other_keys(pending: &Vec<DerivedJobRequest>, key: DerivedJobKey) -> (kept: Vec<DerivedJobRequest>)
    ensures
        kept@ == pending_without(pending@, key),
        kept@.len() <= pending@.len(),
{
    let mut kept: Vec<DerivedJobRequest> = Vec::new();
    let mut i: usize = 0;
    while i < pending.len()
        invariant
            i <= pending@.len(),
            kept@ == pending_without(pending@.take(i as int), key),
            kept@.len() <= i,
        decreases pending@.len() - i,
    {
        proof {
            assert(pending@.take(i + 1).drop_last() =~= pending@.take(i as int));
        }
        let request = pending[i];
        if request.key != key {
            kept.push(request);
        }
        i = i + 1;
    }
    proof {
        assert(pending@.take(i as int) =~= pending@);
    }
    kept
}

/// Marks every running job of the key cancelled; returns how many were not yet cancelled.
fn mark_cancelled(running: &mut Vec<RunningDerivedJob>, key: DerivedJobKey) -> (newly: u64)
    ensures
        final(running)@ == running_cancelled(old(running)@, key),
        newly == newly_cancelled(old(running)@, key),
{
    let ghost before = running@;
    let mut newly: u64 = 0;
    let mut j: usize = 0;
    while j < running.len()
        invariant
            j <= running@.len(),
            running@.len() == before.len(),
            forall|a: int| 0 <= a < j ==> running@[a] == running_cancelled(before, key)[a],
            forall|a: int| j <= a < running@.len() ==> running@[a] == before[a],
            newly == newly_cancelled(before.take(j as int), key),
            newly <= j,
        decreases running@.len() - j,
    {
        proof {
            assert(before.take(j + 1).drop_last() =~= before.take(j as int));
        }
        let job = running[j];
        if job.request.key == key {
            if !job.cancelled {
                newly = newly + 1;
            }
            running.set(j, RunningDerivedJob { cancelled: true, ..job });
        }
        j = j + 1;
    }
    proof {
        assert(before.take(j as int) =~= before);
        assert(running@ =~= running_cancelled(before, key));
    }
    newly
}

/// Removing a key keeps the remaining requests in order, each key at most once.
pub proof fn lemma_pending_without_distinct(pending: Seq<DerivedJobRequest>, key: DerivedJobKey)
    requires
        pending_keys_distinct(pending),
    ensures
        pending_without(pending, key).len() <= pending.len(),
        pending_keys_distinct(pending_without(pending, key)),
        forall|i: int|
            0 <= i < pending_without(pending, key).len() ==> #[trigger] pending_without(
                pending,
                key,
            )[i].key != key,
        forall|i: int|
            0 <= i < pending_without(pending, key).len() ==> pending_has(
                pending,
                #[trigger] pending_without(pending, key)[i].key,
            ),
    decreases pending.len(),
{
    if pending.len() > 0 {
        let rest = pending.drop_last();
        assert(pending_keys_distinct(rest)) by {
            reveal(pending_keys_distinct);
        }
        lemma_pending_without_distinct(rest, key);
        let w = pending_without(rest, key);
        assert forall|i: int| 0 <= i < w.len() implies pending_has(pending, #[trigger] w[i].key) by {
            let j = choose|j: int| 0 <= j < rest.len() && rest[j].key == w[i].key;
            assert(pending[j].key == w[i].key);
        }
        if pending.last().key != key {
            let l = pending.len() - 1;
            assert forall|i: int| 0 <= i < w.len() implies #[trigger] w[i].key != pending.last().key by {
                let j = choose|j: int| 0 <= j < rest.len() && rest[j].key == w[i].key;
                assert(pending[j].key == w[i].key);
                assert(j != l);
                reveal(pending_keys_distinct);
            }
            lemma_keys_push(w, pending.last());
            let p = w.push(pending.last());
            assert forall|i: int| 0 <= i < p.len() implies pending_has(pending, #[trigger] p[i].key) by {
                if i == w.len() {
                    assert(pending[l].key == p[i].key);
                } else {
                    assert(p[i] == w[i]);
                }
            }
        }
    }
}

/// The requests with one entry per key, each the last one given for it.
fn last_per_key_of(requests: &Vec<(DerivedJobKey, u64)>) -> (desired: Vec<(DerivedJobKey, u64)>)
    ensures
        desired@ == last_per_key(requests@),
        keys_unique(desired@),
{
    let mut desired: Vec<(DerivedJobKey, u64)> = Vec::new();
    let mut i: usize = 0;
    while i < requests.len()
        invariant
            i <= requests@.len(),
            desired@ == last_per_key(requests@.take(i as int)),
            keys_unique(desired@),
        decreases requests@.len() - i,
    {
        proof {
            assert(requests@.take(i + 1).drop_last() =~= requests@.take(i as int));
        }
        let (key, revision) = requests[i];
        let ghost rest = desired@;
        match find_key(&desired, key) {
            Some(k) => {
                proof {
                    assert(has_key(rest, key));
                    let c = choose|c: int| 0 <= c < rest.len() && rest[c].0 == key;
                    if c != k as int {
                        assert(rest[c].0 != rest[k as int].0);
                    }
                    crate::assoc::lemma_as_map_remove(rest, k as int);
                }
                desired.remove(k);
            },
            None => {},
        }
        proof {
            let without = desired@;
            assert(!has_key(without, key)) by {
                if has_key(without, key) {
                    let c = choose|c: int| 0 <= c < without.len() && without[c].0 == key;
                    if has_key(rest, key) {
                        let k = choose|k: int| 0 <= k < rest.len() && rest[k].0 == key;
                        let r = rest.remove(k);
                        assert(without =~= r) by {
                            let k2 = choose|c: int| 0 <= c < rest.len() && rest[c].0 == key;
                            assert(k2 == k);
                        }
                        let sc = if c < k { c } else { c + 1 };
                        assert(r[c] == rest[sc]);
                        assert(rest[sc].0 != rest[k].0);
                    } else {
                        assert(without == rest);
                    }
                }
            }
            crate::assoc::lemma_as_map_push(without, key, revision);
        }
        desired.push((key, revision));
        i = i + 1;
    }
    proof {
        assert(requests@.take(i as int) =~= requests@);
    }
    desired
}

/// The keys, in order, that the requests do not name.
fn keys_absent_from(keys: &Vec<DerivedJobKey>, requests: &Vec<(DerivedJobKey, u64)>) -> (absent: Vec<DerivedJobKey>)
    ensures
        absent@ == keys_not_in(keys@, requests@),
{
    let mut absent: Vec<DerivedJobKey> = Vec::new();
    let mut i: usize = 0;
    while i < keys.len()
        invariant
            i <= keys@.len(),
            absent@ == keys_not_in(keys@.take(i as int), requests@),
        decreases keys@.len() - i,
    {
        proof {
            assert(keys@.take(i + 1).drop_last() =~= keys@.take(i as int));
        }
        if find_key(requests, keys[i]).is_none() {
            absent.push(keys[i]);
        }
        i = i + 1;
    }
    proof {
        assert(keys@.take(i as int) =~= keys@);
    }
    absent
}

/// Cancelling keys leaves the tool demand as it is.
pub proof fn lemma_cancels_keep_tools(s: SchedulerView, keys: Seq<DerivedJobKey>)
    ensures
        cancel_all(s, keys).tool_keys == s.tool_keys,
    decreases keys.len(),
{
    if keys.len() > 0 {
        lemma_cancels_keep_tools(s, keys.drop_last());
    }
}

/// Requesting keys leaves the tool demand as it is.
pub proof fn lemma_requests_keep_tools(s: SchedulerView, requests: Seq<(DerivedJobKey, u64)>)
    ensures
        request_all(s, requests).0.tool_keys == s.tool_keys,
    decreases requests.len(),
{
    reveal(coalesce_model);
    reveal(enqueue_model);
    if requests.len() > 0 {
        lemma_requests_keep_tools(s, requests.drop_last());
    }
}

} // verus!
