//! The store of accepted derived artifacts and of the failures that replaced them.

use vstd::prelude::*;
use crate::assoc::{as_map, keys_unique};
use crate::jobs::{find_key, remove_key, set_entry, DerivedJobKey};
use crate::world::{CellCoord, StableObjectId};

verus! {

/// A bounded, typed product of one derived job.
#[derive(Clone, Debug, PartialEq, Eq)]
pub enum DerivedArtifact {
    CookedObjectPage { object_count: usize, fingerprint: u64 },
    /// `weight_total` over `channel_count` weight channels, each at most 255.
    TerrainPage {
        page_count: usize,
        texel_count: usize,
        weight_total: u64,
        channel_count: usize,
        fingerprint: u64,
    },
    Collision { cell_count: usize, object_count: usize, fingerprint: u64 },
    Navigation { cell_count: usize, obstacle_count: usize, fingerprint: u64 },
    /// Coarse heights are the bit patterns of the cell heights.
    Overview {
        coarse_heights: Vec<(CellCoord, u32)>,
        object_icons: Vec<(StableObjectId, CellCoord)>,
        cell_status: Vec<(CellCoord, i64)>,
        fingerprint: u64,
    },
}

/// The abstract contents of an artifact store.
pub struct ArtifactStoreView {
    pub artifacts: Map<DerivedJobKey, (u64, DerivedArtifact)>,
    pub failures: Map<DerivedJobKey, (u64, Seq<char>)>,
    pub failed_jobs: u64,
}

/// Accepted artifacts and failure diagnostics, each tagged with its input revision.
pub struct DerivedArtifactStore {
    artifacts: Vec<(DerivedJobKey, (u64, DerivedArtifact))>,
    failures: Vec<(DerivedJobKey, (u64, String))>,
    failed_jobs: u64,
}

/// The failure diagnostics as plain character sequences.
pub open spec fn failure_pairs(v: Seq<(DerivedJobKey, (u64, String))>) -> Seq<(DerivedJobKey, (u64, Seq<char>))> {
    v.map_values(|p: (DerivedJobKey, (u64, String))| (p.0, (p.1.0, p.1.1@)))
}

impl View for DerivedArtifactStore {
    type V = ArtifactStoreView;

    closed spec fn view(&self) -> ArtifactStoreView {
        ArtifactStoreView {
            artifacts: as_map(self.artifacts@),
            failures: as_map(failure_pairs(self.failures@)),
            failed_jobs: self.failed_jobs,
        }
    }
}

impl DerivedArtifactStore {
    /// The internal invariant: one entry per key in each list.
    pub closed spec fn wf(&self) -> bool {
        &&& keys_unique(self.artifacts@)
        &&& keys_unique(failure_pairs(self.failures@))
    }

    /// An empty store.
    pub fn new() -> (s: Self)
        ensures
            s.wf(),
            s@.artifacts == Map::<DerivedJobKey, (u64, DerivedArtifact)>::empty(),
            s@.failures == Map::<DerivedJobKey, (u64, Seq<char>)>::empty(),
            s@.failed_jobs == 0,
    {
        let s = DerivedArtifactStore { artifacts: Vec::new(), failures: Vec::new(), failed_jobs: 0 };
        proof {
            assert(failure_pairs(s.failures@) =~= Seq::empty());
            assert(as_map(s.artifacts@) =~= Map::empty());
            assert(as_map(failure_pairs(s.failures@)) =~= Map::empty());
        }
        s
    }

    /// The accepted artifact of a key.
    pub fn get(&self, key: DerivedJobKey) -> (r: Option<&DerivedArtifact>)
        requires
            self.wf(),
        ensures
            match r {
                Some(a) => self@.artifacts.contains_key(key) && *a == self@.artifacts[key].1,
                None => !self@.artifacts.contains_key(key),
            },
    {
        match find_key(&self.artifacts, key) {
            Some(i) => {
                proof {
                    crate::assoc::lemma_as_map_at(self.artifacts@, i as int);
                }
                Some(&self.artifacts[i].1.1)
            },
            None => {
                proof {
                    crate::assoc::lemma_as_map_absent(self.artifacts@, key);
                }
                None
            },
        }
    }

    /// The number of keys with an accepted artifact.
    pub fn accepted_count(&self) -> (n: usize)
        requires
            self.wf(),
        ensures
            n == self@.artifacts.len(),
    {
        proof {
            lemma_len_as_map(self.artifacts@);
        }
        self.artifacts.len()
    }

    /// The failure diagnostic of a key.
    pub fn failure(&self, key: DerivedJobKey) -> (r: Option<&str>)
        requires
            self.wf(),
        ensures
            match r {
                Some(e) => self@.failures.contains_key(key) && e@ == self@.failures[key].1,
                None => !self@.failures.contains_key(key),
            },
    {
        match find_key(&self.failures, key) {
            Some(i) => {
                proof {
                    assert(failure_pairs(self.failures@)[i as int].0 == key);
                    crate::assoc::lemma_as_map_at(failure_pairs(self.failures@), i as int);
                }
                Some(self.failures[i].1.1.as_str())
            },
            None => {
                proof {
                    assert(!crate::assoc::has_key(failure_pairs(self.failures@), key)) by {
                        if crate::assoc::has_key(failure_pairs(self.failures@), key) {
                            let j = choose|j: int|
                                0 <= j < failure_pairs(self.failures@).len() && failure_pairs(
                                    self.failures@,
                                )[j].0 == key;
                            assert(self.failures@[j].0 == key);
                        }
                    }
                    crate::assoc::lemma_as_map_absent(failure_pairs(self.failures@), key);
                }
                None
            },
        }
    }

    /// How many jobs failed.
    pub fn failed_jobs(&self) -> (n: u64)
        ensures
            n == self@.failed_jobs,
    {
        self.failed_jobs
    }

    /// Counts one failed job that left no diagnostic, such as a lost executor.
    pub fn count_lost_job(&mut self)
        requires
            old(self).wf(),
        ensures
            final(self).wf(),
            final(self)@ == (ArtifactStoreView {
                failed_jobs: crate::jobs::saturating(old(self)@.failed_jobs, 1),
                ..old(self)@
            }),
    {
        self.failed_jobs = self.failed_jobs.saturating_add(1);
    }

    /// A successful full cook proves the saved source publishable: failure diagnostics are
    /// retired, while accepted artifacts stay.
    pub fn clear_failures_for_generation_adoption(&mut self)
        requires
            old(self).wf(),
        ensures
            final(self).wf(),
            final(self)@ == (ArtifactStoreView {
                failures: Map::<DerivedJobKey, (u64, Seq<char>)>::empty(),
                ..old(self)@
            }),
    {
        self.failures = Vec::new();
        proof {
            assert(failure_pairs(self.failures@) =~= Seq::empty());
            assert(as_map(failure_pairs(self.failures@)) =~= Map::empty());
        }
    }

    /// Records the result of an accepted job: an artifact replaces the failure of its key, a
    /// failure removes the artifact of its key.
    pub fn publish(&mut self, key: DerivedJobKey, input_revision: u64, result: Result<DerivedArtifact, String>)
        requires
            old(self).wf(),
        ensures
            final(self).wf(),
            final(self)@ == publish_model(old(self)@, key, input_revision, result),
    {
        match result {
            Ok(artifact) => {
                self.remove_failure(key);
                set_entry(&mut self.artifacts, key, (input_revision, artifact));
            },
            Err(error) => {
                self.failed_jobs = self.failed_jobs.saturating_add(1);
                remove_key(&mut self.artifacts, key);
                self.set_failure(key, input_revision, error);
            },
        }
    }

    fn remove_failure(&mut self, key: DerivedJobKey)
        requires
            old(self).wf(),
        ensures
            final(self).wf(),
            final(self)@ == (ArtifactStoreView { failures: old(self)@.failures.remove(key), ..old(self)@ }),
    {
        let ghost pairs = failure_pairs(self.failures@);
        match find_key(&self.failures, key) {
            Some(i) => {
                proof {
                    crate::assoc::lemma_as_map_remove(pairs, i as int);
                }
                self.failures.remove(i);
                proof {
                    assert(failure_pairs(self.failures@) =~= pairs.remove(i as int));
                }
            },
            None => {
                proof {
                    assert(!crate::assoc::has_key(pairs, key)) by {
                        if crate::assoc::has_key(pairs, key) {
                            let j = choose|j: int| 0 <= j < pairs.len() && pairs[j].0 == key;
                            assert(self.failures@[j].0 == key);
                        }
                    }
                    crate::assoc::lemma_as_map_absent(pairs, key);
                    assert(as_map(pairs).remove(key) =~= as_map(pairs));
                }
            },
        }
    }

    fn set_failure(&mut self, key: DerivedJobKey, input_revision: u64, error: String)
        requires
            old(self).wf(),
        ensures
            final(self).wf(),
            final(self)@ == (ArtifactStoreView {
                failures: old(self)@.failures.insert(key, (input_revision, error@)),
                ..old(self)@
            }),
    {
        let ghost pairs = failure_pairs(self.failures@);
        let ghost text = error@;
        match find_key(&self.failures, key) {
            Some(i) => {
                proof {
                    crate::assoc::lemma_as_map_update(pairs, i as int, (input_revision, text));
                }
                self.failures.set(i, (key, (input_revision, error)));
                proof {
                    assert(failure_pairs(self.failures@) =~= pairs.update(
                        i as int,
                        (key, (input_revision, text)),
                    ));
                }
            },
            None => {
                proof {
                    assert(!crate::assoc::has_key(pairs, key)) by {
                        if crate::assoc::has_key(pairs, key) {
                            let j = choose|j: int| 0 <= j < pairs.len() && pairs[j].0 == key;
                            assert(self.failures@[j].0 == key);
                        }
                    }
                    crate::assoc::lemma_as_map_push(pairs, key, (input_revision, text));
                }
                self.failures.push((key, (input_revision, error)));
                proof {
                    assert(failure_pairs(self.failures@) =~= pairs.push((key, (input_revision, text))));
                }
            },
        }
    }
}

/// What publishing a job result does to the store.
pub open spec fn publish_model(
    s: ArtifactStoreView,
    key: DerivedJobKey,
    input_revision: u64,
    result: Result<DerivedArtifact, String>,
) -> ArtifactStoreView {
    match result {
        Ok(artifact) => ArtifactStoreView {
            artifacts: s.artifacts.insert(key, (input_revision, artifact)),
            failures: s.failures.remove(key),
            ..s
        },
        Err(error) => ArtifactStoreView {
            artifacts: s.artifacts.remove(key),
            failures: s.failures.insert(key, (input_revision, error@)),
            failed_jobs: crate::jobs::saturating(s.failed_jobs, 1),
        },
    }
}

/// A list with distinct keys has as many entries as its map has keys.
pub proof fn lemma_len_as_map<V>(s: Seq<(DerivedJobKey, V)>)
    requires
        keys_unique(s),
    ensures
        as_map(s).dom().finite(),
        as_map(s).len() == s.len(),
    decreases s.len(),
{
    crate::assoc::lemma_as_map_domain(s, arbitrary());
    if s.len() > 0 {
        let t = s.drop_last();
        assert(keys_unique(t));
        lemma_len_as_map(t);
        assert(!crate::assoc::has_key(t, s.last().0)) by {
            if crate::assoc::has_key(t, s.last().0) {
                let j = choose|j: int| 0 <= j < t.len() && t[j].0 == s.last().0;
                assert(s[j].0 == s[s.len() - 1].0);
            }
        }
        crate::assoc::lemma_as_map_absent(t, s.last().0);
    }
}

} // verus!
