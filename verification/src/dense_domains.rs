//! The dense-source domains edited together: atmospheres, environment definitions with the
//! shared library, and painted coverage. Their saves share one transaction, their status one
//! line, and a conflict of one blocks edits and saves of all. The road domain, which this
//! library does not hold, takes part through what the caller reports of it.

use vstd::prelude::*;

use crate::atmosphere::WorkingSet as AtmosphereWorkingSet;
use crate::coverage::{
    any_where, count_where, first_state_message, is_conflict, is_dirty, is_saving, marked_saving,
    queued_writes, wv, CoverageKey, CoverageView, CoverageWorkingSet, DenseSaveOutcome,
    DenseSourceWrite, EntryView, MAX_DENSE_DOMAIN_WRITES_PER_TRANSACTION,
};
use crate::definitions::{
    conflict_total, definition_writes, definitions_saving, definitions_status, library_dirty,
    marked_definition, marked_presets, cv, DefEntryView, DefinitionSaveOutcome, DefinitionWorkingSet,
    DefinitionWrite, DefinitionsView, EnvironmentDefinition, LibraryChecks,
};
use crate::objects::{capped, capped_add};
use crate::presets::PresetLibrary;
use crate::project_store::{can_queue_save, next_id, ProjectEditorStore};
use crate::stamps::EnvironmentCellRecord;
use crate::world::WorldSpaceId;

verus! {

/// What the caller reports of the road domain: its dirty records, whether its save is in
/// flight or in conflict, its error, and whether it has records to write.
#[derive(Debug)]
pub struct RoadDomain {
    pub dirty: usize,
    pub saving: bool,
    pub conflict: bool,
    pub error: Option<String>,
    pub has_writes: bool,
}

/// How a dense transaction ended.
#[derive(Debug)]
pub enum DenseDomainOutcome {
    /// Everything was written: the coverage records, definitions and library the database now
    /// holds.
    Committed {
        coverage: Vec<EnvironmentCellRecord>,
        definitions: Vec<EnvironmentDefinition>,
        presets: Option<PresetLibrary>,
    },
    /// A road record conflicted; nothing was written.
    RoadConflict,
    /// The database held another definition of the space (or none); nothing was written.
    DefinitionConflict { space: WorldSpaceId, actual: Option<EnvironmentDefinition> },
    /// The database held another library; nothing was written.
    LibraryConflict { actual: PresetLibrary },
    /// The database held another coverage record of the cell (or none); nothing was written.
    Conflict { key: CoverageKey, actual: Option<EnvironmentCellRecord> },
    Failed(String),
}

/// One dense transaction to send: its request, the library checkpoint it expects, the library
/// and definitions to write, and the coverage writes.
#[derive(Debug)]
pub struct DenseTransaction {
    pub request_id: u64,
    pub preset_base_revision: u64,
    pub presets: Option<PresetLibrary>,
    pub definitions: Vec<DefinitionWrite>,
    pub coverage: Vec<DenseSourceWrite>,
}

/// The dense-source working sets.
pub struct DenseDomainWorkingSets {
    pub atmospheres: AtmosphereWorkingSet,
    pub coverage: CoverageWorkingSet,
    pub definitions: DefinitionWorkingSet,
}

/// A save of some domain other than the coverage is in flight or in conflict.
pub open spec fn others_blocked(s: DenseDomainWorkingSets, roads: RoadDomain) -> bool {
    s.atmospheres@.saving is Some || s.atmospheres@.conflict is Some || roads.saving || roads.conflict
        || definitions_saving(s.definitions@) || conflict_total(s.definitions@) > 0
}

/// Some domain other than the coverage has something to write.
pub open spec fn others_have_writes(s: DenseDomainWorkingSets, roads: RoadDomain) -> bool {
    library_dirty(s.definitions@.presets) || definition_writes(s.definitions@.entries).len() > 0
        || roads.has_writes
}

/// What the dense transaction's outcome says of the definitions and library.
pub open spec fn definition_outcome(o: DenseDomainOutcome) -> DefinitionSaveOutcome {
    match o {
        DenseDomainOutcome::Committed { definitions, presets, .. } => DefinitionSaveOutcome::Committed {
            definitions,
            presets,
        },
        DenseDomainOutcome::DefinitionConflict { space, actual } => DefinitionSaveOutcome::DefinitionConflict {
            space,
            actual,
        },
        DenseDomainOutcome::LibraryConflict { actual } => DefinitionSaveOutcome::LibraryConflict { actual },
        DenseDomainOutcome::Failed(e) => DefinitionSaveOutcome::Failed(e),
        _ => DefinitionSaveOutcome::OtherConflict,
    }
}

/// What the dense transaction's outcome says of the coverage.
pub open spec fn coverage_outcome(o: DenseDomainOutcome) -> DenseSaveOutcome {
    match o {
        DenseDomainOutcome::Committed { coverage, .. } => DenseSaveOutcome::Committed(coverage),
        DenseDomainOutcome::Conflict { key, actual } => DenseSaveOutcome::Conflict { key, actual },
        DenseDomainOutcome::Failed(e) => DenseSaveOutcome::Failed(e),
        _ => DenseSaveOutcome::DomainConflict,
    }
}

/// The status line: the road error, else the definitions' and library's report, else the
/// coverage's.
pub open spec fn dense_status(s: DenseDomainWorkingSets, roads: RoadDomain) -> Option<Seq<char>> {
    match roads.error {
        Some(e) => Some(e@),
        None => if definitions_status(s.definitions@) is Some {
            definitions_status(s.definitions@)
        } else {
            first_state_message(s.coverage@.entries)
        },
    }
}

impl DenseDomainWorkingSets {
    /// The invariants of the working sets.
    pub open spec fn wf(&self) -> bool {
        self.atmospheres.wf() && self.coverage.wf() && self.definitions.wf()
    }

    /// Empty working sets: nothing loaded yet.
    pub fn new() -> (s: Self)
        ensures
            s.wf(),
            s.coverage@.entries.len() == 0,
            s.definitions@.entries.len() == 0,
            s.definitions@.presets is None,
            s.atmospheres@.entries.len() == 0,
    {
        DenseDomainWorkingSets {
            atmospheres: AtmosphereWorkingSet::new(),
            coverage: CoverageWorkingSet::new(),
            definitions: DefinitionWorkingSet::new(),
        }
    }

    /// The number of dirty records over all domains, saturating.
    pub fn dirty_count(&self, roads: &RoadDomain) -> (n: usize)
        ensures
            n == capped(
                crate::atmosphere::dirty_total(self.atmospheres@.entries) + roads.dirty
                    + crate::definitions::dirty_total(self.definitions@) + count_where(
                    self.coverage@.entries,
                    |e: EntryView| is_dirty(e),
                ),
            ),
    {
        let a = self.atmospheres.dirty_count();
        let d = self.definitions.dirty_count();
        let c = self.coverage.dirty_count();
        capped_add(capped_add(capped_add(a, roads.dirty), d), c)
    }

    /// Whether a save of some domain is in flight.
    pub fn saving(&self, roads: &RoadDomain) -> (r: bool)
        ensures
            r == (self.atmospheres@.saving is Some || roads.saving || definitions_saving(self.definitions@)
                || any_where(self.coverage@.entries, |e: EntryView| is_saving(e))),
    {
        self.atmospheres.saving().is_some() || roads.saving || self.definitions.saving() || self.coverage.saving()
    }

    /// Whether some domain is in conflict with the database.
    pub fn has_any_conflict(&self, roads: &RoadDomain) -> (r: bool)
        ensures
            r == (self.atmospheres@.conflict is Some || roads.conflict || conflict_total(self.definitions@) > 0
                || any_where(self.coverage@.entries, |e: EntryView| is_conflict(e))),
    {
        self.atmospheres.conflict().is_some() || roads.conflict || self.definitions.conflict_count() > 0
            || self.coverage.has_any_conflict()
    }

    /// The number of conflicts over all domains, saturating.
    pub fn conflict_count(&self, roads: &RoadDomain) -> (n: usize)
        ensures
            n == capped(
                (if self.atmospheres@.conflict is Some {
                    1int
                } else {
                    0int
                }) + (if roads.conflict {
                    1int
                } else {
                    0int
                }) + conflict_total(self.definitions@) + count_where(
                    self.coverage@.entries,
                    |e: EntryView| is_conflict(e),
                ),
            ),
    {
        let a: usize = if self.atmospheres.conflict().is_some() {
            1
        } else {
            0
        };
        let r: usize = if roads.conflict {
            1
        } else {
            0
        };
        let d = self.definitions.conflict_count();
        let c = self.coverage.conflict_count();
        capped_add(capped_add(capped_add(a, r), d), c)
    }

    /// The status line (see `dense_status`).
    pub fn status(&self, roads: &RoadDomain) -> (r: Option<String>)
        ensures
            match r {
                Some(m) => dense_status(*self, *roads) == Some(m@),
                None => dense_status(*self, *roads) is None,
            },
    {
        if let Some(e) = &roads.error {
            return Some(e.clone());
        }
        if let Some(m) = self.definitions.status() {
            return Some(m);
        }
        self.coverage.status()
    }

    /// Queues one dense transaction with everything the domains have to write: the library,
    /// the dirty definitions and the dirty cells, which are then saving in its request.
    /// Nothing is queued while a domain is saving or in conflict, more cells are dirty than one
    /// save may write, a gesture is under way, nothing is to be written, or the store refuses.
    pub fn queue_save(&mut self, project: &mut ProjectEditorStore, roads: &RoadDomain) -> (t: Option<
        DenseTransaction,
    >)
        requires
            old(self).wf(),
        ensures
            final(self).wf(),
            final(self).atmospheres@ == old(self).atmospheres@,
            ({
                let blocked = others_blocked(*old(self), *roads) || any_where(
                    old(self).coverage@.entries,
                    |e: EntryView| is_saving(e),
                ) || any_where(old(self).coverage@.entries, |e: EntryView| is_conflict(e)) || count_where(
                    old(self).coverage@.entries,
                    |e: EntryView| is_dirty(e),
                ) > MAX_DENSE_DOMAIN_WRITES_PER_TRANSACTION || old(self).coverage@.gesture_active;
                let has_writes = queued_writes(old(self).coverage@.entries).len() > 0 || others_have_writes(
                    *old(self),
                    *roads,
                );
                &&& t is Some <==> (!blocked && has_writes && can_queue_save(old(project)@))
                &&& t is None ==> final(self).coverage@ == old(self).coverage@ && final(self).definitions@
                    == old(self).definitions@ && final(project)@ == old(project)@
            }),
            t matches Some(x) ==> {
                let id = next_id(old(project)@.next_save_request_id);
                let w = old(self).definitions@;
                &&& x.request_id == id
                &&& final(project)@.pending_dense_save == Some(id)
                &&& x.preset_base_revision == (match w.presets {
                    Some(p) => p.base.revision,
                    None => 0,
                })
                &&& (match x.presets {
                    Some(l) => library_dirty(w.presets) && l@ == w.presets->Some_0.current,
                    None => !library_dirty(w.presets),
                })
                &&& x.definitions@.map_values(|d: DefinitionWrite| (d.expected_revision, d.definition@))
                    == definition_writes(w.entries)
                &&& x.coverage@.map_values(|c: DenseSourceWrite| wv(c)) == queued_writes(old(self).coverage@.entries)
                &&& final(self).definitions@ == (DefinitionsView {
                    entries: w.entries.map_values(|e: DefEntryView| marked_definition(e, id)),
                    presets: marked_presets(w.presets, id),
                    ..w
                })
                &&& final(self).coverage@ == (CoverageView {
                    entries: marked_saving(old(self).coverage@.entries, id),
                    ..old(self).coverage@
                })
            },
    {
        let blocked = self.atmospheres.saving().is_some() || self.atmospheres.conflict().is_some() || roads.saving
            || roads.conflict || self.definitions.saving() || self.definitions.conflict_count() > 0;
        let preset_base_revision = self.definitions.preset_base_revision();
        let presets = self.definitions.preset_write();
        let definitions = self.definitions.writes();
        let others_write = presets.is_some() || definitions.len() > 0 || roads.has_writes;
        let coverage = match self.coverage.queue_save(project, blocked, others_write) {
            None => {
                return None;
            },
            Some(w) => w,
        };
        let request_id = match project.pending_dense_save() {
            Some(id) => id,
            None => {
                proof {
                    assert(false);
                }
                0
            },
        };
        self.definitions.mark_saving(request_id);
        Some(DenseTransaction { request_id, preset_base_revision, presets, definitions, coverage })
    }

    /// Settles the request's saves in every domain with the transaction's outcome (see
    /// `definition_outcome` and `coverage_outcome`); the caller settles the road domain.
    pub fn finish_save(&mut self, request_id: u64, outcome: DenseDomainOutcome)
        requires
            old(self).wf(),
        ensures
            final(self).wf(),
            final(self).atmospheres@ == old(self).atmospheres@,
            ({
                let d = crate::definitions::ov(definition_outcome(outcome));
                let c1 = crate::definitions::finished_coverage(old(self).coverage@, old(self).definitions@.presets, d);
                &&& final(self).definitions@ == (DefinitionsView {
                    entries: crate::definitions::finished_definitions(old(self).definitions@.entries, request_id, d),
                    presets: crate::definitions::finished_presets(old(self).definitions@.presets, request_id, d),
                    revision: crate::definitions::bump_if(
                        crate::definitions::definitions_committed(d),
                        crate::definitions::bump_if(
                            crate::definitions::presets_committed(old(self).definitions@.presets, d),
                            old(self).definitions@.revision,
                        ),
                    ),
                    ..old(self).definitions@
                })
                &&& final(self).coverage@ == (CoverageView {
                    entries: crate::coverage::finished_entries(c1.entries, request_id, coverage_outcome(outcome)),
                    edit_revision: crate::coverage::bumped(c1.edit_revision),
                    ..c1
                })
            }),
    {
        let (definition_part, coverage_part) = split_outcome(outcome);
        self.definitions.finish_save(request_id, &definition_part, &mut self.coverage);
        self.coverage.finish_save(request_id, coverage_part);
    }
}

impl DenseDomainWorkingSets {
    /// Takes in what the project holds: first the library, definitions and plant catalog (see
    /// `DefinitionWorkingSet::reconcile`), then, once per completed query, the loaded cells,
    /// except those of spaces whose definition is in conflict (see
    /// `CoverageWorkingSet::reconcile`).
    pub fn reconcile(
        &mut self,
        completed_queries: u64,
        fresh: &[EnvironmentCellRecord],
        history_cells: &[CoverageKey],
        saved_definitions: &[EnvironmentDefinition],
        saved_presets: Option<&PresetLibrary>,
        plants_loaded: bool,
    )
        requires
            old(self).wf(),
        ensures
            final(self).wf(),
            final(self).atmospheres@ == old(self).atmospheres@,
            final(self).definitions@ == crate::definitions::reconciled(
                old(self).definitions@,
                crate::definitions::dviews(saved_definitions@),
                crate::definitions::olib(saved_presets),
                plants_loaded,
                old(self).coverage@,
            ),
            ({
                let c1 = crate::definitions::touch_if(
                    crate::definitions::definitions_reconcile_changes(
                        old(self).definitions@.entries,
                        crate::definitions::dviews(saved_definitions@),
                        old(self).coverage@.entries,
                    ),
                    crate::definitions::touch_if(
                        crate::definitions::preset_reconcile_changes(
                            old(self).definitions@.presets,
                            crate::definitions::olib(saved_presets),
                        ),
                        old(self).coverage@,
                    ),
                );
                &&& c1.last_completed_query == completed_queries ==> final(self).coverage@ == c1
                &&& c1.last_completed_query != completed_queries ==> final(self).coverage@ == (CoverageView {
                    entries: crate::coverage::apply_fresh(
                        crate::coverage::staying(c1.entries, crate::coverage::record_views(fresh@), history_cells@),
                        crate::coverage::record_views(fresh@),
                        crate::definitions::conflicted_spaces_of(final(self).definitions@.entries),
                    ),
                    last_completed_query: completed_queries,
                    ..c1
                })
            }),
    {
        self.definitions.reconcile(saved_definitions, saved_presets, plants_loaded, &mut self.coverage);
        let conflicted = self.definitions.conflicted_spaces();
        self.coverage.reconcile(completed_queries, fresh, history_cells, conflicted.as_slice());
    }

    /// Whether keeping local edits would resolve some conflict; `keep_checks` are the
    /// compiler's verdicts on the library that keeping local edits would give.
    pub fn can_keep_local_conflicts(&self, keep_checks: &LibraryChecks) -> (r: bool)
        ensures
            r == (crate::definitions::preset_resolvable(self.definitions@, true, cv(*keep_checks)) || crate::definitions::any_entry(
                self.definitions@.entries,
                |e: DefEntryView| crate::definitions::resolvable(
                    e,
                    true,
                    self.coverage@.entries,
                    self.definitions@.presets is Some,
                    Seq::empty(),
                ),
            ) || any_where(self.coverage@.entries, |e: EntryView| crate::coverage::keepable_conflict(e))),
    {
        self.definitions.can_keep_conflicts(keep_checks, &self.coverage) || self.coverage.can_keep_local_conflicts()
    }

    /// Whether taking the database's versions would resolve some conflict; `accept_checks` are
    /// the compiler's verdicts on the database's library, `valid` the spaces whose database
    /// definition it accepts.
    pub fn can_accept_database_conflicts(&self, accept_checks: &LibraryChecks, valid: &[WorldSpaceId]) -> (r: bool)
        ensures
            r == (crate::definitions::preset_resolvable(self.definitions@, false, cv(*accept_checks)) || crate::definitions::any_entry(
                self.definitions@.entries,
                |e: DefEntryView| crate::definitions::resolvable(
                    e,
                    false,
                    self.coverage@.entries,
                    self.definitions@.presets is Some,
                    valid@,
                ),
            ) || any_where(self.coverage@.entries, |e: EntryView| crate::coverage::acceptable_conflict(e))),
    {
        self.definitions.can_accept_conflicts(accept_checks, valid, &self.coverage)
            || self.coverage.can_accept_database_conflicts()
    }

    /// Keeps local edits over every conflict that allows it: the library's and the definitions'
    /// first, then the cells' (which keep their local coverage against the newer checkpoint).
    /// Reports how many it resolved, saturating.
    pub fn keep_local_conflicts(&mut self, checks: &LibraryChecks) -> (resolved: usize)
        requires
            old(self).wf(),
        ensures
            final(self).wf(),
            final(self).atmospheres@ == old(self).atmospheres@,
            ({
                let lib = crate::definitions::preset_resolvable(old(self).definitions@, true, cv(*checks));
                let c0 = old(self).coverage@;
                let loaded = old(self).definitions@.presets is Some;
                let f = |e: DefEntryView| crate::definitions::resolvable(e, true, c0.entries, loaded, Seq::empty());
                let defs = crate::definitions::count_entries(old(self).definitions@.entries, f);
                let c1 = crate::definitions::retarget_resolved(
                    c0.entries,
                    old(self).definitions@.entries,
                    true,
                    c0.entries,
                    loaded,
                    Seq::empty(),
                );
                let cells = count_where(c1, |e: EntryView| crate::coverage::keepable_conflict(e));
                &&& resolved == capped(capped(defs + if lib {
                    1int
                } else {
                    0int
                }) + cells)
                &&& final(self).definitions@.entries == crate::definitions::resolved_definitions(
                    old(self).definitions@.entries,
                    true,
                    c0.entries,
                    loaded,
                    Seq::empty(),
                )
                &&& final(self).coverage@.entries == c1.map_values(|e: EntryView| crate::coverage::keep_step(e))
            }),
    {
        let none: Vec<WorldSpaceId> = Vec::new();
        let d = self.definitions.resolve_conflicts(true, checks, none.as_slice(), &mut self.coverage);
        let c = self.coverage.keep_local_conflicts();
        capped_add(d, c)
    }

    /// Takes the database's versions over every conflict that allows it: the library's and the
    /// definitions' first (`valid` lists the spaces whose database definition the compiler
    /// accepts), then the cells'. Reports how many it resolved, saturating.
    pub fn accept_database_conflicts(&mut self, checks: &LibraryChecks, valid: &[WorldSpaceId]) -> (resolved: usize)
        requires
            old(self).wf(),
        ensures
            final(self).wf(),
            final(self).atmospheres@ == old(self).atmospheres@,
            ({
                let lib = crate::definitions::preset_resolvable(old(self).definitions@, false, cv(*checks));
                let c0 = old(self).coverage@;
                let loaded = old(self).definitions@.presets is Some;
                let f = |e: DefEntryView| crate::definitions::resolvable(e, false, c0.entries, loaded, valid@);
                let defs = crate::definitions::count_entries(old(self).definitions@.entries, f);
                let c1 = crate::definitions::retarget_resolved(
                    c0.entries,
                    old(self).definitions@.entries,
                    false,
                    c0.entries,
                    loaded,
                    valid@,
                );
                let cells = count_where(c1, |e: EntryView| crate::coverage::acceptable_conflict(e));
                &&& resolved == capped(capped(defs + if lib {
                    1int
                } else {
                    0int
                }) + cells)
                &&& final(self).definitions@.entries == crate::definitions::resolved_definitions(
                    old(self).definitions@.entries,
                    false,
                    c0.entries,
                    loaded,
                    valid@,
                )
                &&& final(self).coverage@.entries == c1.map_values(|e: EntryView| crate::coverage::accept_step(e))
            }),
    {
        let d = self.definitions.resolve_conflicts(false, checks, valid, &mut self.coverage);
        let c = self.coverage.accept_database_conflicts();
        capped_add(d, c)
    }
}

/// Splits the transaction's outcome into what it says of the definitions and of the coverage.
pub fn split_outcome(outcome: DenseDomainOutcome) -> (r: (DefinitionSaveOutcome, DenseSaveOutcome))
    ensures
        crate::definitions::ov(r.0) == crate::definitions::ov(definition_outcome(outcome)),
        r.1 == coverage_outcome(outcome),
{
    match outcome {
        DenseDomainOutcome::Committed { coverage, definitions, presets } => (
            DefinitionSaveOutcome::Committed { definitions, presets },
            DenseSaveOutcome::Committed(coverage),
        ),
        DenseDomainOutcome::RoadConflict => (DefinitionSaveOutcome::OtherConflict, DenseSaveOutcome::DomainConflict),
        DenseDomainOutcome::DefinitionConflict { space, actual } => (
            DefinitionSaveOutcome::DefinitionConflict { space, actual },
            DenseSaveOutcome::DomainConflict,
        ),
        DenseDomainOutcome::LibraryConflict { actual } => (
            DefinitionSaveOutcome::LibraryConflict { actual },
            DenseSaveOutcome::DomainConflict,
        ),
        DenseDomainOutcome::Conflict { key, actual } => (
            DefinitionSaveOutcome::OtherConflict,
            DenseSaveOutcome::Conflict { key, actual },
        ),
        DenseDomainOutcome::Failed(e) => {
            let f = e.clone();
            (DefinitionSaveOutcome::Failed(e), DenseSaveOutcome::Failed(f))
        },
    }
}

/// A transaction that did not commit keeps every local edit: each definition, the library and
/// each painted cell keep their checkpoint and local value; only save states change.
pub proof fn law_uncommitted_transaction_keeps_edits(
    defs: Seq<DefEntryView>,
    presets: Option<crate::definitions::PresetEntryView>,
    cells: Seq<EntryView>,
    request: u64,
    outcome: DenseDomainOutcome,
    i: int,
    j: int,
)
    requires
        !(outcome is Committed),
        0 <= i < defs.len(),
        0 <= j < cells.len(),
    ensures
        ({
            let d = crate::definitions::ov(definition_outcome(outcome));
            let after = crate::definitions::finished_definitions(defs, request, d);
            &&& after[i].base == defs[i].base
            &&& after[i].current == defs[i].current
            &&& presets matches Some(p) ==> crate::definitions::finished_presets(presets, request, d)->Some_0.base
                == p.base && crate::definitions::finished_presets(presets, request, d)->Some_0.current == p.current
        }),
        crate::coverage::finished_entries(cells, request, coverage_outcome(outcome))[j].base == cells[j].base,
        crate::coverage::finished_entries(cells, request, coverage_outcome(outcome))[j].current == cells[j].current,
{
}

} // verus!
