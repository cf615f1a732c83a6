//! Undoable editor commands over objects and environment coverage, and the history operations
//! that replay them.

use vstd::prelude::*;

use crate::coverage::{
    copy_record, record_bytes, record_views, records_model, rv, same_tiles, CoverageDefinition,
    CoverageKey, CoverageView, CoverageWorkingSet, RecordView,
};
use crate::definitions::{
    bump_if, cv, definition_bytes, definition_changes, definition_size, environment_edit_error,
    environment_edited, has_space, install_changes, installed_presets, library_bytes, library_size,
    preset_edit_error, space_index, touch_if, ChecksView, DefinitionWorkingSet, DefinitionsView,
    EnvironmentDefinition, LibraryChecks,
};
use crate::presets::{merge_preset_changes, merged_changes, LibraryView, PresetLibrary};
use crate::history::{record_model, redone, undone, EditorHistory, HistoryEntry};
use crate::objects::{
    apply_model, capped, capped_add, capped_mul, held_bytes, revert_model, EditorObjectWorkingSet,
    ObjectCommand, ObjectTransformChange, ObjectsView, SourceObjectRecord,
};
use crate::stamps::EnvironmentCellRecord;

verus! {

/// An undoable edit: of objects; of the shared library, with its version before and after;
/// of a space's definition, with it and the library before and after; or a stroke of
/// environment coverage with the cells' coverage before and after it.
#[derive(Debug)]
pub enum EditorCommand {
    Object(ObjectCommand),
    Presets { before: PresetLibrary, after: PresetLibrary },
    Definition {
        before_presets: PresetLibrary,
        after_presets: PresetLibrary,
        before: EnvironmentDefinition,
        after: EnvironmentDefinition,
    },
    Environment { before: Vec<EnvironmentCellRecord>, after: Vec<EnvironmentCellRecord> },
}

/// The local library, once it is loaded.
pub open spec fn current_library(w: DefinitionsView) -> Option<LibraryView> {
    match w.presets {
        Some(e) => Some(e.current),
        None => None,
    }
}

/// Replaying a library change from `from` to `to`: only its authored changes are merged onto
/// the local library, which is then installed as an edit; refused when the merge or the edit
/// is. Gives the coverage, the definitions and whether it succeeded.
pub open spec fn preset_replay(
    c: CoverageView,
    w: DefinitionsView,
    from: LibraryView,
    to: LibraryView,
    checks: ChecksView,
    others_blocked: bool,
) -> (CoverageView, DefinitionsView, bool) {
    match merged_changes(current_library(w), from, to) {
        Err(_) => (c, w, false),
        Ok(p) => if preset_edit_error(w, c, p, checks, others_blocked) is None {
            (
                touch_if(install_changes(w.presets->Some_0, p), c),
                DefinitionsView {
                    presets: Some(installed_presets(w.presets->Some_0, p)),
                    revision: bump_if(install_changes(w.presets->Some_0, p), w.revision),
                    ..w
                },
                true,
            )
        } else {
            (c, w, false)
        },
    }
}

/// Replaying a definition change: the library change from `from` to `to` is merged as above,
/// and the definition installed with it as an edit; refused when the merge or the edit is.
pub open spec fn definition_replay(
    c: CoverageView,
    w: DefinitionsView,
    d: crate::definitions::DefinitionView,
    from: LibraryView,
    to: LibraryView,
    checks: ChecksView,
    others_blocked: bool,
) -> (CoverageView, DefinitionsView, bool) {
    match merged_changes(current_library(w), from, to) {
        Err(_) => (c, w, false),
        Ok(p) => if environment_edit_error(w, c, d, p, checks, others_blocked) is None {
            (
                touch_if(definition_changes(w.entries, d), touch_if(install_changes(w.presets->Some_0, p), c)),
                environment_edited(w, d, p),
                true,
            )
        } else {
            (c, w, false)
        },
    }
}

/// The bytes the records of a stroke are accounted with.
pub open spec fn stroke_bytes(records: Seq<RecordView>) -> int
    decreases records.len(),
{
    if records.len() == 0 {
        0
    } else {
        stroke_bytes(records.drop_last()) + record_bytes(records.last())
    }
}

/// The estimated memory of a command: the command itself and what it holds, saturating at the
/// largest `usize`.
pub open spec fn editor_command_bytes(command: EditorCommand) -> usize {
    capped(
        vstd::layout::size_of::<EditorCommand>() + match command {
            EditorCommand::Object(c) => held_bytes(c) as int,
            EditorCommand::Presets { before, after } => library_bytes(before@) + library_bytes(after@),
            EditorCommand::Definition { before_presets, after_presets, before, after } => library_bytes(
                before_presets@,
            ) + library_bytes(after_presets@) + definition_bytes(before@) + definition_bytes(after@),
            EditorCommand::Environment { before, after } => stroke_bytes(record_views(before@))
                + stroke_bytes(record_views(after@)),
        },
    )
}

/// What applying a command does to the objects, the coverage and the definitions, and
/// whether it succeeded. `checks` are the compiler's verdicts on the library the command
/// installs.
pub open spec fn editor_apply_model(
    command: EditorCommand,
    objects: ObjectsView,
    dense: CoverageView,
    environment: DefinitionsView,
    definitions: Seq<CoverageDefinition>,
    checks: ChecksView,
    others_blocked: bool,
) -> (ObjectsView, CoverageView, DefinitionsView, bool) {
    match command {
        EditorCommand::Object(c) => {
            let r = apply_model(c, objects);
            (r.0, dense, environment, r.1)
        },
        EditorCommand::Presets { before, after } => {
            let r = preset_replay(dense, environment, before@, after@, checks, others_blocked);
            (objects, r.0, r.1, r.2)
        },
        EditorCommand::Definition { before_presets, after_presets, after, .. } => {
            let r = definition_replay(
                dense,
                environment,
                after@,
                before_presets@,
                after_presets@,
                checks,
                others_blocked,
            );
            (objects, r.0, r.1, r.2)
        },
        EditorCommand::Environment { after, .. } => {
            let r = records_model(dense, definitions, record_views(after@));
            (objects, r.0, environment, r.1)
        },
    }
}

/// What reverting a command does to the objects, the coverage and the definitions, and
/// whether it succeeded.
pub open spec fn editor_revert_model(
    command: EditorCommand,
    objects: ObjectsView,
    dense: CoverageView,
    environment: DefinitionsView,
    definitions: Seq<CoverageDefinition>,
    checks: ChecksView,
    others_blocked: bool,
) -> (ObjectsView, CoverageView, DefinitionsView, bool) {
    match command {
        EditorCommand::Object(c) => {
            let r = revert_model(c, objects);
            (r.0, dense, environment, r.1)
        },
        EditorCommand::Presets { before, after } => {
            let r = preset_replay(dense, environment, after@, before@, checks, others_blocked);
            (objects, r.0, r.1, r.2)
        },
        EditorCommand::Definition { before_presets, after_presets, before, .. } => {
            let r = definition_replay(
                dense,
                environment,
                before@,
                after_presets@,
                before_presets@,
                checks,
                others_blocked,
            );
            (objects, r.0, r.1, r.2)
        },
        EditorCommand::Environment { before, .. } => {
            let r = records_model(dense, definitions, record_views(before@));
            (objects, r.0, environment, r.1)
        },
    }
}

proof fn lemma_stroke_bytes_nonnegative(records: Seq<RecordView>)
    ensures
        stroke_bytes(records) >= 0,
    decreases records.len(),
{
    if records.len() > 0 {
        lemma_stroke_bytes_nonnegative(records.drop_last());
        crate::coverage::lemma_record_bytes_nonnegative(records.last());
    }
}

fn stroke_bytes_of(records: &Vec<EnvironmentCellRecord>) -> (n: usize)
    ensures
        n == capped(stroke_bytes(record_views(records@))),
{
    let mut n: usize = 0;
    let mut i: usize = 0;
    while i < records.len()
        invariant
            i <= records@.len(),
            n == capped(stroke_bytes(record_views(records@.take(i as int)))),
            stroke_bytes(record_views(records@.take(i as int))) >= 0,
        decreases records@.len() - i,
    {
        proof {
            assert(record_views(records@.take(i + 1)).drop_last() =~= record_views(records@.take(i as int)));
            assert(record_views(records@.take(i + 1)).last() == rv(records@[i as int]));
            crate::coverage::lemma_record_bytes_nonnegative(rv(records@[i as int]));
        }
        n = capped_add(n, crate::coverage::dense_record_bytes(&records[i]));
        i = i + 1;
    }
    proof {
        assert(records@.take(i as int) =~= records@);
    }
    n
}

fn same_stroke(a: &Vec<EnvironmentCellRecord>, b: &Vec<EnvironmentCellRecord>) -> (r: bool)
    ensures
        r == (record_views(a@) == record_views(b@)),
{
    if a.len() != b.len() {
        proof {
            assert(record_views(a@).len() != record_views(b@).len());
        }
        return false;
    }
    let mut i: usize = 0;
    while i < a.len()
        invariant
            a@.len() == b@.len(),
            i <= a@.len(),
            forall|k: int| 0 <= k < i ==> record_views(a@)[k] == record_views(b@)[k],
        decreases a@.len() - i,
    {
        let x = &a[i];
        let y = &b[i];
        let same = x.space == y.space && x.cell == y.cell && x.source_revision == y.source_revision
            && x.definition_revision == y.definition_revision && same_tiles(&x.tiles, &y.tiles);
        if !same {
            proof {
                assert(record_views(a@)[i as int] != record_views(b@)[i as int]);
            }
            return false;
        }
        proof {
            assert(rv(*x) == rv(*y));
        }
        i = i + 1;
    }
    proof {
        assert(record_views(a@) =~= record_views(b@));
    }
    true
}

impl EditorCommand {
    /// The estimated memory of the command, saturating at the largest `usize`.
    pub fn estimated_bytes(&self) -> (n: usize)
        ensures
            n == editor_command_bytes(*self),
    {
        let own = core::mem::size_of::<EditorCommand>();
        let held = match self {
            EditorCommand::Object(c) => match c {
                ObjectCommand::Create { .. } => core::mem::size_of::<SourceObjectRecord>(),
                ObjectCommand::Transform { changes } => capped_mul(
                    changes.len(),
                    core::mem::size_of::<ObjectTransformChange>(),
                ),
                ObjectCommand::Delete { objects } => capped_mul(
                    objects.len(),
                    core::mem::size_of::<SourceObjectRecord>(),
                ),
            },
            EditorCommand::Presets { before, after } => {
                let a = library_size(before);
                let b = library_size(after);
                proof {
                    crate::definitions::lemma_capped_sum(library_bytes(before@), library_bytes(after@));
                }
                capped_add(a, b)
            },
            EditorCommand::Definition { before_presets, after_presets, before, after } => {
                let a = library_size(before_presets);
                let b = library_size(after_presets);
                let c = definition_size(before);
                let d = definition_size(after);
                proof {
                    crate::definitions::lemma_capped_sum(library_bytes(before_presets@), library_bytes(after_presets@));
                    crate::definitions::lemma_capped_sum(
                        library_bytes(before_presets@) + library_bytes(after_presets@),
                        definition_bytes(before@),
                    );
                    crate::definitions::lemma_capped_sum(
                        library_bytes(before_presets@) + library_bytes(after_presets@) + definition_bytes(before@),
                        definition_bytes(after@),
                    );
                }
                capped_add(capped_add(capped_add(a, b), c), d)
            },
            EditorCommand::Environment { before, after } => {
                proof {
                    lemma_stroke_bytes_nonnegative(record_views(before@));
                    lemma_stroke_bytes_nonnegative(record_views(after@));
                }
                capped_add(stroke_bytes_of(before), stroke_bytes_of(after))
            },
        };
        proof {
            match self {
                EditorCommand::Object(c) => {
                    assert(held == capped(held_bytes(*c) as int));
                },
                EditorCommand::Environment { before, after } => {
                    assert(held == capped(
                        stroke_bytes(record_views(before@)) + stroke_bytes(record_views(after@)),
                    ));
                },
                _ => {},
            }
        }
        capped_add(own, held)
    }

    /// Applies the command: an object edit to the objects, a library or definition edit as a
    /// merge of its changes onto the local library with the definition installed, a stroke's
    /// later coverage to the coverage working set; reports whether it could. `checks` are the
    /// compiler's verdicts on the library the command installs.
    pub fn apply(
        &self,
        objects: &mut EditorObjectWorkingSet,
        dense: &mut CoverageWorkingSet,
        environment: &mut DefinitionWorkingSet,
        definitions: &[CoverageDefinition],
        checks: &LibraryChecks,
        others_blocked: bool,
    ) -> (applied: bool)
        requires
            old(objects).wf(),
            old(dense).wf(),
            old(environment).wf(),
        ensures
            final(objects).wf(),
            final(dense).wf(),
            final(environment).wf(),
            (final(objects)@, final(dense)@, final(environment)@, applied) == editor_apply_model(
                *self,
                old(objects)@,
                old(dense)@,
                old(environment)@,
                definitions@,
                cv(*checks),
                others_blocked,
            ),
    {
        match self {
            EditorCommand::Object(c) => c.apply(objects),
            EditorCommand::Presets { before, after } => replay_presets(dense, environment, before, after, checks, others_blocked),
            EditorCommand::Definition { before_presets, after_presets, after, .. } => replay_definition(
                dense,
                environment,
                after,
                before_presets,
                after_presets,
                checks,
                others_blocked,
            ),
            EditorCommand::Environment { after, .. } => dense.apply_environment_records(
                after.as_slice(),
                definitions,
            ).is_ok(),
        }
    }

    /// Reverts the command: an object edit in the objects, a library or definition edit by
    /// merging its changes back, a stroke by writing back the earlier coverage; reports whether
    /// it could.
    pub fn revert(
        &self,
        objects: &mut EditorObjectWorkingSet,
        dense: &mut CoverageWorkingSet,
        environment: &mut DefinitionWorkingSet,
        definitions: &[CoverageDefinition],
        checks: &LibraryChecks,
        others_blocked: bool,
    ) -> (reverted: bool)
        requires
            old(objects).wf(),
            old(dense).wf(),
            old(environment).wf(),
        ensures
            final(objects).wf(),
            final(dense).wf(),
            final(environment).wf(),
            (final(objects)@, final(dense)@, final(environment)@, reverted) == editor_revert_model(
                *self,
                old(objects)@,
                old(dense)@,
                old(environment)@,
                definitions@,
                cv(*checks),
                others_blocked,
            ),
    {
        match self {
            EditorCommand::Object(c) => c.revert(objects),
            EditorCommand::Presets { before, after } => replay_presets(dense, environment, after, before, checks, others_blocked),
            EditorCommand::Definition { before_presets, after_presets, before, .. } => replay_definition(
                dense,
                environment,
                before,
                after_presets,
                before_presets,
                checks,
                others_blocked,
            ),
            EditorCommand::Environment { before, .. } => dense.apply_environment_records(
                before.as_slice(),
                definitions,
            ).is_ok(),
        }
    }
}

fn replay_presets(
    dense: &mut CoverageWorkingSet,
    environment: &mut DefinitionWorkingSet,
    from: &PresetLibrary,
    to: &PresetLibrary,
    checks: &LibraryChecks,
    others_blocked: bool,
) -> (done: bool)
    requires
        old(environment).wf(),
        old(dense).wf(),
    ensures
        final(environment).wf(),
        final(dense).wf(),
        (final(dense)@, final(environment)@, done) == preset_replay(
            old(dense)@,
            old(environment)@,
            from@,
            to@,
            cv(*checks),
            others_blocked,
        ),
{
    let merged = merge_preset_changes(environment.presets(), from, to);
    match merged {
        Err(_) => false,
        Ok(p) => environment.apply_presets(&p, checks, others_blocked, dense).is_ok(),
    }
}

fn replay_definition(
    dense: &mut CoverageWorkingSet,
    environment: &mut DefinitionWorkingSet,
    definition: &EnvironmentDefinition,
    from: &PresetLibrary,
    to: &PresetLibrary,
    checks: &LibraryChecks,
    others_blocked: bool,
) -> (done: bool)
    requires
        old(environment).wf(),
        old(dense).wf(),
    ensures
        final(environment).wf(),
        final(dense).wf(),
        (final(dense)@, final(environment)@, done) == definition_replay(
            old(dense)@,
            old(environment)@,
            definition@,
            from@,
            to@,
            cv(*checks),
            others_blocked,
        ),
{
    let merged = merge_preset_changes(environment.presets(), from, to);
    match merged {
        Err(_) => false,
        Ok(p) => environment.apply_environment(definition, &p, checks, others_blocked, dense).is_ok(),
    }
}

/// The cells whose earlier coverage a command holds.
pub open spec fn command_cells(command: EditorCommand) -> Seq<CoverageKey> {
    match command {
        EditorCommand::Environment { before, .. } => before@.map_values(
            |r: EnvironmentCellRecord| (r.space, r.cell),
        ),
        _ => Seq::empty(),
    }
}

/// Whether some command of the entries holds earlier coverage of the cell.
pub open spec fn holds_cell(entries: Seq<HistoryEntry<EditorCommand>>, k: CoverageKey) -> bool {
    exists|i: int| 0 <= i < entries.len() && command_cells(#[trigger] entries[i].command).contains(k)
}

fn collect_cells(entries: &Vec<HistoryEntry<EditorCommand>>, out: &mut Vec<CoverageKey>)
    ensures
        forall|k: CoverageKey|
            #![trigger final(out)@.contains(k)]
            final(out)@.contains(k) <==> (old(out)@.contains(k) || holds_cell(entries@, k)),
{
    let mut i: usize = 0;
    while i < entries.len()
        invariant
            i <= entries@.len(),
            forall|k: CoverageKey|
                #![trigger out@.contains(k)]
                out@.contains(k) <==> (old(out)@.contains(k) || holds_cell(entries@.take(i as int), k)),
        decreases entries@.len() - i,
    {
        let ghost before = out@;
        let ghost cmd_cells = command_cells(entries@[i as int].command);
        match &entries[i].command {
            EditorCommand::Environment { before: records, .. } => {
                let mut j: usize = 0;
                while j < records.len()
                    invariant
                        j <= records@.len(),
                        forall|k: CoverageKey|
                            #![trigger out@.contains(k)]
                            out@.contains(k) <==> (before.contains(k) || records@.take(j as int).map_values(
                                |r: EnvironmentCellRecord| (r.space, r.cell),
                            ).contains(k)),
                    decreases records@.len() - j,
                {
                    let ghost prior = out@;
                    out.push((records[j].space, records[j].cell));
                    proof {
                        let cells_next = records@.take(j + 1).map_values(
                            |r: EnvironmentCellRecord| (r.space, r.cell),
                        );
                        let cells_prev = records@.take(j as int).map_values(
                            |r: EnvironmentCellRecord| (r.space, r.cell),
                        );
                        assert(cells_next =~= cells_prev.push((records@[j as int].space, records@[j as int].cell)));
                        assert forall|k: CoverageKey|
                            out@.contains(k) <==> (before.contains(k) || cells_next.contains(k)) by {
                            vstd::seq_lib::lemma_seq_contains_after_push(prior, (records@[j as int].space, records@[j as int].cell), k);
                            vstd::seq_lib::lemma_seq_contains_after_push(cells_prev, (records@[j as int].space, records@[j as int].cell), k);
                        }
                    }
                    j = j + 1;
                }
                proof {
                    assert(records@.take(j as int) =~= records@);
                    assert(cmd_cells == records@.map_values(|r: EnvironmentCellRecord| (r.space, r.cell)));
                    assert forall|k: CoverageKey| out@.contains(k) <==> (before.contains(k) || cmd_cells.contains(k)) by {
                        assert(records@.take(j as int).map_values(|r: EnvironmentCellRecord| (r.space, r.cell)) == cmd_cells);
                    }
                }
            },
            _ => {
                proof {
                    assert(cmd_cells =~= Seq::<CoverageKey>::empty());
                    assert forall|k: CoverageKey| out@.contains(k) <==> (before.contains(k) || cmd_cells.contains(k)) by {}
                }
            },
        }
        proof {
            let next = entries@.take(i + 1);
            assert forall|k: CoverageKey|
                out@.contains(k) <==> (old(out)@.contains(k) || holds_cell(next, k)) by {
                if holds_cell(entries@.take(i as int), k) {
                    let q = choose|q: int|
                        0 <= q < i && command_cells(#[trigger] entries@.take(i as int)[q].command).contains(k);
                    assert(next[q] == entries@.take(i as int)[q]);
                }
                if holds_cell(next, k) {
                    let q = choose|q: int| 0 <= q < i + 1 && command_cells(#[trigger] next[q].command).contains(k);
                    if q < i {
                        assert(entries@.take(i as int)[q] == next[q]);
                    } else {
                        assert(next[q] == entries@[i as int]);
                    }
                }
                if out@.contains(k) && !before.contains(k) {
                    assert(next[i as int] == entries@[i as int]);
                    assert(command_cells(next[i as int].command).contains(k));
                }
            }
        }
        i = i + 1;
    }
    proof {
        assert(entries@.take(i as int) =~= entries@);
    }
}

impl EditorHistory<EditorCommand> {
    /// Records a stroke of environment coverage, unless it changed nothing.
    pub fn record_environment_stroke(
        &mut self,
        before: Vec<EnvironmentCellRecord>,
        after: Vec<EnvironmentCellRecord>,
    ) -> (recorded: bool)
        requires
            old(self).wf(),
        ensures
            final(self).wf(),
            recorded == (record_views(before@) != record_views(after@)),
            !recorded ==> final(self)@ == old(self)@,
            recorded ==> final(self)@ == record_model(
                old(self)@,
                EditorCommand::Environment { before, after },
                editor_command_bytes(EditorCommand::Environment { before, after }) as nat,
            ),
    {
        if same_stroke(&before, &after) {
            return false;
        }
        let command = EditorCommand::Environment { before, after };
        let bytes = command.estimated_bytes();
        self.record(command, bytes);
        true
    }

    /// The cells whose earlier coverage some undoable or redoable stroke holds; the coverage
    /// working set keeps them while the history may need them.
    pub fn environment_cells(&self) -> (cells: Vec<CoverageKey>)
        ensures
            forall|k: CoverageKey|
                cells@.contains(k) <==> (holds_cell(self@.undo, k) || holds_cell(self@.redo, k)),
    {
        let mut cells: Vec<CoverageKey> = Vec::new();
        let ghost empty = cells@;
        collect_cells(self.undo_entries(), &mut cells);
        let ghost mid = cells@;
        collect_cells(self.redo_entries(), &mut cells);
        proof {
            assert forall|k: CoverageKey|
                cells@.contains(k) <==> (holds_cell(self@.undo, k) || holds_cell(self@.redo, k)) by {
                assert(!empty.contains(k));
            }
        }
        cells
    }

    /// Reverts the newest undoable command; when that succeeds it moves to the redo stack,
    /// otherwise nothing changes in the history. `checks` are the compiler's verdicts on the
    /// library the command's revert installs.
    pub fn undo(
        &mut self,
        objects: &mut EditorObjectWorkingSet,
        dense: &mut CoverageWorkingSet,
        environment: &mut DefinitionWorkingSet,
        definitions: &[CoverageDefinition],
        checks: &LibraryChecks,
        others_blocked: bool,
    ) -> (done: bool)
        requires
            old(self).wf(),
            old(objects).wf(),
            old(dense).wf(),
            old(environment).wf(),
        ensures
            final(self).wf(),
            final(objects).wf(),
            final(dense).wf(),
            final(environment).wf(),
            old(self)@.undo.len() == 0 ==> !done && final(self)@ == old(self)@ && final(objects)@
                == old(objects)@ && final(dense)@ == old(dense)@ && final(environment)@ == old(environment)@,
            old(self)@.undo.len() > 0 ==> (final(objects)@, final(dense)@, final(environment)@, done)
                == editor_revert_model(
                old(self)@.undo.last().command,
                old(objects)@,
                old(dense)@,
                old(environment)@,
                definitions@,
                cv(*checks),
                others_blocked,
            ),
            done ==> final(self)@ == undone(old(self)@),
            !done ==> final(self)@ == old(self)@,
    {
        match self.take_undo() {
            None => false,
            Some(entry) => {
                proof {
                    assert(old(self)@.undo.drop_last().push(entry) =~= old(self)@.undo);
                }
                let reverted = entry.command.revert(objects, dense, environment, definitions, checks, others_blocked);
                self.finish_undo(entry, reverted);
                reverted
            },
        }
    }

    /// Applies the newest redoable command again; when that succeeds it moves back to the undo
    /// stack, otherwise nothing changes in the history.
    pub fn redo(
        &mut self,
        objects: &mut EditorObjectWorkingSet,
        dense: &mut CoverageWorkingSet,
        environment: &mut DefinitionWorkingSet,
        definitions: &[CoverageDefinition],
        checks: &LibraryChecks,
        others_blocked: bool,
    ) -> (done: bool)
        requires
            old(self).wf(),
            old(objects).wf(),
            old(dense).wf(),
            old(environment).wf(),
        ensures
            final(self).wf(),
            final(objects).wf(),
            final(dense).wf(),
            final(environment).wf(),
            old(self)@.redo.len() == 0 ==> !done && final(self)@ == old(self)@ && final(objects)@
                == old(objects)@ && final(dense)@ == old(dense)@ && final(environment)@ == old(environment)@,
            old(self)@.redo.len() > 0 ==> (final(objects)@, final(dense)@, final(environment)@, done)
                == editor_apply_model(
                old(self)@.redo.last().command,
                old(objects)@,
                old(dense)@,
                old(environment)@,
                definitions@,
                cv(*checks),
                others_blocked,
            ),
            done ==> final(self)@ == redone(old(self)@),
            !done ==> final(self)@ == old(self)@,
    {
        match self.take_redo() {
            None => false,
            Some(entry) => {
                proof {
                    assert(old(self)@.redo.drop_last().push(entry) =~= old(self)@.redo);
                }
                let applied = entry.command.apply(objects, dense, environment, definitions, checks, others_blocked);
                self.finish_redo(entry, applied);
                applied
            },
        }
    }

    /// Installs an edited library and records the change, unless it changed nothing; refused
    /// as `apply_presets` refuses it, with the history unchanged.
    pub fn edit_presets(
        &mut self,
        environment: &mut DefinitionWorkingSet,
        replacement: &PresetLibrary,
        checks: &LibraryChecks,
        others_blocked: bool,
        dense: &mut CoverageWorkingSet,
    ) -> (r: Result<(), String>)
        requires
            old(self).wf(),
            old(environment).wf(),
        ensures
            final(self).wf(),
            final(environment).wf(),
            final(dense).wf() == old(dense).wf(),
            match r {
                Ok(_) => {
                    let p = old(environment)@.presets->Some_0;
                    &&& preset_edit_error(old(environment)@, old(dense)@, replacement@, cv(*checks), others_blocked) is None
                    &&& final(environment)@ == (DefinitionsView {
                        presets: Some(installed_presets(p, replacement@)),
                        revision: bump_if(install_changes(p, replacement@), old(environment)@.revision),
                        ..old(environment)@
                    })
                    &&& final(dense)@ == touch_if(install_changes(p, replacement@), old(dense)@)
                    &&& if p.current != installed_presets(p, replacement@).current {
                        exists|before: PresetLibrary, after: PresetLibrary|
                            before@ == p.current && after@ == installed_presets(p, replacement@).current
                                && #[trigger] final(self)@ == record_model(
                                old(self)@,
                                EditorCommand::Presets { before, after },
                                editor_command_bytes(EditorCommand::Presets { before, after }) as nat,
                            )
                    } else {
                        final(self)@ == old(self)@
                    }
                },
                Err(e) => preset_edit_error(old(environment)@, old(dense)@, replacement@, cv(*checks), others_blocked)
                    == Some(e@) && final(environment)@ == old(environment)@ && final(dense)@ == old(dense)@
                    && final(self)@ == old(self)@,
            },
    {
        let before = match environment.presets() {
            None => {
                return Err(String::from_str("Presets are still loading"));
            },
            Some(p) => p.duplicate(),
        };
        match environment.apply_presets(replacement, checks, others_blocked, dense) {
            Err(e) => {
                return Err(e);
            },
            Ok(()) => {},
        }
        let after = match environment.presets() {
            Some(p) => p.duplicate(),
            None => {
                proof {
                    assert(false);
                }
                return Ok(());
            },
        };
        if !before.same_as(&after) {
            let command = EditorCommand::Presets { before, after };
            let bytes = command.estimated_bytes();
            self.record(command, bytes);
        }
        Ok(())
    }

    /// Installs an edited definition of a loaded space with the library its layers use, and
    /// records the change, unless it changed nothing; refused (with nothing changed) for an
    /// unloaded space, before the library loads, or as `apply_environment` refuses it.
    pub fn edit_environment(
        &mut self,
        environment: &mut DefinitionWorkingSet,
        replacement: &EnvironmentDefinition,
        presets: &PresetLibrary,
        checks: &LibraryChecks,
        others_blocked: bool,
        dense: &mut CoverageWorkingSet,
    ) -> (r: Result<(), String>)
        requires
            old(self).wf(),
            old(environment).wf(),
        ensures
            final(self).wf(),
            final(environment).wf(),
            final(dense).wf() == old(dense).wf(),
            match r {
                Ok(_) => {
                    let w = old(environment)@;
                    let w1 = environment_edited(w, replacement@, presets@);
                    let i = space_index(w.entries, replacement.space);
                    &&& has_space(w.entries, replacement.space)
                    &&& environment_edit_error(w, old(dense)@, replacement@, presets@, cv(*checks), others_blocked) is None
                    &&& final(environment)@ == w1
                    &&& final(dense)@ == touch_if(
                        definition_changes(w.entries, replacement@),
                        touch_if(install_changes(w.presets->Some_0, presets@), old(dense)@),
                    )
                    &&& if w.entries[i].current != w1.entries[i].current || w.presets->Some_0.current
                        != w1.presets->Some_0.current {
                        exists|bp: PresetLibrary, ap: PresetLibrary, b: EnvironmentDefinition, a: EnvironmentDefinition|
                            bp@ == w.presets->Some_0.current && ap@ == w1.presets->Some_0.current
                                && b@ == w.entries[i].current && a@ == w1.entries[i].current
                                && #[trigger] final(self)@ == record_model(
                                old(self)@,
                                EditorCommand::Definition { before_presets: bp, after_presets: ap, before: b, after: a },
                                editor_command_bytes(
                                    EditorCommand::Definition { before_presets: bp, after_presets: ap, before: b, after: a },
                                ) as nat,
                            )
                    } else {
                        final(self)@ == old(self)@
                    }
                },
                Err(e) => final(environment)@ == old(environment)@ && final(dense)@ == old(dense)@ && final(self)@
                    == old(self)@ && e@ == (if !has_space(old(environment)@.entries, replacement.space) {
                    "Environment is still loading"@
                } else if old(environment)@.presets is None {
                    "Presets are still loading"@
                } else {
                    environment_edit_error(
                        old(environment)@,
                        old(dense)@,
                        replacement@,
                        presets@,
                        cv(*checks),
                        others_blocked,
                    )->Some_0
                }) && (has_space(old(environment)@.entries, replacement.space) && old(environment)@.presets is Some
                    ==> environment_edit_error(
                    old(environment)@,
                    old(dense)@,
                    replacement@,
                    presets@,
                    cv(*checks),
                    others_blocked,
                ) is Some),
            },
    {
        let space = replacement.space;
        let before = match environment.definition(space) {
            None => {
                return Err(String::from_str("Environment is still loading"));
            },
            Some(d) => d.duplicate(),
        };
        let before_presets = match environment.presets() {
            None => {
                return Err(String::from_str("Presets are still loading"));
            },
            Some(p) => p.duplicate(),
        };
        match environment.apply_environment(replacement, presets, checks, others_blocked, dense) {
            Err(e) => {
                return Err(e);
            },
            Ok(()) => {},
        }
        let after = match environment.definition(space) {
            Some(d) => d.duplicate(),
            None => {
                proof {
                    assert(false);
                }
                return Ok(());
            },
        };
        let after_presets = match environment.presets() {
            Some(p) => p.duplicate(),
            None => {
                proof {
                    assert(false);
                }
                return Ok(());
            },
        };
        if !before.same_as(&after) || !before_presets.same_as(&after_presets) {
            let command = EditorCommand::Definition { before_presets, after_presets, before, after };
            let bytes = command.estimated_bytes();
            self.record(command, bytes);
        }
        Ok(())
    }

    /// Installs an edited definition with the local library unchanged (see
    /// `edit_environment`); refused before the library loads.
    pub fn edit_definition(
        &mut self,
        environment: &mut DefinitionWorkingSet,
        replacement: &EnvironmentDefinition,
        checks: &LibraryChecks,
        others_blocked: bool,
        dense: &mut CoverageWorkingSet,
    ) -> (r: Result<(), String>)
        requires
            old(self).wf(),
            old(environment).wf(),
        ensures
            final(self).wf(),
            final(environment).wf(),
            final(dense).wf() == old(dense).wf(),
            old(environment)@.presets is None ==> r == Err::<(), String>(r->Err_0) && r->Err_0@
                == "Presets are still loading"@ && final(environment)@ == old(environment)@ && final(dense)@
                == old(dense)@ && final(self)@ == old(self)@,
            old(environment)@.presets is Some ==> (r is Ok <==> (has_space(old(environment)@.entries, replacement.space)
                && environment_edit_error(
                old(environment)@,
                old(dense)@,
                replacement@,
                old(environment)@.presets->Some_0.current,
                cv(*checks),
                others_blocked,
            ) is None)),
            r is Ok ==> final(environment)@ == environment_edited(
                old(environment)@,
                replacement@,
                old(environment)@.presets->Some_0.current,
            ),
            r is Err ==> final(environment)@ == old(environment)@ && final(dense)@ == old(dense)@ && final(self)@
                == old(self)@,
    {
        let presets = match environment.presets() {
            None => {
                return Err(String::from_str("Presets are still loading"));
            },
            Some(p) => p.duplicate(),
        };
        self.edit_environment(environment, replacement, &presets, checks, others_blocked, dense)
    }
}

} // verus!
