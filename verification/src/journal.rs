//! Decisions of the crash-recovery journal: which journal files are accepted, when the dirty
//! state is written or cleared again, and what the status line says.

use vstd::prelude::*;

use crate::project_store::SendOutcome;
use crate::text::{append_decimal, decimal};

verus! {

/// The journal schema this editor writes.
pub const JOURNAL_SCHEMA_VERSION: u32 = 13;

/// The oldest journal schema this editor still reads.
pub const OLDEST_SUPPORTED_JOURNAL_SCHEMA_VERSION: u32 = 12;

/// The edit revisions of every domain that the journal covers; a journal write is keyed by it.
#[derive(Clone, Copy, Debug, PartialEq, Eq, Structural)]
pub struct JournalRevision {
    pub atmosphere: u64,
    pub roads: u64,
    pub objects: u64,
    pub dense: u64,
}

/// Why a journal file that was read is refused.
#[derive(Clone, Copy, Debug, PartialEq, Eq, Structural)]
pub enum JournalHeaderError {
    /// Its schema version is outside the supported range.
    UnsupportedSchema(u32),
    /// It was written for another project database.
    DifferentProject,
}

/// Whether a schema version is one this editor reads.
pub open spec fn schema_supported(version: u32) -> bool {
    OLDEST_SUPPORTED_JOURNAL_SCHEMA_VERSION <= version <= JOURNAL_SCHEMA_VERSION
}

/// Checks the header of a journal file that was read: the schema version first, then whether it
/// belongs to the open project.
pub fn check_journal_header(schema_version: u32, same_project: bool) -> (r: Result<
    (),
    JournalHeaderError,
>)
    ensures
        !schema_supported(schema_version) ==> r == Err::<(), _>(
            JournalHeaderError::UnsupportedSchema(schema_version),
        ),
        schema_supported(schema_version) && !same_project ==> r == Err::<(), _>(
            JournalHeaderError::DifferentProject,
        ),
        r is Ok <==> schema_supported(schema_version) && same_project,
{
    if !(OLDEST_SUPPORTED_JOURNAL_SCHEMA_VERSION <= schema_version
        && schema_version <= JOURNAL_SCHEMA_VERSION) {
        Err(JournalHeaderError::UnsupportedSchema(schema_version))
    } else if !same_project {
        Err(JournalHeaderError::DifferentProject)
    } else {
        Ok(())
    }
}

/// What the journal worker is asked to do with the current dirty state.
#[derive(Clone, Copy, Debug, PartialEq, Eq, Structural)]
pub enum JournalDispatch {
    /// Nothing is dirty: remove the journal.
    Clear,
    /// Write the dirty state.
    Write,
}

/// How many records of each domain a restore brought back.
#[derive(Clone, Copy, Debug, PartialEq, Eq, Structural)]
pub struct RecoveredCounts {
    pub atmospheres: usize,
    pub roads: usize,
    pub objects: usize,
    pub dense: usize,
    pub definitions: usize,
    pub presets: usize,
}

/// The total number of recovered records.
pub open spec fn recovered_total(c: RecoveredCounts) -> int {
    c.atmospheres + c.roads + c.objects + c.dense + c.definitions + c.presets
}

/// The abstract state of the journal status.
pub struct JournalStatusView<R> {
    pub message: Seq<char>,
    pub pending_restore: Option<R>,
    pub last_dispatched_revision: Option<JournalRevision>,
    pub last_written_revision: Option<JournalRevision>,
    pub recovered_entries: nat,
}

/// The journal's status: its message, a recovery waiting to be applied, and which revisions
/// were handed to the worker and written. `R` is the recovered content.
pub struct EditorJournalStatus<R> {
    message: String,
    pending_restore: Option<R>,
    last_dispatched_revision: Option<JournalRevision>,
    last_written_revision: Option<JournalRevision>,
    recovered_entries: usize,
}

impl<R> View for EditorJournalStatus<R> {
    type V = JournalStatusView<R>;

    closed spec fn view(&self) -> JournalStatusView<R> {
        JournalStatusView {
            message: self.message@,
            pending_restore: self.pending_restore,
            last_dispatched_revision: self.last_dispatched_revision,
            last_written_revision: self.last_written_revision,
            recovered_entries: self.recovered_entries as nat,
        }
    }
}

/// The message after a journal with the given counts was loaded.
pub open spec fn recovering_message(objects: nat, dense: nat) -> Seq<char> {
    "recovering "@ + decimal(objects) + " object(s) and "@ + decimal(dense)
        + " environment coverage record(s)"@
}

/// The message after a restore.
pub open spec fn recovered_message(c: RecoveredCounts) -> Seq<char> {
    "recovered "@ + decimal(c.roads as nat) + " road records, "@ + decimal(c.objects as nat)
        + " object(s), "@ + decimal(c.dense as nat) + " coverage cells and "@ + decimal(
        c.definitions as nat,
    ) + " layer definitions and "@ + decimal(c.presets as nat) + " preset library"@
}

/// What is handed to the worker for a revision, given whether anything is dirty.
pub open spec fn dispatch_model<R>(s: JournalStatusView<R>, revision: JournalRevision, nothing_dirty: bool) -> Option<
    JournalDispatch,
> {
    if s.pending_restore is Some || s.last_dispatched_revision == Some(revision) {
        None
    } else if nothing_dirty {
        Some(JournalDispatch::Clear)
    } else {
        Some(JournalDispatch::Write)
    }
}

/// A revision that the worker accepted is not handed over again, whatever is dirty.
pub proof fn law_accepted_revision_not_repeated<R>(
    s: JournalStatusView<R>,
    revision: JournalRevision,
    nothing_dirty: bool,
)
    ensures
        dispatch_model(
            JournalStatusView { last_dispatched_revision: Some(revision), ..s },
            revision,
            nothing_dirty,
        ) is None,
{
}

/// After a failed write of the revision last handed over, that revision is due again unless a
/// restore is pending.
pub proof fn law_failed_write_is_retried<R>(
    s: JournalStatusView<R>,
    revision: JournalRevision,
    error: Seq<char>,
    nothing_dirty: bool,
)
    requires
        s.last_dispatched_revision == Some(revision),
        s.pending_restore is None,
    ensures
        dispatch_model(
            JournalStatusView {
                last_dispatched_revision: None,
                message: "journal write failed: "@ + error,
                ..s
            },
            revision,
            nothing_dirty,
        ) is Some,
{
}

/// Nothing is handed to the worker while a recovered journal waits to be restored, so the
/// journal on disk is not overwritten before its content is back in the editor.
pub proof fn law_pending_restore_blocks_writes<R>(
    s: JournalStatusView<R>,
    revision: JournalRevision,
    nothing_dirty: bool,
)
    requires
        s.pending_restore is Some,
    ensures
        dispatch_model(s, revision, nothing_dirty) is None,
{
}

fn text(s: &str) -> (r: String)
    ensures
        r@ == s@,
{
    s.to_owned()
}

impl<R> EditorJournalStatus<R> {
    /// A status before the worker has answered.
    pub fn new() -> (s: Self)
        ensures
            s@.message == Seq::<char>::empty(),
            s@.pending_restore is None,
            s@.last_dispatched_revision is None,
            s@.last_written_revision is None,
            s@.recovered_entries == 0,
    {
        EditorJournalStatus {
            message: String::new(),
            pending_restore: None,
            last_dispatched_revision: None,
            last_written_revision: None,
            recovered_entries: 0,
        }
    }

    /// The status line; before any message it says that the journal is starting.
    pub fn message(&self) -> (r: &str)
        ensures
            self@.message.len() == 0 ==> r@ == "journal starting"@,
            self@.message.len() != 0 ==> r@ == self@.message,
    {
        if self.message.as_str().is_empty() {
            "journal starting"
        } else {
            self.message.as_str()
        }
    }

    /// How many records the last restore brought back.
    pub fn recovered_entries(&self) -> (n: usize)
        ensures
            n == self@.recovered_entries,
    {
        self.recovered_entries
    }

    /// The recovery waiting to be applied.
    pub fn pending_restore(&self) -> (r: Option<&R>)
        ensures
            r matches Some(p) ==> self@.pending_restore == Some(*p),
            r is None <==> self@.pending_restore is None,
    {
        match &self.pending_restore {
            Some(p) => Some(p),
            None => None,
        }
    }

    /// The revision last handed to the worker.
    pub fn last_dispatched_revision(&self) -> (r: Option<JournalRevision>)
        ensures
            r == self@.last_dispatched_revision,
    {
        self.last_dispatched_revision
    }

    /// The revision the worker last wrote.
    pub fn last_written_revision(&self) -> (r: Option<JournalRevision>)
        ensures
            r == self@.last_written_revision,
    {
        self.last_written_revision
    }

    /// Takes in the journal that was loaded at start-up: a journal with content waits to be
    /// restored, an absent one leaves the journal clean, a failure is reported.
    pub fn loaded(&mut self, loaded: Result<Option<R>, String>, object_count: usize, dense_count: usize)
        ensures
            loaded matches Ok(Some(r)) ==> final(self)@ == (JournalStatusView {
                pending_restore: Some(r),
                message: recovering_message(object_count as nat, dense_count as nat),
                ..old(self)@
            }),
            loaded matches Ok(None) ==> final(self)@ == (JournalStatusView {
                message: "journal clean"@,
                ..old(self)@
            }),
            loaded matches Err(e) ==> final(self)@ == (JournalStatusView {
                message: "journal recovery failed: "@ + e@,
                ..old(self)@
            }),
    {
        match loaded {
            Ok(Some(recovery)) => {
                self.pending_restore = Some(recovery);
                let mut m = text("recovering ");
                append_decimal(&mut m, object_count as u64);
                m.append(" object(s) and ");
                append_decimal(&mut m, dense_count as u64);
                m.append(" environment coverage record(s)");
                self.message = m;
            },
            Ok(None) => {
                self.message = text("journal clean");
            },
            Err(error) => {
                let mut m = text("journal recovery failed: ");
                m.append(error.as_str());
                self.message = m;
            },
        }
    }

    /// Takes in the worker's answer to writing (or clearing) a revision. A failed write of the
    /// revision last handed over makes that revision due again.
    pub fn written(&mut self, revision: JournalRevision, result: Result<(), String>)
        ensures
            result is Ok ==> final(self)@ == (JournalStatusView {
                last_written_revision: Some(revision),
                message: "dirty journal current"@,
                ..old(self)@
            }),
            result matches Err(e) ==> final(self)@ == (JournalStatusView {
                last_dispatched_revision: if old(self)@.last_dispatched_revision == Some(revision) {
                    None
                } else {
                    old(self)@.last_dispatched_revision
                },
                message: "journal write failed: "@ + e@,
                ..old(self)@
            }),
    {
        match result {
            Ok(()) => {
                self.last_written_revision = Some(revision);
                self.message = text("dirty journal current");
            },
            Err(error) => {
                if self.last_dispatched_revision == Some(revision) {
                    self.last_dispatched_revision = None;
                }
                let mut m = text("journal write failed: ");
                m.append(error.as_str());
                self.message = m;
            },
        }
    }

    /// Notes that the worker is gone.
    pub fn worker_stopped(&mut self)
        ensures
            final(self)@ == (JournalStatusView { message: "journal worker stopped"@, ..old(self)@ }),
    {
        self.message = text("journal worker stopped");
    }

    /// Takes the recovery that waits to be applied.
    pub fn take_pending_restore(&mut self) -> (r: Option<R>)
        ensures
            r == old(self)@.pending_restore,
            final(self)@ == (JournalStatusView { pending_restore: None, ..old(self)@ }),
    {
        self.pending_restore.take()
    }

    /// Records the outcome of a restore. The undo history is to be cleared exactly when
    /// anything was recovered.
    pub fn finish_restore(&mut self, counts: RecoveredCounts) -> (clear_history: bool)
        requires
            recovered_total(counts) <= usize::MAX,
        ensures
            clear_history <==> recovered_total(counts) != 0,
            final(self)@ == (JournalStatusView {
                recovered_entries: recovered_total(counts) as nat,
                message: recovered_message(counts),
                ..old(self)@
            }),
    {
        let recovered = counts.atmospheres + counts.roads + counts.objects + counts.dense
            + counts.definitions + counts.presets;
        self.recovered_entries = recovered;
        let mut m = text("recovered ");
        append_decimal(&mut m, counts.roads as u64);
        m.append(" road records, ");
        append_decimal(&mut m, counts.objects as u64);
        m.append(" object(s), ");
        append_decimal(&mut m, counts.dense as u64);
        m.append(" coverage cells and ");
        append_decimal(&mut m, counts.definitions as u64);
        m.append(" layer definitions and ");
        append_decimal(&mut m, counts.presets as u64);
        m.append(" preset library");
        self.message = m;
        recovered != 0
    }

    /// What to hand the worker for the current revision: nothing while a restore is pending
    /// or when this revision was handed over already, a clear when nothing is dirty, and a
    /// write otherwise.
    pub fn dispatch_request(&self, revision: JournalRevision, nothing_dirty: bool) -> (r: Option<
        JournalDispatch,
    >)
        ensures
            r == dispatch_model(self@, revision, nothing_dirty),
    {
        if self.pending_restore.is_some() || self.last_dispatched_revision == Some(revision) {
            None
        } else if nothing_dirty {
            Some(JournalDispatch::Clear)
        } else {
            Some(JournalDispatch::Write)
        }
    }

    /// Records what became of handing a revision to the worker.
    pub fn dispatched(&mut self, revision: JournalRevision, outcome: SendOutcome)
        ensures
            final(self)@ == (match outcome {
                SendOutcome::Sent => JournalStatusView {
                    last_dispatched_revision: Some(revision),
                    ..old(self)@
                },
                SendOutcome::Full => old(self)@,
                SendOutcome::Disconnected => JournalStatusView {
                    message: "journal worker stopped"@,
                    ..old(self)@
                },
            }),
    {
        match outcome {
            SendOutcome::Sent => {
                self.last_dispatched_revision = Some(revision);
            },
            SendOutcome::Full => {},
            SendOutcome::Disconnected => {
                self.message = text("journal worker stopped");
            },
        }
    }
}

} // verus!
