use yarra_editor::journal::{
    check_journal_header, EditorJournalStatus, JournalDispatch, JournalHeaderError,
    JournalRevision, RecoveredCounts,
};
use yarra_editor::project_store::SendOutcome;

fn revision(objects: u64) -> JournalRevision {
    JournalRevision { atmosphere: 0, roads: 0, objects, dense: 0 }
}

#[test]
fn journal_headers_are_checked_for_schema_then_project() {
    assert_eq!(check_journal_header(13, true), Ok(()));
    assert_eq!(check_journal_header(12, true), Ok(()));
    assert_eq!(check_journal_header(11, true), Err(JournalHeaderError::UnsupportedSchema(11)));
    assert_eq!(check_journal_header(14, false), Err(JournalHeaderError::UnsupportedSchema(14)));
    assert_eq!(check_journal_header(13, false), Err(JournalHeaderError::DifferentProject));
}

#[test]
fn journal_status_reports_loading_and_writing() {
    let mut status: EditorJournalStatus<Vec<u8>> = EditorJournalStatus::new();
    assert_eq!(status.message(), "journal starting");
    status.loaded(Ok(None), 0, 0);
    assert_eq!(status.message(), "journal clean");
    status.loaded(Err("broken".into()), 0, 0);
    assert_eq!(status.message(), "journal recovery failed: broken");
    status.loaded(Ok(Some(vec![1, 2])), 2, 13);
    assert_eq!(
        status.message(),
        "recovering 2 object(s) and 13 environment coverage record(s)"
    );
    assert_eq!(status.pending_restore(), Some(&vec![1, 2]));
    status.written(revision(4), Ok(()));
    assert_eq!(status.last_written_revision(), Some(revision(4)));
    assert_eq!(status.message(), "dirty journal current");
}

#[test]
fn journal_dispatch_waits_for_restore_and_skips_repeated_revisions() {
    let mut status: EditorJournalStatus<u8> = EditorJournalStatus::new();
    status.loaded(Ok(Some(7)), 1, 0);
    assert_eq!(status.dispatch_request(revision(1), false), None);
    assert_eq!(status.take_pending_restore(), Some(7));
    assert_eq!(status.dispatch_request(revision(1), false), Some(JournalDispatch::Write));
    assert_eq!(status.dispatch_request(revision(1), true), Some(JournalDispatch::Clear));
    status.dispatched(revision(1), SendOutcome::Full);
    assert_eq!(status.dispatch_request(revision(1), false), Some(JournalDispatch::Write));
    status.dispatched(revision(1), SendOutcome::Sent);
    assert_eq!(status.last_dispatched_revision(), Some(revision(1)));
    assert_eq!(status.dispatch_request(revision(1), false), None);
    assert_eq!(status.dispatch_request(revision(2), false), Some(JournalDispatch::Write));
    status.written(revision(1), Err("disk full".into()));
    assert_eq!(status.message(), "journal write failed: disk full");
    assert_eq!(status.last_dispatched_revision(), None);
    assert_eq!(status.dispatch_request(revision(1), false), Some(JournalDispatch::Write));
    status.dispatched(revision(1), SendOutcome::Disconnected);
    assert_eq!(status.message(), "journal worker stopped");
}

#[test]
fn journal_restore_counts_every_domain() {
    let mut status: EditorJournalStatus<u8> = EditorJournalStatus::new();
    let nothing = RecoveredCounts {
        atmospheres: 0,
        roads: 0,
        objects: 0,
        dense: 0,
        definitions: 0,
        presets: 0,
    };
    assert!(!status.finish_restore(nothing));
    assert_eq!(status.recovered_entries(), 0);
    let counts = RecoveredCounts {
        atmospheres: 2,
        roads: 3,
        objects: 1,
        dense: 10,
        definitions: 1,
        presets: 1,
    };
    assert!(status.finish_restore(counts));
    assert_eq!(status.recovered_entries(), 18);
    assert_eq!(
        status.message(),
        "recovered 3 road records, 1 object(s), 10 coverage cells and 1 layer definitions and 1 preset library"
    );
}
