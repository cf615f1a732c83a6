use yarra_editor::navigation::{
    push_bounded, NavigationPage, NavigationRequestKind, ProjectNavigationStore, MAX_CURSOR_HISTORY,
};
use yarra_editor::project_store::SendOutcome;
use yarra_editor::world::WorldSpaceId;

type Store = ProjectNavigationStore<u32, u32, &'static str, &'static str>;

#[test]
fn cursor_history_is_bounded() {
    let mut history = Vec::new();
    for value in 0..(MAX_CURSOR_HISTORY + 5) {
        push_bounded(&mut history, value);
    }
    assert_eq!(history.len(), MAX_CURSOR_HISTORY);
    assert_eq!(history[0], 5);
}

#[test]
fn newer_search_replaces_obsolete_pending_query() {
    let mut store = Store::new();
    store.search_palette("tree".into());
    let first = store.pending_palette().unwrap().id;
    store.search_palette("rock".into());
    assert!(store.pending_palette().unwrap().id > first);
    let NavigationRequestKind::Palette { search, .. } = &store.pending_palette().unwrap().kind else {
        panic!("palette search should queue a palette query");
    };
    assert_eq!(search, "rock");
}

#[test]
fn search_text_is_trimmed_and_an_unchanged_search_queues_nothing() {
    let mut store = Store::new();
    store.search_palette("  moss \t".into());
    assert_eq!(store.palette_search(), "moss");
    let first = store.pending_palette().unwrap().id;
    store.search_palette("moss".into());
    assert_eq!(store.pending_palette().unwrap().id, first);
}

#[test]
fn status_has_a_placeholder_until_the_worker_answers() {
    let mut store = Store::new();
    assert_eq!(store.status(), "opening navigation queries");
    store.opened(Err("no database".into()));
    assert_eq!(store.status(), "navigation failed: no database");
    store.opened(Ok(()));
    assert_eq!(store.status(), "navigation ready");
    assert!(store.pending_palette().is_some());
}

#[test]
fn only_the_newest_answer_in_flight_is_shown() {
    let mut store = Store::new();
    store.opened(Ok(()));
    let request = store.take_dispatch().unwrap();
    let id = request.id;
    store.dispatched(request, SendOutcome::Sent);
    assert_eq!(store.in_flight(), Some(id));
    assert!(store.take_dispatch().is_none());
    store.search_palette("rock".into());
    store.receive_palette(id, None, Ok(NavigationPage { records: vec!["old"], next_cursor: Some(9) }));
    assert_eq!(store.stale_results(), 1);
    assert!(store.palette_records().is_empty());
    assert_eq!(store.in_flight(), None);

    let request = store.take_dispatch().unwrap();
    let id = request.id;
    store.dispatched(request, SendOutcome::Sent);
    store.receive_palette(id, None, Ok(NavigationPage { records: vec!["rock"], next_cursor: Some(9) }));
    assert_eq!(store.palette_records(), &["rock"]);
    assert!(store.palette_has_next());
    assert!(!store.palette_has_previous());
}

#[test]
fn paging_forward_and_back_uses_the_cursor_history() {
    let mut store = Store::new();
    store.opened(Ok(()));
    let request = store.take_dispatch().unwrap();
    let id = request.id;
    store.dispatched(request, SendOutcome::Sent);
    store.receive_palette(id, None, Ok(NavigationPage { records: vec!["a"], next_cursor: Some(4) }));
    store.palette_next();
    assert!(store.palette_has_previous());
    let NavigationRequestKind::Palette { cursor, .. } = &store.pending_palette().unwrap().kind else {
        panic!("expected a palette request");
    };
    assert_eq!(*cursor, Some(4));
    store.palette_previous();
    assert!(!store.palette_has_previous());
    let NavigationRequestKind::Palette { cursor, .. } = &store.pending_palette().unwrap().kind else {
        panic!("expected a palette request");
    };
    assert_eq!(*cursor, None);
}

#[test]
fn a_full_worker_queue_keeps_the_request_waiting() {
    let mut store = Store::new();
    store.follow_world_space(Some(WorldSpaceId(3)));
    let request = store.take_dispatch().unwrap();
    assert!(matches!(request.kind, NavigationRequestKind::Outliner { space: WorldSpaceId(3), .. }));
    store.dispatched(request, SendOutcome::Full);
    assert!(store.pending_outliner().is_some());
    let request = store.take_dispatch().unwrap();
    store.dispatched(request, SendOutcome::Disconnected);
    assert_eq!(store.status(), "navigation worker stopped");
}

#[test]
fn an_outliner_error_is_reported() {
    let mut store = Store::new();
    store.follow_world_space(Some(WorldSpaceId(1)));
    let request = store.take_dispatch().unwrap();
    let id = request.id;
    store.dispatched(request, SendOutcome::Sent);
    store.receive_outliner(id, None, Err("locked".into()));
    assert_eq!(store.status(), "outliner query failed: locked");
    store.receive_palette(77, None, Err("late".into()));
    assert_eq!(store.stale_results(), 1);
}

#[test]
fn search_text_loses_unicode_white_space_at_both_ends_only() {
    let mut store = Store::new();
    store.search_palette("\u{3000}\u{a0} dark  moss\u{2029}\n".into());
    assert_eq!(store.palette_search(), "dark  moss");
    store.search_outliner(" \u{85}".into());
    assert_eq!(store.outliner_search(), "");
}
