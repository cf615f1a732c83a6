use yarra_editor::history::EditorHistory;

#[test]
fn recording_clears_redo_and_undo_redo_move_commands_between_stacks() {
    let mut history = EditorHistory::new();
    history.record("a", 10);
    history.record("b", 20);
    assert_eq!(history.undo_len(), 2);
    assert_eq!(history.retained_bytes(), 30);
    assert!(history.undo_with(|command| *command == "b"));
    assert_eq!((history.undo_len(), history.redo_len()), (1, 1));
    assert_eq!(history.retained_bytes(), 30);
    assert!(history.redo_with(|command| *command == "b"));
    assert_eq!((history.undo_len(), history.redo_len()), (2, 0));
    assert!(history.undo_with(|_| true));
    history.record("c", 5);
    assert_eq!((history.undo_len(), history.redo_len()), (2, 0));
    assert_eq!(history.retained_bytes(), 15);
}

#[test]
fn a_failed_revert_leaves_the_history_unchanged() {
    let mut history = EditorHistory::new();
    assert!(!history.undo_with(|_: &&str| true));
    history.record("a", 1);
    assert!(!history.undo_with(|_| false));
    assert_eq!((history.undo_len(), history.redo_len()), (1, 0));
    assert!(!history.redo_with(|_| true));
}

#[test]
fn the_oldest_commands_are_checkpointed_to_stay_within_budget() {
    let mut history = EditorHistory::with_limits(2, 100);
    history.record(1, 10);
    history.record(2, 10);
    history.record(3, 10);
    assert_eq!(history.undo_len(), 2);
    assert_eq!(history.checkpointed_commands(), 1);
    assert_eq!(history.undo_entries()[0].command, 2);
    history.record(4, 95);
    assert_eq!(history.undo_len(), 1);
    assert_eq!(history.checkpointed_commands(), 3);
    assert_eq!(history.retained_bytes(), 95);
    history.record(5, 101);
    assert_eq!(history.undo_len(), 0);
    assert_eq!(history.checkpointed_commands(), 5);
    assert_eq!(history.retained_bytes(), 0);
    history.record(6, 1);
    history.clear();
    assert_eq!((history.undo_len(), history.redo_len(), history.retained_bytes()), (0, 0, 0));
}
