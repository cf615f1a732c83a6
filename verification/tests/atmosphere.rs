use yarra_editor::atmosphere::{
    AtmosphereProfile, AtmosphereWriteResult, Snapshot, WorkingSet, WorldSpaceAtmosphere,
};
use yarra_editor::history::EditorHistory;
use yarra_editor::project_store::{ProjectEditorStore, SaveKind};
use yarra_editor::world::WorldSpaceId;

fn profile(content: u64) -> AtmosphereProfile {
    AtmosphereProfile { content, valid: true }
}

fn source(id: u32, revision: i64) -> WorldSpaceAtmosphere {
    WorldSpaceAtmosphere {
        id: WorldSpaceId(id),
        atmosphere_revision: revision,
        atmosphere: profile(0),
    }
}

#[test]
fn recovery_and_conflict_keep_the_local_profile() {
    let mut set = WorkingSet::new();
    let changed = profile(12);
    let id = WorldSpaceId(1);
    let snapshot = Snapshot {
        space: id,
        revision: 1,
        base: profile(0),
        current: changed,
    };
    assert_eq!(set.restore(vec![snapshot]), 1);
    assert!(!set.complete(Ok(AtmosphereWriteResult::Conflict {
        space: id,
        revision: 2,
        actual: profile(0),
    })));
    assert_eq!(set.entry(id).unwrap().current, changed);
    set.resolve_conflict(true);
    assert_eq!(set.entry(id).unwrap().revision, 2);
    assert_eq!(set.dirty_count(), 1);
}

#[test]
fn preview_gesture_is_transient_and_finishes_as_one_change() {
    let mut set = WorkingSet::new();
    set.pin(&source(1, 1));
    assert_eq!(set.dirty_count(), 0);
    for strength in [1000, 2000, 3500] {
        assert!(set.preview_edit(WorldSpaceId(1), profile(strength)));
    }
    // The journal records the profile before the open gesture.
    assert!(set.journal().is_empty());
    assert!(set.blocked());
    let (id, before, after) = set.finish_gesture().unwrap();
    assert_eq!((id, before, after), (WorldSpaceId(1), profile(0), profile(3500)));
    assert_eq!(set.journal().len(), 1);
    assert_eq!(set.dirty_count(), 1);
}

#[test]
fn cancelling_a_gesture_restores_the_profile_before_it() {
    let mut set = WorkingSet::new();
    set.pin(&source(2, 4));
    assert!(set.preview_edit(WorldSpaceId(2), profile(7)));
    set.cancel_gesture();
    assert_eq!(set.entry(WorldSpaceId(2)).unwrap().current, profile(0));
    assert!(set.gesture().is_none());
    assert!(set.finish_gesture().is_none());
}

#[test]
fn invalid_profiles_and_blocked_sets_refuse_edits() {
    let mut set = WorkingSet::new();
    set.pin(&source(1, 1));
    assert!(!set.apply(WorldSpaceId(1), AtmosphereProfile { content: 5, valid: false }));
    assert!(!set.apply(WorldSpaceId(9), profile(5)));
    assert!(set.apply(WorldSpaceId(1), profile(5)));
    assert_eq!(set.revision(), 1);
    let mut store = ProjectEditorStore::new();
    assert!(set.queue_save(&mut store));
    assert!(set.blocked());
    assert!(!set.apply(WorldSpaceId(1), profile(6)));
    assert!(store.save_in_flight());
}

#[test]
fn a_committed_save_makes_the_local_profile_the_saved_one() {
    let mut set = WorkingSet::new();
    set.pin(&source(3, 1));
    set.pin(&source(1, 1));
    assert_eq!(set.entries()[0].space, WorldSpaceId(1));
    assert!(set.apply(WorldSpaceId(3), profile(8)));
    let mut store = ProjectEditorStore::new();
    assert!(set.queue_save(&mut store));
    let writes = store.pending_atmosphere_writes().unwrap().clone();
    assert_eq!(writes.len(), 1);
    assert_eq!(writes[0].space, WorldSpaceId(3));
    assert_eq!(writes[0].expected_revision, 1);
    assert!(set.complete(Ok(AtmosphereWriteResult::Committed(vec![(
        WorldSpaceId(3),
        2,
        profile(8)
    )]))));
    assert_eq!(set.dirty_count(), 0);
    assert_eq!(set.entry(WorldSpaceId(3)).unwrap().revision, 2);
    assert!(set.saving().is_none());
}

#[test]
fn a_failed_save_keeps_the_edit_and_reports_the_error() {
    let mut set = WorkingSet::new();
    set.pin(&source(1, 1));
    assert!(set.apply(WorldSpaceId(1), profile(2)));
    assert!(!set.complete(Err("disk full".to_string())));
    assert_eq!(set.error(), Some("disk full"));
    assert_eq!(set.dirty_count(), 1);
}

#[test]
fn restore_skips_invalid_and_dirty_targets() {
    let mut set = WorkingSet::new();
    set.pin(&source(1, 1));
    assert!(set.apply(WorldSpaceId(1), profile(4)));
    let snapshots = vec![
        Snapshot { space: WorldSpaceId(1), revision: 1, base: profile(0), current: profile(9) },
        Snapshot { space: WorldSpaceId(2), revision: 0, base: profile(0), current: profile(9) },
        Snapshot { space: WorldSpaceId(3), revision: 1, base: profile(0), current: profile(9) },
    ];
    assert_eq!(set.restore(snapshots), 1);
    assert_eq!(set.entry(WorldSpaceId(1)).unwrap().current, profile(4));
    assert!(set.entry(WorldSpaceId(2)).is_none());
    assert_eq!(set.entry(WorldSpaceId(3)).unwrap().current, profile(9));
    let _ = SaveKind::Atmosphere;
}

#[test]
fn preview_is_transient_and_color_drag_is_one_undo_across_a_save() {
    let mut set = WorkingSet::new();
    set.pin(&source(1, 1));
    assert_eq!(set.dirty_count(), 0);
    for strength in [1000, 2000, 3500] {
        assert!(set.preview_edit(WorldSpaceId(1), profile(strength)));
    }
    assert!(set.journal().is_empty());
    let (id, before, after) = set.finish_gesture().unwrap();
    let mut history: EditorHistory<(WorldSpaceId, AtmosphereProfile, AtmosphereProfile)> = EditorHistory::new();
    history.record((id, before, after), 64);
    assert_eq!(history.undo_len(), 1);
    assert_eq!(set.journal().len(), 1);
    assert!(set.complete(Ok(AtmosphereWriteResult::Committed(vec![(id, 2, after)]))));
    assert_eq!(set.dirty_count(), 0);
    // Undoing the drag after the save restores the profile from before it as a local edit.
    assert!(history.undo_with(|c| set.apply(c.0, c.1)));
    assert_eq!(set.dirty_count(), 1);
    assert_eq!(set.entry(id).unwrap().current, before);
    assert!(history.redo_with(|c| set.apply(c.0, c.2)));
    assert_eq!(set.dirty_count(), 0);
    assert_eq!(history.undo_len(), 1);
}
