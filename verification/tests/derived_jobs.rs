use yarra_editor::artifacts::{DerivedArtifact, DerivedArtifactStore};
use yarra_editor::jobs::{
    scope_contains, DerivedJobCompletion, DerivedJobKey, DerivedJobScope, DerivedProduct,
    EditorToolId,
};
use yarra_editor::scheduler::DerivedJobScheduler;
use yarra_editor::world::{CellCoord, WorldSpaceId};

const OBJECT_TOOL: EditorToolId = EditorToolId(1);

fn key(cell: i32) -> DerivedJobKey {
    DerivedJobKey {
        product: DerivedProduct::CookedObjectPage,
        scope: DerivedJobScope::Cell {
            space: WorldSpaceId(1),
            cell: CellCoord { x: cell, z: 0 },
        },
    }
}

#[test]
fn newer_revision_cancels_running_work_and_rejects_its_late_result() {
    let mut scheduler = DerivedJobScheduler::new();
    scheduler.replace_tool_requests(OBJECT_TOOL, vec![(key(1), 1)]);
    let mut old = scheduler.lease_next().unwrap();
    scheduler.replace_tool_requests(OBJECT_TOOL, vec![(key(1), 2)]);
    assert!(scheduler.is_cancelled(&old));
    assert_eq!(scheduler.complete(&mut old), DerivedJobCompletion::Stale);
    // The cancellation stays observable once the job has left the running list.
    assert!(scheduler.is_cancelled(&old));
    assert_eq!(scheduler.running_count(), 0);
    assert_eq!(scheduler.pending_count(), 1);
    let mut current = scheduler.lease_next().unwrap();
    assert_eq!(current.input_revision, 2);
    assert!(!scheduler.is_cancelled(&current));
    assert_eq!(scheduler.complete(&mut current), DerivedJobCompletion::Accepted);
    assert!(!scheduler.is_cancelled(&current));
    assert_eq!(scheduler.stale_results(), 1);
}

#[test]
fn a_failed_accepted_revision_cannot_leave_an_older_artifact_presented() {
    let key = key(1);
    let mut artifacts = DerivedArtifactStore::new();
    artifacts.publish(
        key,
        1,
        Ok(DerivedArtifact::CookedObjectPage {
            object_count: 1,
            fingerprint: 41,
        }),
    );
    assert!(artifacts.get(key).is_some());
    artifacts.publish(key, 2, Err("compile failed".into()));
    assert!(artifacts.get(key).is_none());
    assert_eq!(artifacts.failure(key), Some("compile failed"));
}

#[test]
fn generation_adoption_retires_failures_without_dropping_valid_artifacts() {
    let valid = key(1);
    let failed = key(2);
    let mut artifacts = DerivedArtifactStore::new();
    artifacts.publish(
        valid,
        3,
        Ok(DerivedArtifact::CookedObjectPage {
            object_count: 2,
            fingerprint: 17,
        }),
    );
    artifacts.publish(failed, 3, Err("old failure".into()));

    artifacts.clear_failures_for_generation_adoption();
    assert!(artifacts.get(valid).is_some());
    assert!(artifacts.failure(failed).is_none());
}

#[test]
fn replacing_tool_demand_cancels_obsolete_cells() {
    let mut scheduler = DerivedJobScheduler::new();
    scheduler.replace_tool_requests(OBJECT_TOOL, vec![(key(1), 1), (key(2), 1)]);
    scheduler.replace_tool_requests(OBJECT_TOOL, vec![(key(2), 1)]);
    assert_eq!(scheduler.pending_count(), 1);
    assert_eq!(scheduler.cancelled_count(), 1);
    assert_eq!(scheduler.lease_next().unwrap().key, key(2));
}

#[test]
fn pending_and_running_queues_are_strictly_bounded() {
    let mut scheduler = DerivedJobScheduler::with_limits(2, 1);
    scheduler.replace_tool_requests(OBJECT_TOOL, vec![(key(1), 1), (key(2), 1), (key(3), 1)]);
    assert_eq!(scheduler.pending_count(), 2);
    assert_eq!(scheduler.capacity_rejections(), 1);
    assert!(scheduler.lease_next().is_some());
    assert!(scheduler.lease_next().is_none());
    assert_eq!(scheduler.running_count(), 1);
}

#[test]
fn repeated_request_coalesces_into_the_pending_entry() {
    let mut scheduler = DerivedJobScheduler::new();
    scheduler.replace_tool_requests(OBJECT_TOOL, vec![(key(1), 1)]);
    scheduler.replace_tool_requests(OBJECT_TOOL, vec![(key(1), 5)]);
    assert_eq!(scheduler.pending_count(), 1);
    assert_eq!(scheduler.coalesced_count(), 1);
    let mut lease = scheduler.lease_next().unwrap();
    assert_eq!(lease.input_revision, 5);
    assert_eq!(scheduler.complete(&mut lease), DerivedJobCompletion::Accepted);
    // An accepted revision is served without new work.
    scheduler.replace_tool_requests(OBJECT_TOOL, vec![(key(1), 5)]);
    assert_eq!(scheduler.pending_count(), 0);
    assert_eq!(scheduler.complete(&mut lease), DerivedJobCompletion::Unknown);
}

#[test]
fn duplicate_keys_in_one_demand_keep_the_last_revision() {
    let mut scheduler = DerivedJobScheduler::new();
    scheduler.replace_tool_requests(OBJECT_TOOL, vec![(key(1), 3), (key(1), 2)]);
    assert_eq!(scheduler.pending_count(), 1);
    assert_eq!(scheduler.lease_next().unwrap().input_revision, 2);
}

#[test]
fn cancelled_leases_lists_superseded_running_jobs() {
    let mut scheduler = DerivedJobScheduler::new();
    scheduler.replace_tool_requests(OBJECT_TOOL, vec![(key(1), 1)]);
    let mut first = scheduler.lease_next().unwrap();
    assert!(scheduler.cancelled_leases().is_empty());
    scheduler.replace_tool_requests(OBJECT_TOOL, vec![]);
    assert_eq!(scheduler.cancelled_leases(), vec![first.id]);
    assert_eq!(scheduler.complete(&mut first), DerivedJobCompletion::Stale);
    assert!(scheduler.cancelled_leases().is_empty());
    assert!(scheduler.is_cancelled(&first));
}

#[test]
fn region_scope_contains_its_inclusive_bounds() {
    let scope = DerivedJobScope::Region {
        space: WorldSpaceId(2),
        minimum: CellCoord { x: -1, z: -1 },
        maximum: CellCoord { x: 1, z: 2 },
    };
    assert!(scope_contains(scope, WorldSpaceId(2), CellCoord { x: 1, z: 2 }));
    assert!(!scope_contains(scope, WorldSpaceId(2), CellCoord { x: 2, z: 0 }));
    assert!(!scope_contains(scope, WorldSpaceId(3), CellCoord { x: 0, z: 0 }));
}
