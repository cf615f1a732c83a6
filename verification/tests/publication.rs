use yarra_editor::project_store::SendOutcome;
use yarra_editor::publication::RuntimePublicationState;

#[test]
fn publication_requests_are_single_flight_and_retryable_after_failure() {
    let mut state = RuntimePublicationState::new();
    assert!(!state.request(0));
    assert!(state.request(3));
    assert!(state.active());
    assert!(!state.request(4));
    state.dispatched(SendOutcome::Sent);
    let (request_id, epoch) = (1, 3);
    assert_eq!(state.receive_result(request_id, epoch, Err("validation failed".into()), 3), None);
    assert!(!state.active());
    assert!(state.request(4));
}

#[test]
fn a_changed_source_fails_the_cook_and_adoption_publishes() {
    let mut state = RuntimePublicationState::new();
    assert!(state.request(3));
    assert_eq!(state.next_dispatch(), Some((1, 3)));
    state.dispatched(SendOutcome::Sent);
    assert_eq!(state.receive_result(1, 3, Ok("g1".into()), 4), None);
    assert_eq!(state.failure(), Some("source changed from epoch 3 to 4 while cooking; publish again"));
    assert!(state.request(4));
    state.dispatched(SendOutcome::Sent);
    assert_eq!(state.receive_result(2, 4, Ok("g2".into()), 4), Some("g2".to_string()));
    assert!(state.adoption_completed(Ok("g2".into())));
    assert_eq!(state.published_generation(), Some("g2"));
}
