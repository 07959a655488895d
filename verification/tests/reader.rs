use renet2_netcode::{reader_action, reader_after_forward, ForwardOutcome, ReaderAction, ReaderEvent, ReaderFlow};

#[test]
fn binary_payloads_are_forwarded() {
    match reader_action(ReaderEvent::Binary(vec![1, 2, 3])) {
        ReaderAction::Forward(d) => assert_eq!(d, vec![1, 2, 3]),
        _ => panic!("binary message not forwarded"),
    }
}

#[test]
fn other_messages_are_ignored() {
    assert!(matches!(reader_action(ReaderEvent::NonBinary), ReaderAction::Ignore));
}

#[test]
fn abort_errors_timeouts_stop_the_reader() {
    assert!(matches!(reader_action(ReaderEvent::Abort), ReaderAction::Stop));
    assert!(matches!(reader_action(ReaderEvent::ReadError), ReaderAction::Stop));
    assert!(matches!(reader_action(ReaderEvent::TimedOut), ReaderAction::Stop));
    assert!(matches!(reader_action(ReaderEvent::Exhausted), ReaderAction::Stop));
}

#[test]
fn only_a_gone_server_stops_the_reader_after_forwarding() {
    assert_eq!(reader_after_forward(ForwardOutcome::Sent), ReaderFlow::ResetTimer);
    assert_eq!(reader_after_forward(ForwardOutcome::Full), ReaderFlow::ResetTimer);
    assert_eq!(reader_after_forward(ForwardOutcome::Disconnected), ReaderFlow::Stop);
}
