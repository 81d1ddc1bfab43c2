use league_client::engine::{read_step, write_step, Phase, ReadAction, ReadEvent, Speaker,
    WriteAction, WriteEvent};

#[test]
fn empty_frame_never_reaches_consumer_queue() {
    let mut sp = Speaker::subscribe("OnJsonApiEvent".to_string());
    let delivered = sp.accept_frame(String::new());
    assert!(!delivered);
    assert_eq!(sp.inbound.len(), 0);
    assert!(matches!(read_step(ReadEvent::Frame(String::new())), ReadAction::Skip));
}

#[test]
fn malformed_frame_is_dropped_and_loop_continues() {
    let mut sp = Speaker::subscribe("OnJsonApiEvent".to_string());
    let delivered = sp.accept_frame("{ not json".to_string());
    assert!(!delivered);
    assert_eq!(sp.inbound.len(), 0);
    assert_eq!(sp.phase, Phase::Active);
    // the next valid frame afterward is still delivered
    let raw = r#"[8,"OnJsonApiEvent",{"data":{},"eventType":"Update","uri":"/a"}]"#;
    let delivered = sp.accept_frame(raw.to_string());
    assert!(delivered);
    assert_eq!(sp.inbound.len(), 1);
    let ev = sp.next_event().expect("one event queued");
    assert_eq!(ev.0, 8);
    assert_eq!(ev.2.uri, "/a".to_string());
}

#[test]
fn transport_failure_and_cancellation_stop_the_loops() {
    assert!(matches!(read_step(ReadEvent::TransportClosed), ReadAction::Stop));
    assert!(matches!(read_step(ReadEvent::Cancelled), ReadAction::Stop));
    assert!(matches!(write_step(WriteEvent::QueueClosed), WriteAction::Stop));
    assert!(matches!(write_step(WriteEvent::Cancelled), WriteAction::Stop));
    match write_step(WriteEvent::Item("A".to_string())) {
        WriteAction::Forward(f) => assert_eq!(f, "A".to_string()),
        WriteAction::Stop => panic!("an item must be forwarded"),
    }
}

#[test]
fn outbound_items_arrive_in_submission_order() {
    let mut sp = Speaker::subscribe("OnJsonApiEvent".to_string());
    sp.send("A".to_string()).expect("active");
    sp.send("B".to_string()).expect("active");
    sp.send("C".to_string()).expect("active");
    assert_eq!(sp.pump_outbound(), Some("A".to_string()));
    assert_eq!(sp.pump_outbound(), Some("B".to_string()));
    assert_eq!(sp.pump_outbound(), Some("C".to_string()));
    assert_eq!(sp.pump_outbound(), None);
    assert_eq!(sp.wired, vec!["A".to_string(), "B".to_string(), "C".to_string()]);
}

#[test]
fn dropping_speaker_unsubscribes_and_cancels() {
    let mut sp = Speaker::subscribe("OnJsonApiEvent".to_string());
    assert!(!sp.cancelled);
    sp.close();
    assert_eq!(sp.phase, Phase::Closing);
    assert!(sp.cancelled);
    assert_eq!(sp.outbound, vec!["[6,\"OnJsonApiEvent\"]".to_string()]);
    // teardown runs exactly once: a second close changes nothing
    sp.close();
    assert_eq!(sp.outbound.len(), 1);
    // a send after teardown is refused
    assert!(sp.send("late".to_string()).is_err());
    sp.mark_closed();
    assert_eq!(sp.phase, Phase::Closed);
}

#[test]
fn scenario_send_then_drop_wires_exactly_two_frames() {
    let mut sp = Speaker::subscribe("OnJsonApiEvent".to_string());
    sp.send("A".to_string()).expect("active");
    sp.close();
    // the write loop drains what was queued before cancellation won
    let first = sp.pump_outbound();
    let second = sp.pump_outbound();
    let third = sp.pump_outbound();
    assert_eq!(first, Some("A".to_string()));
    assert_eq!(second, Some("[6,\"OnJsonApiEvent\"]".to_string()));
    assert_eq!(third, None);
    assert_eq!(sp.wired.len(), 2);
}
