use oscwrap::types::OscArg;
use oscwrap::types::OscMsg;
use oscwrap::types::Packet;
use oscwrap::debounce::DebounceState;
use oscwrap::debounce::handle_packet_for_debounce;
use oscwrap::ingress::process_packet;

fn msg(addr: &str, args: Vec<OscArg>) -> OscMsg {
    OscMsg { addr: addr.to_string(), args }
}

#[test]
fn burst_to_one_address_coalesces_to_last() {
    let mut state = DebounceState::new();
    state.schedule(msg("/v", vec![OscArg::Int(1)]), 0, 100);
    state.schedule(msg("/v", vec![OscArg::Int(2)]), 10, 100);
    state.schedule(msg("/v", vec![OscArg::Int(3)]), 20, 100);
    assert_eq!(state.entries.len(), 1);

    // Not yet due before the last receipt plus the window.
    let early = state.take_due(119);
    assert!(early.is_empty());
    assert_eq!(state.entries.len(), 1);

    // Exactly one message fires, the last one received.
    let fired = state.take_due(120);
    assert_eq!(fired.len(), 1);
    assert_eq!(fired[0].addr, "/v");
    assert!(matches!(fired[0].args[0], OscArg::Int(3)));
    assert!(state.entries.is_empty());
}

#[test]
fn distinct_addresses_fire_independently() {
    let mut state = DebounceState::new();
    state.schedule(msg("/a", vec![]), 0, 50);
    state.schedule(msg("/b", vec![]), 0, 50);
    state.schedule(msg("/a", vec![OscArg::Int(9)]), 10, 50);
    assert_eq!(state.entries.len(), 2);

    // At 50 only /b is due; /a was pushed out to 60 by its own burst.
    let first = state.take_due(55);
    assert_eq!(first.len(), 1);
    assert_eq!(first[0].addr, "/b");

    let second = state.take_due(60);
    assert_eq!(second.len(), 1);
    assert_eq!(second[0].addr, "/a");
    assert!(matches!(second[0].args[0], OscArg::Int(9)));
}

#[test]
fn window_zero_forwards_immediately_in_order() {
    let mut state = DebounceState::new();
    let bundle = Packet::Bundle(vec![
        Packet::Message(msg("/one", vec![OscArg::Int(1)])),
        Packet::Message(msg("/two", vec![OscArg::Int(2)])),
    ]);
    let lines = process_packet(&mut state, bundle, 0, 0);
    assert_eq!(lines, vec!["one 1".to_string(), "two 2".to_string()]);
    assert!(state.entries.is_empty());
}

#[test]
fn positive_window_defers_forwarding() {
    let mut state = DebounceState::new();
    let packet = Packet::Message(msg("/v", vec![OscArg::Int(5)]));
    let lines = process_packet(&mut state, packet, 0, 100);
    assert!(lines.is_empty());
    assert_eq!(state.entries.len(), 1);
}

#[test]
fn bundle_messages_schedule_under_own_addresses() {
    let mut state = DebounceState::new();
    let bundle = Packet::Bundle(vec![
        Packet::Message(msg("/a", vec![])),
        Packet::Message(msg("/b", vec![])),
        Packet::Message(msg("/a", vec![OscArg::Int(7)])),
    ]);
    handle_packet_for_debounce(&mut state, bundle, 0, 100);
    assert_eq!(state.entries.len(), 2);
    let fired = state.take_due(100);
    assert_eq!(fired.len(), 2);
}

#[test]
fn replacement_resets_fire_time() {
    let mut state = DebounceState::new();
    state.schedule(msg("/v", vec![]), 0, 100);
    state.schedule(msg("/v", vec![]), 90, 100);
    // The original fire time (100) has passed, but the reset one (190) has not.
    let early = state.take_due(150);
    assert!(early.is_empty());
    let fired = state.take_due(190);
    assert_eq!(fired.len(), 1);
}
