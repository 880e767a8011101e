use oscwrap::types::OscArg;
use oscwrap::sender::validate_osc_address;
use oscwrap::sender::parse_port;
use oscwrap::sender::parse_host_port;
use oscwrap::sender::create_osc_message;
use oscwrap::sender::build_send_datagram;
use oscwrap::types::Packet;
use oscwrap::ingress::ingress_datagram;
use oscwrap::debounce::DebounceState;

#[test]
fn valid_address_is_accepted() {
    assert!(validate_osc_address("/volume").is_ok());
    assert!(validate_osc_address("/synth/freq").is_ok());
}

#[test]
fn address_without_slash_is_rejected() {
    assert!(validate_osc_address("volume").is_err());
    assert!(validate_osc_address("").is_err());
}

#[test]
fn bare_slash_address_is_rejected() {
    assert!(validate_osc_address("/").is_err());
}

#[test]
fn port_parses_within_range() {
    assert_eq!(parse_port("7777"), Some(7777));
    assert_eq!(parse_port("0"), Some(0));
    assert_eq!(parse_port("65535"), Some(65535));
}

#[test]
fn port_out_of_range_or_malformed_fails() {
    assert_eq!(parse_port("65536"), None);
    assert_eq!(parse_port("12a"), None);
    assert_eq!(parse_port(""), None);
    assert_eq!(parse_port("-1"), None);
}

#[test]
fn host_port_splits_on_single_colon() {
    let (host, port) = parse_host_port("127.0.0.1:7777").unwrap();
    assert_eq!(host, "127.0.0.1");
    assert_eq!(port, 7777);
}

#[test]
fn host_port_rejects_wrong_shapes() {
    assert!(parse_host_port("127.0.0.1").is_err());
    assert!(parse_host_port("a:b:c").is_err());
    assert!(parse_host_port("127.0.0.1:notaport").is_err());
}

#[test]
fn created_message_keeps_address_and_value() {
    let p = create_osc_message("/volume".to_string(), Some(OscArg::Int(42))).unwrap();
    match p {
        Packet::Message(m) => {
            assert_eq!(m.addr, "/volume");
            assert_eq!(m.args.len(), 1);
            assert!(matches!(m.args[0], OscArg::Int(42)));
        },
        Packet::Bundle(_) => panic!("expected a message"),
    }
}

#[test]
fn created_message_rejects_invalid_address() {
    assert!(create_osc_message("volume".to_string(), None).is_err());
    assert!(create_osc_message("/".to_string(), None).is_err());
}

#[test]
fn encoded_message_decodes_back_to_its_line() {
    let bytes = build_send_datagram("/volume".to_string(), Some(OscArg::Int(42))).unwrap();
    let mut state = DebounceState::new();
    let lines = ingress_datagram(&mut state, &bytes, 0, 0);
    assert_eq!(lines, vec!["volume 42".to_string()]);
}

#[test]
fn encoded_float_text_decodes_back() {
    let bytes = build_send_datagram("/freq".to_string(), Some(OscArg::Float("3.5".to_string())))
        .unwrap();
    let mut state = DebounceState::new();
    let lines = ingress_datagram(&mut state, &bytes, 0, 0);
    assert_eq!(lines, vec!["freq 3.5".to_string()]);
}

#[test]
fn encoded_string_decodes_back_quoted() {
    let bytes = build_send_datagram("/say".to_string(), Some(OscArg::Str("hi".to_string())))
        .unwrap();
    let mut state = DebounceState::new();
    let lines = ingress_datagram(&mut state, &bytes, 0, 0);
    assert_eq!(lines, vec!["say \"hi\"".to_string()]);
}

#[test]
fn malformed_datagram_is_dropped() {
    let mut state = DebounceState::new();
    let lines = ingress_datagram(&mut state, &[1u8, 2, 3], 0, 0);
    assert!(lines.is_empty());
    assert!(state.entries.is_empty());
}

#[test]
fn rosc_encoded_bundle_flows_through_ingress() {
    let packet = rosc::OscPacket::Bundle(rosc::OscBundle {
        timetag: rosc::OscTime { seconds: 0, fractional: 1 },
        content: vec![
            rosc::OscPacket::Message(rosc::OscMessage {
                addr: "/a".to_string(),
                args: vec![rosc::OscType::Int(1)],
            }),
            rosc::OscPacket::Message(rosc::OscMessage {
                addr: "/b".to_string(),
                args: vec![],
            }),
        ],
    });
    let bytes = rosc::encoder::encode(&packet).unwrap();
    let mut state = DebounceState::new();
    let lines = ingress_datagram(&mut state, &bytes, 0, 0);
    assert_eq!(lines, vec!["a 1".to_string(), "b".to_string()]);
}

#[test]
fn send_datagram_rejects_invalid_address() {
    assert!(build_send_datagram("volume".to_string(), None).is_err());
}

#[test]
fn send_datagram_rejects_unencodable_argument() {
    let value = Some(OscArg::Other("midi".to_string()));
    assert!(build_send_datagram("/volume".to_string(), value).is_err());
}

#[test]
fn send_datagram_rejects_unparsable_float_text() {
    let value = Some(OscArg::Float("not a number".to_string()));
    assert!(build_send_datagram("/volume".to_string(), value).is_err());
}

#[test]
fn sent_payload_equals_protocol_encoding() {
    let bytes = build_send_datagram("/volume".to_string(), Some(OscArg::Int(42))).unwrap();
    let reference = rosc::encoder::encode(&rosc::OscPacket::Message(rosc::OscMessage {
        addr: "/volume".to_string(),
        args: vec![rosc::OscType::Int(42)],
    }))
    .unwrap();
    assert_eq!(bytes, reference);
}
