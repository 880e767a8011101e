use oscwrap::types::OscArg;
use oscwrap::types::OscMsg;
use oscwrap::types::Packet;
use oscwrap::translate::translate_message;
use oscwrap::translate::handle_osc_packet;
use oscwrap::address::decode_and_validate_address;
use oscwrap::render::render_arg;
use oscwrap::render::i64_to_string;
use oscwrap::render::u64_to_string;

fn msg(addr: &str, args: Vec<OscArg>) -> OscMsg {
    OscMsg { addr: addr.to_string(), args }
}

#[test]
fn address_splits_into_components() {
    let comps = decode_and_validate_address("/foo/bar").unwrap();
    assert_eq!(comps, vec!["foo".to_string(), "bar".to_string()]);
}

#[test]
fn address_drops_empty_components() {
    let comps = decode_and_validate_address("/foo//bar/").unwrap();
    assert_eq!(comps, vec!["foo".to_string(), "bar".to_string()]);
}

#[test]
fn address_normalization_is_idempotent() {
    let comps = decode_and_validate_address("/a//b///c").unwrap();
    let rejoined = format!("/{}", comps.join("/"));
    let again = decode_and_validate_address(&rejoined).unwrap();
    assert_eq!(comps, again);
}

#[test]
fn address_percent_decoding_applies() {
    let comps = decode_and_validate_address("/foo%20bar").unwrap();
    assert_eq!(comps, vec!["foo bar".to_string()]);
}

#[test]
fn address_without_leading_slash_is_discarded() {
    assert!(decode_and_validate_address("foo/bar").is_none());
}

#[test]
fn address_with_no_component_is_discarded() {
    assert!(decode_and_validate_address("/").is_none());
    assert!(decode_and_validate_address("///").is_none());
}

#[test]
fn empty_address_is_discarded() {
    assert!(decode_and_validate_address("").is_none());
}

#[test]
fn invalid_message_is_not_forwarded() {
    assert!(translate_message(&msg("no-slash", vec![])).is_none());
    assert!(translate_message(&msg("/", vec![])).is_none());
}

#[test]
fn integer_renders_as_decimal() {
    assert_eq!(render_arg(&OscArg::Int(42)), "42");
    assert_eq!(i64_to_string(-7), "-7");
    assert_eq!(u64_to_string(0), "0");
    assert_eq!(u64_to_string(65535), "65535");
    assert_eq!(i64_to_string(i64::MIN), "-9223372036854775808");
}

#[test]
fn float_text_renders_as_given() {
    assert_eq!(render_arg(&OscArg::Float("3.5".to_string())), "3.5");
}

#[test]
fn string_renders_quoted_with_escapes() {
    let arg = OscArg::Str("he said \"hi\"".to_string());
    assert_eq!(render_arg(&arg), "\"he said \\\"hi\\\"\"");
}

#[test]
fn blob_renders_as_length_placeholder() {
    let arg = OscArg::Blob(vec![0u8; 10]);
    assert_eq!(render_arg(&arg), "<blob 10 bytes>");
}

#[test]
fn other_kinds_render_as_fixed_words() {
    assert_eq!(render_arg(&OscArg::Bool(true)), "true");
    assert_eq!(render_arg(&OscArg::Bool(false)), "false");
    assert_eq!(render_arg(&OscArg::Nil), "nil");
    assert_eq!(render_arg(&OscArg::Inf), "inf");
    assert_eq!(render_arg(&OscArg::Char('x')), "x");
    assert_eq!(render_arg(&OscArg::Long(1234567890123)), "1234567890123");
    assert_eq!(render_arg(&OscArg::Double("2.25".to_string())), "2.25");
}

#[test]
fn message_line_joins_components_and_args() {
    let m = msg(
        "/synth/freq",
        vec![
            OscArg::Int(42),
            OscArg::Float("3.5".to_string()),
            OscArg::Str("he said \"hi\"".to_string()),
            OscArg::Blob(vec![1u8; 10]),
        ],
    );
    let line = translate_message(&m).unwrap();
    assert_eq!(line, "synth freq 42 3.5 \"he said \\\"hi\\\"\" <blob 10 bytes>");
}

#[test]
fn bundle_yields_one_line_per_valid_message() {
    let bundle = Packet::Bundle(vec![
        Packet::Message(msg("/a", vec![OscArg::Int(1)])),
        Packet::Message(msg("bad", vec![])),
        Packet::Message(msg("/b/c", vec![])),
        Packet::Message(msg("/", vec![])),
    ]);
    let lines = handle_osc_packet(&bundle);
    assert_eq!(lines.len(), 2);
    assert_eq!(lines[0], "a 1");
    assert_eq!(lines[1], "b c");
}

#[test]
fn bundle_of_only_invalid_messages_is_unhandled() {
    let bundle = Packet::Bundle(vec![
        Packet::Message(msg("bad", vec![])),
        Packet::Message(msg("/", vec![])),
    ]);
    let lines = handle_osc_packet(&bundle);
    assert!(lines.is_empty());
}

#[test]
fn nested_bundles_unwrap_recursively() {
    let inner = Packet::Bundle(vec![Packet::Message(msg("/x", vec![]))]);
    let outer = Packet::Bundle(vec![inner, Packet::Message(msg("/y", vec![]))]);
    let lines = handle_osc_packet(&outer);
    assert_eq!(lines, vec!["x".to_string(), "y".to_string()]);
}

#[test]
fn undecodable_percent_sequence_is_discarded() {
    // %FF decodes to a byte that is not well-formed UTF-8.
    assert!(decode_and_validate_address("/%FF").is_none());
}

#[test]
fn percent_encoded_slash_splits_after_decoding() {
    let comps = decode_and_validate_address("/a%2Fb").unwrap();
    assert_eq!(comps, vec!["a".to_string(), "b".to_string()]);
}
