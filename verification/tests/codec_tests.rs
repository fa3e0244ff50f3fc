use chat_relay::ChatMessage;
use chat_relay::encode_message;
use chat_relay::parse_inbound;
use chat_relay::parse_wire;

fn bytes(s: &str) -> Vec<u8> {
    s.as_bytes().to_vec()
}

fn msg(user: &str, text: &str, ts: i64) -> ChatMessage {
    ChatMessage { user: bytes(user), text: bytes(text), ts }
}

#[test]
fn round_trip_simple_record() {
    let m = msg("alice", "hi", 1700000000);
    let wire = encode_message(&m);
    assert_eq!(wire, bytes("{\"user\":\"alice\",\"text\":\"hi\",\"ts\":1700000000}"));
    let back = parse_wire(&wire).expect("round trip");
    assert_eq!(back.user, m.user);
    assert_eq!(back.text, m.text);
    assert_eq!(back.ts, m.ts);
}

#[test]
fn round_trip_with_escapes() {
    let m = msg("a\"b\\c", "line1\nline2\ttab", 7);
    let wire = encode_message(&m);
    let back = parse_wire(&wire).expect("round trip");
    assert_eq!(back.user, m.user);
    assert_eq!(back.text, m.text);
    assert_eq!(back.ts, 7);
}

#[test]
fn round_trip_control_bytes_and_negative_ts() {
    let m = ChatMessage { user: vec![0x01, 0x1f, 0x41], text: bytes("x"), ts: -42 };
    let wire = encode_message(&m);
    let back = parse_wire(&wire).expect("round trip");
    assert_eq!(back.user, m.user);
    assert_eq!(back.ts, -42);
}

#[test]
fn encode_escapes_quote_and_newline() {
    let m = msg("a", "b\"\n", 0);
    let wire = encode_message(&m);
    assert_eq!(wire, bytes("{\"user\":\"a\",\"text\":\"b\\\"\\n\",\"ts\":0}"));
}

#[test]
fn inbound_valid_frame() {
    let r = parse_inbound(&bytes("{\"user\":\"bob\",\"text\":\"hey\"}")).expect("valid");
    assert_eq!(r.user, bytes("bob"));
    assert_eq!(r.text, bytes("hey"));
}

#[test]
fn inbound_member_order_and_whitespace() {
    let r = parse_inbound(&bytes(" { \"text\" : \"hey\" ,\n\t\"user\" : \"bob\" } ")).expect(
        "valid",
    );
    assert_eq!(r.user, bytes("bob"));
    assert_eq!(r.text, bytes("hey"));
}

#[test]
fn inbound_extra_members_are_ignored() {
    let r = parse_inbound(&bytes("{\"user\":\"a\",\"text\":\"b\",\"ts\":123}")).expect("valid");
    assert_eq!(r.user, bytes("a"));
    let r2 = parse_inbound(&bytes("{\"user\":\"a\",\"extra\":null,\"text\":\"b\",\"n\":-1.5e3}"))
        .expect("valid");
    assert_eq!(r2.text, bytes("b"));
}

#[test]
fn inbound_missing_text_is_rejected() {
    assert!(parse_inbound(&bytes("{\"user\":\"bob\"}")).is_none());
}

#[test]
fn inbound_missing_user_is_rejected() {
    assert!(parse_inbound(&bytes("{\"text\":\"hey\"}")).is_none());
}

#[test]
fn inbound_duplicate_member_is_rejected() {
    assert!(parse_inbound(&bytes("{\"user\":\"a\",\"user\":\"b\",\"text\":\"c\"}")).is_none());
}

#[test]
fn inbound_wrong_value_type_is_rejected() {
    assert!(parse_inbound(&bytes("{\"user\":3,\"text\":\"c\"}")).is_none());
    assert!(parse_inbound(&bytes("{\"user\":\"a\",\"text\":null}")).is_none());
}

#[test]
fn inbound_garbage_is_rejected() {
    assert!(parse_inbound(&bytes("")).is_none());
    assert!(parse_inbound(&bytes("hello")).is_none());
    assert!(parse_inbound(&bytes("42")).is_none());
    assert!(parse_inbound(&bytes("{\"user\":\"a\",\"text\":\"b\"} x")).is_none());
    assert!(parse_inbound(&bytes("{\"user\":\"a\",\"text\":\"b\"")).is_none());
    assert!(parse_inbound(&bytes("{\"user\":\"a\",\"text\":\"b\",}")).is_none());
}

#[test]
fn inbound_unicode_escape_and_raw_utf8() {
    let r = parse_inbound(&bytes("{\"user\":\"\\u0041\\u00e9\",\"text\":\"h\u{00e9}llo\"}"))
        .expect("valid");
    assert_eq!(r.user, "A\u{00e9}".as_bytes().to_vec());
    assert_eq!(r.text, "h\u{00e9}llo".as_bytes().to_vec());
}

#[test]
fn inbound_bad_escape_is_rejected() {
    assert!(parse_inbound(&bytes("{\"user\":\"\\q\",\"text\":\"b\"}")).is_none());
    assert!(parse_inbound(&bytes("{\"user\":\"\\ud800x\",\"text\":\"b\"}")).is_none());
}

#[test]
fn wire_ts_outside_i64_is_rejected() {
    assert!(
        parse_wire(&bytes("{\"user\":\"a\",\"text\":\"b\",\"ts\":99999999999999999999}"))
            .is_none()
    );
    let ok = parse_wire(&bytes("{\"user\":\"a\",\"text\":\"b\",\"ts\":-9223372036854775808}"))
        .expect("fits");
    assert_eq!(ok.ts, i64::MIN);
}

#[test]
fn wire_float_ts_is_rejected() {
    assert!(parse_wire(&bytes("{\"user\":\"a\",\"text\":\"b\",\"ts\":1.5}")).is_none());
    assert!(parse_wire(&bytes("{\"user\":\"a\",\"text\":\"b\",\"ts\":1e3}")).is_none());
    assert!(parse_wire(&bytes("{\"user\":\"a\",\"text\":\"b\",\"ts\":007}")).is_none());
}
