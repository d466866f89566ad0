use telemetry::codec::{decode, encode};
use telemetry::identity::ClientId;
use telemetry::numtext::{i32_to_string, i64_to_string, parse_i32, parse_i64};
use telemetry::registry::Clients;
use telemetry::wire::{create_message_at, Data, ParseError, Timestamp};

const ID: &str = "deadbeef-dead-dead-dead-beefbeefbeef";

#[test]
fn end_to_end_scenario() {
    let id = ClientId::parse_str(ID).unwrap();
    let text = create_message_at(&id, Timestamp::new(100, 200), &String::from("hello"));
    assert_eq!(text, "deadbeef-dead-dead-dead-beefbeefbeef(100,200)hello");

    let wire = encode(&text);
    let back = decode(&wire).unwrap();
    assert_eq!(back, text);

    let (pid, entry) = Clients::parse_packet_message(&back).unwrap();
    assert_eq!(pid.to_text(), ID);
    assert_eq!(entry.timestamp, Timestamp::new(100, 200));
    assert_eq!(entry.message, "hello");
}

#[test]
fn rejects_bad_identity() {
    let r = Clients::parse_packet_message("not-a-uuid(1,2)hello");
    assert_eq!(r.unwrap_err(), ParseError::InvalidIdentity);
}

#[test]
fn rejects_non_hex_identity_of_right_length() {
    let r = Clients::parse_packet_message("zzzzzzzz-zzzz-zzzz-zzzz-zzzzzzzzzzzz(1,2)x");
    assert_eq!(r.unwrap_err(), ParseError::InvalidIdentity);
}

#[test]
fn rejects_missing_paren() {
    let mut s = String::from(ID);
    s.push_str("no-paren");
    let r = Clients::parse_packet_message(&s);
    assert_eq!(r.unwrap_err(), ParseError::MalformedTimestamp);
}

#[test]
fn missing_comma_falls_back_to_zero() {
    let mut s = String::from(ID);
    s.push_str("(no-comma)payload");
    let (_, entry) = Clients::parse_packet_message(&s).unwrap();
    assert_eq!(entry.timestamp, Timestamp::new(0, 0));
    assert_eq!(entry.message, "payload");
}

#[test]
fn rejects_unreadable_integer_fields() {
    let mut s = String::from(ID);
    s.push_str("(1x,2)p");
    let r = Clients::parse_packet_message(&s);
    assert_eq!(r.unwrap_err(), ParseError::MalformedTimestamp);
}

#[test]
fn rejects_overflowing_seconds() {
    let mut s = String::from(ID);
    s.push_str("(99999999999999999999,0)p");
    let r = Clients::parse_packet_message(&s);
    assert_eq!(r.unwrap_err(), ParseError::MalformedTimestamp);
}

#[test]
fn negative_timestamp_fields_parse() {
    let mut s = String::from(ID);
    s.push_str("(-5,-7)x");
    let (_, entry) = Clients::parse_packet_message(&s).unwrap();
    assert_eq!(entry.timestamp, Timestamp::new(-5, -7));
}

#[test]
fn payload_with_delimiters_round_trips() {
    let id = ClientId::parse_str(ID).unwrap();
    let payload = String::from(")(,weird),(payload)(");
    let text = create_message_at(&id, Timestamp::new(7, 9), &payload);
    let (pid, entry) = Clients::parse_packet_message(&text).unwrap();
    assert_eq!(pid, id);
    assert_eq!(entry.timestamp, Timestamp::new(7, 9));
    assert_eq!(entry.message, payload);
}

#[test]
fn empty_payload_round_trips() {
    let id = ClientId::parse_str(ID).unwrap();
    let text = create_message_at(&id, Timestamp::new(0, 0), &String::new());
    let (_, entry) = Clients::parse_packet_message(&text).unwrap();
    assert_eq!(entry.message, "");
}

#[test]
fn identity_parse_normalizes_case() {
    let upper = ClientId::parse_str("DEADBEEF-DEAD-DEAD-DEAD-BEEFBEEFBEEF").unwrap();
    let lower = ClientId::parse_str(ID).unwrap();
    assert_eq!(upper, lower);
    assert_eq!(upper.to_text(), ID);
}

#[test]
fn identity_rejects_wrong_shapes() {
    assert!(ClientId::parse_str("").is_none());
    assert!(ClientId::parse_str("deadbeef").is_none());
    // hyphen in a digit position
    assert!(ClientId::parse_str("deadbeef-dead-dead-dead-beefbeefbee-").is_none());
    // 36 chars but a hyphen missing
    assert!(ClientId::parse_str("deadbeefadeadadeadadeadabeefbeefbeef").is_none());
}

#[test]
fn body_parser_requires_opening_paren() {
    let r = Data::<String>::new_from_message("1,2)hello");
    assert_eq!(r.unwrap_err(), ParseError::MalformedTimestamp);
    let d = Data::<String>::new_from_message("(1,2)hello").unwrap();
    assert_eq!(d.timestamp, Timestamp::new(1, 2));
    assert_eq!(d.message, "hello");
}

#[test]
fn integer_text_round_trips() {
    assert_eq!(i64_to_string(0), "0");
    assert_eq!(i64_to_string(-1), "-1");
    assert_eq!(i64_to_string(i64::MIN), "-9223372036854775808");
    assert_eq!(i64_to_string(i64::MAX), "9223372036854775807");
    assert_eq!(i32_to_string(i32::MIN), "-2147483648");
    assert_eq!(parse_i64("-9223372036854775808"), Some(i64::MIN));
    assert_eq!(parse_i64("9223372036854775807"), Some(i64::MAX));
    assert_eq!(parse_i64("+42"), Some(42));
    assert_eq!(parse_i64("9223372036854775808"), None);
    assert_eq!(parse_i64("-9223372036854775809"), None);
    assert_eq!(parse_i64(""), None);
    assert_eq!(parse_i64("-"), None);
    assert_eq!(parse_i64("1 2"), None);
    assert_eq!(parse_i32("2147483648"), None);
    assert_eq!(parse_i32("-2147483648"), Some(i32::MIN));
}
