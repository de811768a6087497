//! Tests of the wire codec: exact encodings, decodings, and their errors.

use echo_node::codec::{decode_message, encode_message, DecodeError};
use echo_node::msg::{Body, Message, Payload};

fn encode(m: &Message) -> String {
    String::from_utf8(encode_message(m)).expect("wire form should be UTF-8")
}

fn msg(source: &str, destination: &str, id: Option<usize>, irt: Option<usize>, p: Payload) -> Message {
    Message {
        source: source.to_string(),
        destination: destination.to_string(),
        body: Body { id, in_reply_to: irt, payload: p },
    }
}

#[test]
fn encoding_writes_null_for_absent_ids() {
    let m = msg("n1", "c1", None, None, Payload::InitOk);
    assert_eq!(
        encode(&m),
        "{\"src\":\"n1\",\"dest\":\"c1\",\"body\":{\"type\":\"init_ok\",\"msg_id\":null,\"in_reply_to\":null}}",
    );
}

#[test]
fn encoding_flattens_payload_fields_into_the_body() {
    let m = msg(
        "c1",
        "n1",
        Some(1),
        None,
        Payload::Init { node_id: "n1".to_string(), node_ids: vec!["n1".to_string(), "n2".to_string()] },
    );
    assert_eq!(
        encode(&m),
        "{\"src\":\"c1\",\"dest\":\"n1\",\"body\":{\"type\":\"init\",\"msg_id\":1,\"in_reply_to\":null,\"node_id\":\"n1\",\"node_ids\":[\"n1\",\"n2\"]}}",
    );
}

#[test]
fn encoding_escapes_string_content() {
    let m = msg(
        "n1",
        "c1",
        Some(3),
        Some(2),
        Payload::EchoOk { echo: "a\"b\\c\nd\te\u{1}f".to_string() },
    );
    assert_eq!(
        encode(&m),
        "{\"src\":\"n1\",\"dest\":\"c1\",\"body\":{\"type\":\"echo_ok\",\"msg_id\":3,\"in_reply_to\":2,\"echo\":\"a\\\"b\\\\c\\nd\\te\\u0001f\"}}",
    );
}

#[test]
fn decoding_reads_every_payload_kind() {
    let m = decode_message(
        "{\"src\":\"c1\",\"dest\":\"n1\",\"body\":{\"type\":\"init\",\"msg_id\":1,\"node_id\":\"n1\",\"node_ids\":[]}}"
            .as_bytes(),
    )
    .unwrap();
    match m.body.payload {
        Payload::Init { node_id, node_ids } => {
            assert_eq!(node_id, "n1");
            assert!(node_ids.is_empty());
        },
        _ => panic!("expected an init payload"),
    }

    let m = decode_message(
        "{\"src\":\"n1\",\"dest\":\"c1\",\"body\":{\"type\":\"init_ok\",\"msg_id\":0,\"in_reply_to\":1}}"
            .as_bytes(),
    )
    .unwrap();
    assert!(matches!(m.body.payload, Payload::InitOk));
    assert_eq!(m.body.id, Some(0));
    assert_eq!(m.body.in_reply_to, Some(1));

    let m = decode_message(
        "{\"src\":\"c1\",\"dest\":\"n1\",\"body\":{\"type\":\"echo\",\"msg_id\":2,\"echo\":\"hey\"}}"
            .as_bytes(),
    )
    .unwrap();
    assert!(matches!(m.body.payload, Payload::Echo { .. }));

    let m = decode_message(
        "{\"src\":\"n1\",\"dest\":\"c1\",\"body\":{\"type\":\"echo_ok\",\"msg_id\":1,\"in_reply_to\":2,\"echo\":\"hey\"}}"
            .as_bytes(),
    )
    .unwrap();
    match m.body.payload {
        Payload::EchoOk { echo } => assert_eq!(echo, "hey"),
        _ => panic!("expected an echo_ok payload"),
    }
}

#[test]
fn decoding_accepts_null_and_absent_ids() {
    let with_null = decode_message(
        "{\"src\":\"c1\",\"dest\":\"n1\",\"body\":{\"type\":\"echo\",\"msg_id\":null,\"in_reply_to\":null,\"echo\":\"x\"}}"
            .as_bytes(),
    )
    .unwrap();
    assert_eq!(with_null.body.id, None);
    assert_eq!(with_null.body.in_reply_to, None);

    let absent = decode_message(
        "{\"src\":\"c1\",\"dest\":\"n1\",\"body\":{\"type\":\"echo\",\"echo\":\"x\"}}".as_bytes(),
    )
    .unwrap();
    assert_eq!(absent.body.id, None);
    assert_eq!(absent.body.in_reply_to, None);
}

#[test]
fn decoding_unescapes_string_content() {
    let m = decode_message(
        "{\"src\":\"c1\",\"dest\":\"n1\",\"body\":{\"type\":\"echo\",\"msg_id\":1,\"echo\":\"a\\\"b\\\\c\\nd\\te\\u0001f\\u0041\"}}"
            .as_bytes(),
    )
    .unwrap();
    match m.body.payload {
        Payload::Echo { echo } => assert_eq!(echo, "a\"b\\c\nd\te\u{1}fA"),
        _ => panic!("expected an echo payload"),
    }
}

#[test]
fn decoding_keeps_multibyte_text() {
    let m = decode_message(
        "{\"src\":\"c1\",\"dest\":\"n1\",\"body\":{\"type\":\"echo\",\"msg_id\":1,\"echo\":\"h\u{00e9}llo \u{2603}\"}}"
            .as_bytes(),
    )
    .unwrap();
    match m.body.payload {
        Payload::Echo { echo } => assert_eq!(echo, "h\u{00e9}llo \u{2603}"),
        _ => panic!("expected an echo payload"),
    }
}

#[test]
fn encoding_then_decoding_returns_the_message() {
    let m = msg(
        "c1",
        "n1",
        Some(41),
        Some(40),
        Payload::Init {
            node_id: "n\"1\\\n".to_string(),
            node_ids: vec!["n1".to_string(), "h\u{00e9}\u{7}".to_string()],
        },
    );
    let again = decode_message(&encode_message(&m)).unwrap();
    assert_eq!(again.source, m.source);
    assert_eq!(again.destination, m.destination);
    assert_eq!(again.body.id, m.body.id);
    assert_eq!(again.body.in_reply_to, m.body.in_reply_to);
    match (again.body.payload, m.body.payload) {
        (
            Payload::Init { node_id: a, node_ids: b },
            Payload::Init { node_id: c, node_ids: d },
        ) => {
            assert_eq!(a, c);
            assert_eq!(b, d);
        },
        _ => panic!("expected init payloads"),
    }
}

#[test]
fn decoding_rejects_malformed_records() {
    let bad = [
        "",
        "{",
        "nonsense",
        "{\"src\":\"c1\"}",
        // a missing envelope field
        "{\"src\":\"c1\",\"body\":{\"type\":\"init_ok\"}}",
        // an unknown payload tag
        "{\"src\":\"c1\",\"dest\":\"n1\",\"body\":{\"type\":\"ping\",\"msg_id\":1}}",
        // a missing required payload field
        "{\"src\":\"c1\",\"dest\":\"n1\",\"body\":{\"type\":\"echo\",\"msg_id\":1}}",
        // an unterminated string
        "{\"src\":\"c1\",\"dest\":\"n1\",\"body\":{\"type\":\"echo\",\"msg_id\":1,\"echo\":\"x}}",
        // an unknown escape
        "{\"src\":\"c1\",\"dest\":\"n1\",\"body\":{\"type\":\"echo\",\"msg_id\":1,\"echo\":\"\\x\"}}",
        // a control byte standing unescaped
        "{\"src\":\"c1\",\"dest\":\"n1\",\"body\":{\"type\":\"echo\",\"msg_id\":1,\"echo\":\"\u{1}\"}}",
        // a number with a superfluous leading zero
        "{\"src\":\"c1\",\"dest\":\"n1\",\"body\":{\"type\":\"echo\",\"msg_id\":01,\"echo\":\"x\"}}",
        // a number too large for a message id
        "{\"src\":\"c1\",\"dest\":\"n1\",\"body\":{\"type\":\"echo\",\"msg_id\":99999999999999999999999999,\"echo\":\"x\"}}",
        // trailing text after the record
        "{\"src\":\"c1\",\"dest\":\"n1\",\"body\":{\"type\":\"init_ok\",\"msg_id\":0}} ",
        // an extra, unknown field
        "{\"src\":\"c1\",\"dest\":\"n1\",\"body\":{\"type\":\"init_ok\",\"msg_id\":0,\"extra\":1}}",
    ];
    for line in bad {
        assert_eq!(
            decode_message(line.as_bytes()).err(),
            Some(DecodeError),
            "should have been refused: {line}",
        );
    }
}

#[test]
fn decoding_accepts_a_solidus_escape() {
    let m = decode_message(
        "{\"src\":\"c1\",\"dest\":\"n1\",\"body\":{\"type\":\"echo\",\"msg_id\":1,\"echo\":\"a\\/b\"}}"
            .as_bytes(),
    )
    .unwrap();
    match m.body.payload {
        Payload::Echo { echo } => assert_eq!(echo, "a/b"),
        _ => panic!("expected an echo payload"),
    }
}

#[test]
fn decoding_rejects_unicode_escapes_beyond_ascii() {
    // only `\u00..` escapes below 0x80 are read; larger ones are refused
    assert_eq!(
        decode_message(
            "{\"src\":\"c1\",\"dest\":\"n1\",\"body\":{\"type\":\"echo\",\"msg_id\":1,\"echo\":\"\\u0080\"}}"
                .as_bytes(),
        )
        .err(),
        Some(DecodeError),
    );
}

#[test]
fn decoding_demands_the_fixed_field_order() {
    // the codec reads one fixed field layout; a reordered envelope is refused
    assert_eq!(
        decode_message(
            "{\"dest\":\"n1\",\"src\":\"c1\",\"body\":{\"type\":\"init_ok\",\"msg_id\":0}}"
                .as_bytes(),
        )
        .err(),
        Some(DecodeError),
    );
}

#[test]
fn empty_strings_travel_both_ways() {
    let m = msg("", "", Some(0), None, Payload::Echo { echo: String::new() });
    let wire = encode(&m);
    assert_eq!(
        wire,
        "{\"src\":\"\",\"dest\":\"\",\"body\":{\"type\":\"echo\",\"msg_id\":0,\"in_reply_to\":null,\"echo\":\"\"}}",
    );
    let again = decode_message(wire.as_bytes()).unwrap();
    assert_eq!(again.source, "");
    assert_eq!(again.destination, "");
    match again.body.payload {
        Payload::Echo { echo } => assert_eq!(echo, ""),
        _ => panic!("expected an echo payload"),
    }
}

#[test]
fn decoding_rejects_bytes_that_are_not_utf8() {
    let mut line =
        "{\"src\":\"c1\",\"dest\":\"n1\",\"body\":{\"type\":\"echo\",\"msg_id\":1,\"echo\":\""
            .as_bytes()
            .to_vec();
    line.push(0xFF);
    line.extend_from_slice("\"}}".as_bytes());
    assert_eq!(decode_message(&line).err(), Some(DecodeError));
}
