//! End-to-end tests of the node state machine over the wire codec.

use echo_node::codec::{decode_message, encode_message};
use echo_node::msg::{Body, Message, Payload};
use echo_node::node::{EchoNode, NodeState, ProtocolError};

fn decode(line: &str) -> Message {
    decode_message(line.as_bytes()).expect("line should decode")
}

fn encode(m: &Message) -> String {
    String::from_utf8(encode_message(m)).expect("wire form should be UTF-8")
}

#[test]
fn init_then_two_echoes() {
    let mut node = EchoNode::new();

    let m1 = decode(
        "{\"src\":\"c1\",\"dest\":\"n1\",\"body\":{\"type\":\"init\",\"msg_id\":1,\"node_id\":\"n1\",\"node_ids\":[\"n1\"]}}",
    );
    let r1 = node.handle(m1).unwrap().expect("init should be answered");
    assert_eq!(
        encode(&r1),
        "{\"src\":\"n1\",\"dest\":\"c1\",\"body\":{\"type\":\"init_ok\",\"msg_id\":0,\"in_reply_to\":1}}",
    );

    let m2 = decode(
        "{\"src\":\"c1\",\"dest\":\"n1\",\"body\":{\"type\":\"echo\",\"msg_id\":2,\"echo\":\"hello\"}}",
    );
    let r2 = node.handle(m2).unwrap().expect("echo should be answered");
    assert_eq!(
        encode(&r2),
        "{\"src\":\"n1\",\"dest\":\"c1\",\"body\":{\"type\":\"echo_ok\",\"msg_id\":1,\"in_reply_to\":2,\"echo\":\"hello\"}}",
    );

    let m3 = decode(
        "{\"src\":\"c1\",\"dest\":\"n1\",\"body\":{\"type\":\"echo\",\"msg_id\":3,\"echo\":\"world\"}}",
    );
    let r3 = node.handle(m3).unwrap().expect("echo should be answered");
    assert_eq!(
        encode(&r3),
        "{\"src\":\"n1\",\"dest\":\"c1\",\"body\":{\"type\":\"echo_ok\",\"msg_id\":2,\"in_reply_to\":3,\"echo\":\"world\"}}",
    );
}

fn init_message(source: &str, destination: &str, id: usize) -> Message {
    Message {
        source: source.to_string(),
        destination: destination.to_string(),
        body: Body {
            id: Some(id),
            in_reply_to: None,
            payload: Payload::Init {
                node_id: destination.to_string(),
                node_ids: vec![destination.to_string()],
            },
        },
    }
}

fn echo_message(source: &str, destination: &str, id: usize, echo: &str) -> Message {
    Message {
        source: source.to_string(),
        destination: destination.to_string(),
        body: Body {
            id: Some(id),
            in_reply_to: None,
            payload: Payload::Echo { echo: echo.to_string() },
        },
    }
}

#[test]
fn init_reply_swaps_addresses_and_correlates() {
    let mut node = EchoNode::new();
    let reply = node.handle(init_message("c9", "n4", 77)).unwrap().unwrap();
    assert_eq!(reply.source, "n4");
    assert_eq!(reply.destination, "c9");
    assert_eq!(reply.body.id, Some(0));
    assert_eq!(reply.body.in_reply_to, Some(77));
    assert!(matches!(reply.body.payload, Payload::InitOk));
    assert!(matches!(node.state, NodeState::Ready { .. }));
}

#[test]
fn echo_reply_ids_count_up_from_one() {
    let mut node = EchoNode::new();
    node.handle(init_message("c1", "n1", 1)).unwrap();
    for expected_id in 1..=5usize {
        let reply = node
            .handle(echo_message("c1", "n1", 10 + expected_id, "ping"))
            .unwrap()
            .unwrap();
        assert_eq!(reply.body.id, Some(expected_id));
        assert_eq!(reply.body.in_reply_to, Some(10 + expected_id));
    }
}

#[test]
fn echo_is_returned_byte_identical() {
    let mut node = EchoNode::new();
    node.handle(init_message("c1", "n1", 1)).unwrap();
    let text = "h\u{00e9}llo \"quoted\" back\\slash \n tab\t end";
    let reply = node.handle(echo_message("c1", "n1", 2, text)).unwrap().unwrap();
    match reply.body.payload {
        Payload::EchoOk { echo } => assert_eq!(echo, text),
        _ => panic!("expected an echo_ok reply"),
    }
}

#[test]
fn echo_before_init_is_ignored() {
    let mut node = EchoNode::new();
    let r = node.handle(echo_message("c1", "n1", 1, "early")).unwrap();
    assert!(r.is_none());
    assert!(matches!(node.state, NodeState::Initializing));
}

#[test]
fn reply_payloads_are_ignored_in_both_states() {
    let mut node = EchoNode::new();
    let stray = Message {
        source: "c1".to_string(),
        destination: "n1".to_string(),
        body: Body { id: Some(9), in_reply_to: Some(3), payload: Payload::InitOk },
    };
    assert!(node.handle(stray).unwrap().is_none());

    node.handle(init_message("c1", "n1", 1)).unwrap();
    let stray_ok = Message {
        source: "c1".to_string(),
        destination: "n1".to_string(),
        body: Body {
            id: Some(10),
            in_reply_to: Some(4),
            payload: Payload::EchoOk { echo: "late".to_string() },
        },
    };
    assert!(node.handle(stray_ok).unwrap().is_none());
}

#[test]
fn second_init_is_fatal() {
    let mut node = EchoNode::new();
    node.handle(init_message("c1", "n1", 1)).unwrap();
    let err = node.handle(init_message("c1", "n1", 2)).unwrap_err();
    assert_eq!(err, ProtocolError::UnexpectedInit);
}

#[test]
fn misrouted_message_is_fatal() {
    let mut node = EchoNode::new();
    node.handle(init_message("c1", "n1", 1)).unwrap();
    let err = node.handle(echo_message("c1", "n2", 2, "lost")).unwrap_err();
    assert_eq!(err, ProtocolError::MisroutedMessage);
}
