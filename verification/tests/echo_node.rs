use echo_node::codec::{decode, encode, DecodeError};
use echo_node::node::EchoNode;
use echo_node::protocol::{Body, Message, Payload};

fn msg(src: &str, dst: &str, id: Option<u64>, reply_to: Option<u64>, payload: Payload) -> Message {
    Message {
        src: src.to_string(),
        dst: dst.to_string(),
        body: Body { id, reply_to, payload },
    }
}

#[test]
fn echo_gets_echo_ok_reply() {
    let mut node = EchoNode::new();
    let input = msg("c1", "n1", Some(5), None, Payload::Echo { echo: "hello".to_string() });
    let reply = node.handle(input).expect("echo must be answered");
    assert_eq!(reply.src, "n1");
    assert_eq!(reply.dst, "c1");
    assert_eq!(reply.body.id, Some(6));
    assert_eq!(reply.body.reply_to, Some(5));
    assert_eq!(reply.body.payload, Payload::EchoOk { echo: "hello".to_string() });
}

#[test]
fn echo_without_id_gets_reply_without_reply_to() {
    let mut node = EchoNode::new();
    let input = msg("c1", "n1", None, None, Payload::Echo { echo: "x".to_string() });
    let reply = node.handle(input).expect("echo must be answered");
    assert_eq!(reply.body.id, Some(1));
    assert_eq!(reply.body.reply_to, None);
}

#[test]
fn assigned_ids_strictly_increase() {
    let mut node = EchoNode::new();
    let incoming = [Some(10), None, Some(3), None, Some(100)];
    let mut seen: Vec<u64> = Vec::new();
    for id in incoming {
        let input = msg("c1", "n1", id, None, Payload::Echo { echo: "t".to_string() });
        let reply = node.handle(input).expect("echo must be answered");
        seen.push(reply.body.id.expect("a reply always carries an id"));
    }
    assert_eq!(seen, vec![11, 12, 13, 14, 101]);
    for w in seen.windows(2) {
        assert!(w[0] < w[1]);
    }
}

#[test]
fn init_records_identity_and_replies_init_ok() {
    let mut node = EchoNode::new();
    let input = msg(
        "c1",
        "n3",
        Some(1),
        None,
        Payload::Init {
            node_id: "n3".to_string(),
            node_ids: vec!["n1".to_string(), "n2".to_string(), "n3".to_string()],
        },
    );
    let reply = node.handle(input).expect("init must be answered");
    assert_eq!(node.node_id, Some("n3".to_string()));
    assert_eq!(reply.src, "n3");
    assert_eq!(reply.dst, "c1");
    assert_eq!(reply.body.id, Some(2));
    assert_eq!(reply.body.reply_to, Some(1));
    assert_eq!(reply.body.payload, Payload::InitOk);
}

#[test]
fn unknown_payload_is_ignored_not_fatal() {
    let mut node = EchoNode::new();
    let input = msg("c1", "n1", Some(7), None, Payload::Unknown { tag: "mystery".to_string() });
    assert!(node.handle(input).is_none());
    // the counter still advanced past the incoming id
    assert_eq!(node.msg_id, 8);
}

#[test]
fn recognized_but_unhandled_payloads_get_no_reply() {
    let mut node = EchoNode::new();
    let ok = msg("c1", "n1", Some(1), Some(9), Payload::EchoOk { echo: "x".to_string() });
    assert!(node.handle(ok).is_none());
    let ok2 = msg("c1", "n1", Some(2), Some(9), Payload::InitOk);
    assert!(node.handle(ok2).is_none());
}

#[test]
fn handle_near_id_limit() {
    let mut node = EchoNode::new();
    let input = msg("c1", "n1", Some(u64::MAX - 1), None, Payload::Echo { echo: "e".to_string() });
    let reply = node.handle(input).expect("echo must be answered");
    assert_eq!(reply.body.id, Some(u64::MAX));
}

#[test]
fn encode_echo_ok_exact_text() {
    let m = msg("n1", "c1", Some(3), Some(2), Payload::EchoOk { echo: "hi".to_string() });
    assert_eq!(
        encode(&m),
        "{\"src\":\"n1\",\"dest\":\"c1\",\"body\":{\"type\":\"echo_ok\",\"msg_id\":3,\"in_reply_to\":2,\"echo\":\"hi\"}}\n"
    );
}

#[test]
fn encode_init_exact_text() {
    let m = msg(
        "c1",
        "n1",
        Some(1),
        None,
        Payload::Init {
            node_id: "n1".to_string(),
            node_ids: vec!["n1".to_string(), "n2".to_string()],
        },
    );
    assert_eq!(
        encode(&m),
        "{\"src\":\"c1\",\"dest\":\"n1\",\"body\":{\"type\":\"init\",\"msg_id\":1,\"node_id\":\"n1\",\"node_ids\":[\"n1\",\"n2\"]}}\n"
    );
}

#[test]
fn encode_escapes_text() {
    let m = msg("a", "b", None, None, Payload::Echo { echo: "q\"\\\n\t\u{1}".to_string() });
    assert_eq!(
        encode(&m),
        "{\"src\":\"a\",\"dest\":\"b\",\"body\":{\"type\":\"echo\",\"echo\":\"q\\\"\\\\\\n\\t\\u0001\"}}\n"
    );
}

#[test]
fn encode_unknown_payload_has_only_its_tag() {
    let m = msg("a", "b", None, None, Payload::Unknown { tag: "mystery".to_string() });
    assert_eq!(
        encode(&m),
        "{\"src\":\"a\",\"dest\":\"b\",\"body\":{\"type\":\"mystery\"}}\n"
    );
}

#[test]
fn decode_then_encode_round_trips() {
    let samples = vec![
        msg("c1", "n1", Some(1), None, Payload::Echo { echo: "hi".to_string() }),
        msg("n1", "c1", Some(2), Some(1), Payload::EchoOk { echo: "hi".to_string() }),
        msg(
            "c1",
            "n1",
            Some(3),
            None,
            Payload::Init { node_id: "n1".to_string(), node_ids: vec!["n1".to_string()] },
        ),
        msg("n1", "c1", Some(4), Some(3), Payload::InitOk),
        msg("a", "b", None, None, Payload::Echo { echo: "é ❤ \"q\"\n".to_string() }),
        msg("a", "b", None, None, Payload::Unknown { tag: "mystery".to_string() }),
        msg(
            "a",
            "b",
            Some(u64::MAX),
            Some(0),
            Payload::Init { node_id: "x".to_string(), node_ids: vec![] },
        ),
    ];
    for m in samples {
        let line = encode(&m);
        let back = decode(&line).expect("an encoded envelope must decode");
        assert_eq!(back, m);
    }
}

#[test]
fn decode_accepts_any_member_order_and_whitespace() {
    let line = " { \"dest\" : \"n1\" , \"body\" : { \"echo\" : \"hi\" , \"msg_id\" : 7 , \"type\" : \"echo\" } , \"src\" : \"c1\" } ";
    let m = decode(line).expect("reordered members are still well formed");
    assert_eq!(m, msg("c1", "n1", Some(7), None, Payload::Echo { echo: "hi".to_string() }));
}

#[test]
fn decode_ignores_unknown_members() {
    let line = "{\"src\":\"c1\",\"dest\":\"n1\",\"extra\":[1,{\"deep\":true}],\"body\":{\"type\":\"echo\",\"msg_id\":1,\"echo\":\"hi\",\"spare\":null}}";
    let m = decode(line).expect("unknown members are ignored");
    assert_eq!(m.body.payload, Payload::Echo { echo: "hi".to_string() });
}

#[test]
fn decode_unknown_tag_is_ok_not_error() {
    let line = "{\"src\":\"c1\",\"dest\":\"n1\",\"body\":{\"type\":\"mystery\",\"x\":1.5,\"y\":{\"z\":[-1,2e3]}}}";
    let m = decode(line).expect("an unrecognized tag still decodes");
    assert_eq!(m.body.payload, Payload::Unknown { tag: "mystery".to_string() });
    let mut node = EchoNode::new();
    assert!(node.handle(m).is_none());
}

#[test]
fn decode_resolves_escapes() {
    let line = "{\"src\":\"a\",\"dest\":\"b\",\"body\":{\"type\":\"echo\",\"echo\":\"A\\u0041\\n\\t\\\"\\\\\\/\\ud83d\\ude00\"}}";
    let m = decode(line).expect("escapes are part of the wire format");
    assert_eq!(m.body.payload, Payload::Echo { echo: "AA\n\t\"\\/😀".to_string() });
}

#[test]
fn decode_null_ids_mean_absent() {
    let line = "{\"src\":\"a\",\"dest\":\"b\",\"body\":{\"type\":\"echo\",\"msg_id\":null,\"in_reply_to\":null,\"echo\":\"x\"}}";
    let m = decode(line).expect("null correlation ids are accepted");
    assert_eq!(m.body.id, None);
    assert_eq!(m.body.reply_to, None);
}

#[test]
fn decode_largest_id() {
    let line = "{\"src\":\"a\",\"dest\":\"b\",\"body\":{\"type\":\"echo\",\"msg_id\":18446744073709551615,\"echo\":\"x\"}}";
    let m = decode(line).expect("the largest 64-bit id fits");
    assert_eq!(m.body.id, Some(u64::MAX));
}

#[test]
fn decode_malformed_lines() {
    let bad = vec![
        "",
        "   ",
        "not json",
        "{",
        "{\"src\":\"a\"}",
        "{\"src\":\"a\",\"dest\":\"b\"}",
        "{\"src\":\"a\",\"dest\":\"b\",\"body\":{}}",
        "{\"src\":\"a\",\"dest\":\"b\",\"body\":{\"type\":\"echo\"}}",
        "{\"src\":\"a\",\"dest\":\"b\",\"body\":{\"type\":\"echo\",\"echo\":7}}",
        "{\"src\":\"a\",\"dest\":\"b\",\"body\":{\"type\":\"init\",\"node_id\":\"n1\",\"node_ids\":[\"n1\",2]}}",
        "{\"src\":\"a\",\"dest\":\"b\",\"body\":{\"type\":\"init\",\"node_id\":\"n1\"}}",
        "{\"src\":7,\"dest\":\"b\",\"body\":{\"type\":\"init_ok\"}}",
        "{\"src\":\"a\",\"dest\":\"b\",\"body\":[]}",
        "{\"src\":\"a\",\"dest\":\"b\",\"body\":{\"type\":\"echo\",\"msg_id\":1.5,\"echo\":\"x\"}}",
        "{\"src\":\"a\",\"dest\":\"b\",\"body\":{\"type\":\"echo\",\"msg_id\":18446744073709551616,\"echo\":\"x\"}}",
        "{\"src\":\"a\",\"dest\":\"b\",\"body\":{\"type\":\"echo\",\"echo\":\"x\"}} trailing",
        "{\"src\":\"a\",\"dest\":\"b\",\"body\":{\"type\":\"echo\",\"echo\":\"\\ud800 lone\"}}",
        "{\"src\":\"a\",\"dest\":\"b\",\"body\":{\"type\":\"echo\",\"echo\":\"unterminated}}",
    ];
    for line in bad {
        assert_eq!(decode(line), Err(DecodeError::Malformed), "line: {line}");
    }
}

#[test]
fn end_to_end_handshake_then_echo() {
    let mut node = EchoNode::new();

    let line1 = "{\"src\":\"c1\",\"dest\":\"n1\",\"body\":{\"type\":\"init\",\"msg_id\":1,\"node_id\":\"n1\",\"node_ids\":[\"n1\"]}}";
    let in1 = decode(line1).expect("handshake line decodes");
    let out1 = node.handle(in1).expect("init must be answered");
    assert_eq!(
        encode(&out1),
        "{\"src\":\"n1\",\"dest\":\"c1\",\"body\":{\"type\":\"init_ok\",\"msg_id\":2,\"in_reply_to\":1}}\n"
    );

    let line2 = "{\"src\":\"c1\",\"dest\":\"n1\",\"body\":{\"type\":\"echo\",\"msg_id\":2,\"echo\":\"hi\"}}";
    let in2 = decode(line2).expect("echo line decodes");
    let out2 = node.handle(in2).expect("echo must be answered");
    assert_eq!(
        encode(&out2),
        "{\"src\":\"n1\",\"dest\":\"c1\",\"body\":{\"type\":\"echo_ok\",\"msg_id\":3,\"in_reply_to\":2,\"echo\":\"hi\"}}\n"
    );
}

#[test]
fn second_init_overwrites_identity() {
    let mut node = EchoNode::new();
    let first = msg(
        "c1",
        "n1",
        Some(1),
        None,
        Payload::Init { node_id: "n1".to_string(), node_ids: vec!["n1".to_string()] },
    );
    node.handle(first).expect("init must be answered");
    let second = msg(
        "c1",
        "n1",
        Some(2),
        None,
        Payload::Init { node_id: "n9".to_string(), node_ids: vec!["n9".to_string()] },
    );
    let reply = node.handle(second).expect("init must be answered");
    assert_eq!(node.node_id, Some("n9".to_string()));
    assert_eq!(reply.src, "n9");
}

#[test]
fn fresh_node_state() {
    let node = EchoNode::new();
    assert_eq!(node.node_id, None);
    assert_eq!(node.msg_id, 0);
}

#[test]
fn decode_skips_deeply_nested_unknown_members() {
    let line = "{\"src\":\"a\",\"dest\":\"b\",\"junk\":{\"a\":[[1,[2,{\"b\":\"}]\\\"\"}]]],\"c\":false},\"body\":{\"type\":\"init_ok\",\"w\":[true,null,[]]}}";
    let m = decode(line).expect("unknown members of any shape are read over");
    assert_eq!(m.body.payload, Payload::InitOk);
}

#[test]
fn decode_duplicate_tag_last_wins() {
    let line = "{\"src\":\"a\",\"dest\":\"b\",\"body\":{\"type\":\"mystery\",\"type\":\"init_ok\"}}";
    let m = decode(line).expect("the later tag member counts");
    assert_eq!(m.body.payload, Payload::InitOk);
}

#[test]
fn decode_empty_node_ids() {
    let line = "{\"src\":\"a\",\"dest\":\"b\",\"body\":{\"type\":\"init\",\"node_id\":\"n1\",\"node_ids\":[]}}";
    let m = decode(line).expect("an empty membership list is well formed");
    assert_eq!(
        m.body.payload,
        Payload::Init { node_id: "n1".to_string(), node_ids: vec![] }
    );
}

#[test]
fn decode_node_ids_with_spaces() {
    let line = "{\"src\":\"a\",\"dest\":\"b\",\"body\":{\"type\":\"init\",\"node_id\":\"n1\",\"node_ids\":[ \"n1\" , \"n2\" ]}}";
    let m = decode(line).expect("whitespace inside the list is insignificant");
    assert_eq!(
        m.body.payload,
        Payload::Init {
            node_id: "n1".to_string(),
            node_ids: vec!["n1".to_string(), "n2".to_string()],
        }
    );
}

#[test]
fn decode_then_encode_reproduces_canonical_line() {
    let line = "{\"src\":\"c1\",\"dest\":\"n1\",\"body\":{\"type\":\"echo\",\"msg_id\":1,\"in_reply_to\":4,\"echo\":\"hi\"}}";
    let m = decode(line).expect("a canonical line decodes");
    assert_eq!(encode(&m), format!("{line}\n"));
}

#[test]
fn decode_rejects_leading_zero_ids() {
    let line = "{\"src\":\"a\",\"dest\":\"b\",\"body\":{\"type\":\"echo\",\"msg_id\":01,\"echo\":\"x\"}}";
    assert_eq!(decode(line), Err(DecodeError::Malformed));
}

#[test]
fn decode_rejects_misspelled_literals() {
    let line = "{\"src\":\"a\",\"dest\":\"b\",\"junk\":truely,\"body\":{\"type\":\"init_ok\"}}";
    assert_eq!(decode(line), Err(DecodeError::Malformed));
    let line2 = "{\"src\":\"a\",\"dest\":\"b\",\"junk\":nul,\"body\":{\"type\":\"init_ok\"}}";
    assert_eq!(decode(line2), Err(DecodeError::Malformed));
}
