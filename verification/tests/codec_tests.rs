use maelstrom_node::codec::{decode, encode, DecodeError};
use maelstrom_node::protocol::{Body, Message, Payload};

fn msg(src: &str, dest: &str, msg_id: Option<i32>, in_reply_to: Option<i32>, rest: Payload) -> Message {
    Message {
        src: src.to_owned(),
        dest: dest.to_owned(),
        body: Body { msg_id, in_reply_to, rest },
    }
}

#[test]
fn encode_init_request() {
    let m = msg(
        "c1",
        "n1",
        Some(1),
        None,
        Payload::Init { node_id: "n1".to_owned(), node_ids: vec!["n1".to_owned()] },
    );
    assert_eq!(
        encode(&m),
        "{\"src\":\"c1\",\"dest\":\"n1\",\"body\":{\"type\":\"init\",\"node_id\":\"n1\",\"node_ids\":[\"n1\"],\"msg_id\":1}}"
    );
}

#[test]
fn encode_omits_absent_correlation_fields() {
    let m = msg("a", "b", None, None, Payload::Read);
    let line = encode(&m);
    assert_eq!(line, "{\"src\":\"a\",\"dest\":\"b\",\"body\":{\"type\":\"read\"}}");
    assert!(!line.contains("msg_id"));
    assert!(!line.contains("null"));
}

#[test]
fn encode_reply_shape() {
    let m = msg("n1", "c1", None, Some(3), Payload::ReadOk { value: 5 });
    assert_eq!(
        encode(&m),
        "{\"src\":\"n1\",\"dest\":\"c1\",\"body\":{\"type\":\"read_ok\",\"value\":5,\"in_reply_to\":3}}"
    );
}

#[test]
fn decode_add_request() {
    let line = "{\"src\":\"c1\",\"dest\":\"n1\",\"body\":{\"type\":\"add\",\"delta\":-7,\"msg_id\":2}}";
    let m = decode(line).unwrap();
    assert_eq!(m, msg("c1", "n1", Some(2), None, Payload::Add { delta: -7 }));
}

#[test]
fn round_trip_all_kinds() {
    let payloads = vec![
        Payload::Init {
            node_id: "n1".to_owned(),
            node_ids: vec!["n1".to_owned(), "n2".to_owned(), "n3".to_owned()],
        },
        Payload::Init { node_id: String::new(), node_ids: vec![] },
        Payload::Add { delta: 0 },
        Payload::Add { delta: i32::MIN },
        Payload::Add { delta: i32::MAX },
        Payload::Read,
        Payload::InitOk,
        Payload::AddOk,
        Payload::ReadOk { value: -1 },
        Payload::Error { code: 13, text: "went wrong".to_owned() },
    ];
    for (k, p) in payloads.into_iter().enumerate() {
        let m = msg("c1", "n1", Some(k as i32), Some(-(k as i32)), p);
        assert_eq!(decode(&encode(&m)).unwrap(), m);
    }
}

#[test]
fn round_trip_escaped_strings() {
    let m = msg(
        "a\"b",
        "c\\d",
        None,
        None,
        Payload::Error { code: -2, text: "line1\nline2\ttab\rcr".to_owned() },
    );
    let line = encode(&m);
    assert!(!line.contains('\n'));
    assert_eq!(decode(&line).unwrap(), m);
}

#[test]
fn round_trip_correlation_field_combinations() {
    for (mi, ir) in [(None, None), (Some(7), None), (None, Some(9)), (Some(7), Some(9))] {
        let m = msg("x", "y", mi, ir, Payload::AddOk);
        assert_eq!(decode(&encode(&m)).unwrap(), m);
    }
}

#[test]
fn decode_rejects_malformed_lines() {
    let bad = [
        "",
        "not json",
        "{\"src\":\"a\"}",
        "{\"src\":\"a\",\"dest\":\"b\",\"body\":{\"type\":\"read\"}",
        "{\"src\":\"a\",\"dest\":\"b\",\"body\":{\"type\":\"read\"}}trailing",
        "{\"src\":\"a\",\"dest\":\"b\",\"body\":{\"type\":\"add\",\"delta\":,\"msg_id\":1}}",
        "{\"src\":\"a\",\"dest\":\"b\",\"body\":{\"type\":\"add\",\"delta\":2147483648}}",
        "{\"src\":\"a\",\"dest\":\"b\",\"body\":{\"type\":\"add\",\"delta\":99999999999}}",
        "{\"src\":\"a\",\"dest\":\"b\",\"body\":{\"type\":\"init\",\"node_id\":\"n\"}}",
        "{\"src\":\"a\",\"dest\":\"b\",\"body\":{\"type\":\"read\",\"msg_id\":null}}",
    ];
    for line in bad {
        assert_eq!(decode(line), Err(DecodeError::Malformed), "line: {line}");
    }
}

#[test]
fn decode_accepts_extreme_values() {
    let line = "{\"src\":\"a\",\"dest\":\"b\",\"body\":{\"type\":\"add\",\"delta\":-2147483648,\"msg_id\":2147483647}}";
    let m = decode(line).unwrap();
    assert_eq!(m.body.rest, Payload::Add { delta: i32::MIN });
    assert_eq!(m.body.msg_id, Some(i32::MAX));
}

#[test]
fn decode_tells_unknown_type_apart() {
    let line = "{\"src\":\"c1\",\"dest\":\"n1\",\"body\":{\"type\":\"frobnicate\",\"msg_id\":9}}";
    assert_eq!(decode(line), Err(DecodeError::UnknownType));
}

#[test]
fn reply_swaps_addresses_and_correlates() {
    let req = msg("c1", "n1", Some(42), None, Payload::Read);
    let rep = req.reply(Payload::ReadOk { value: 0 });
    assert_eq!(rep.src, "n1");
    assert_eq!(rep.dest, "c1");
    assert_eq!(rep.body.msg_id, None);
    assert_eq!(rep.body.in_reply_to, Some(42));
    assert_eq!(rep.body.rest, Payload::ReadOk { value: 0 });
}

#[test]
fn reply_propagates_absent_msg_id_as_absent() {
    let req = msg("c1", "n1", None, None, Payload::Read);
    let rep = req.reply(Payload::ReadOk { value: 1 });
    assert_eq!(rep.body.in_reply_to, None);
}
