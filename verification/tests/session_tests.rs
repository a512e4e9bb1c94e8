use maelstrom_node::node::{Node, Output};
use maelstrom_node::protocol::Payload;

fn reply_of(out: Output) -> String {
    match out {
        Output::Reply(s) => s,
        Output::Log(s) => panic!("expected a reply, got log: {s}"),
        Output::Silent => panic!("expected a reply, got silence"),
    }
}

fn log_of(out: Output) -> String {
    match out {
        Output::Log(s) => s,
        Output::Reply(s) => panic!("expected a log line, got reply: {s}"),
        Output::Silent => panic!("expected a log line, got silence"),
    }
}

#[test]
fn init_scenario() {
    let mut node = Node::new();
    let out = node.step(
        "{\"src\":\"c1\",\"dest\":\"n1\",\"body\":{\"type\":\"init\",\"node_id\":\"n1\",\"node_ids\":[\"n1\"],\"msg_id\":1}}",
    );
    assert_eq!(
        reply_of(out),
        "{\"src\":\"n1\",\"dest\":\"c1\",\"body\":{\"type\":\"init_ok\",\"in_reply_to\":1}}"
    );
    assert_eq!(node.get_id(), Some("n1".to_owned()));
    assert_eq!(node.get_node_ids(), vec!["n1".to_owned()]);
}

#[test]
fn add_then_read_scenario() {
    let mut node = Node::new();
    node.step(
        "{\"src\":\"c1\",\"dest\":\"n1\",\"body\":{\"type\":\"init\",\"node_id\":\"n1\",\"node_ids\":[\"n1\"],\"msg_id\":1}}",
    );
    let out = node.step(
        "{\"src\":\"c1\",\"dest\":\"n1\",\"body\":{\"type\":\"add\",\"delta\":5,\"msg_id\":2}}",
    );
    assert_eq!(
        reply_of(out),
        "{\"src\":\"n1\",\"dest\":\"c1\",\"body\":{\"type\":\"add_ok\",\"in_reply_to\":2}}"
    );
    let out = node.step("{\"src\":\"c1\",\"dest\":\"n1\",\"body\":{\"type\":\"read\",\"msg_id\":3}}");
    assert_eq!(
        reply_of(out),
        "{\"src\":\"n1\",\"dest\":\"c1\",\"body\":{\"type\":\"read_ok\",\"value\":5,\"in_reply_to\":3}}"
    );
}

#[test]
fn malformed_line_is_logged_and_skipped() {
    let mut node = Node::new();
    let out = node.step("this is not a message");
    assert_eq!(log_of(out), "could not decode line");
    // the session lives on and still answers
    let out = node.step("{\"src\":\"c1\",\"dest\":\"n1\",\"body\":{\"type\":\"read\",\"msg_id\":4}}");
    assert_eq!(
        reply_of(out),
        "{\"src\":\"n1\",\"dest\":\"c1\",\"body\":{\"type\":\"read_ok\",\"value\":0,\"in_reply_to\":4}}"
    );
}

#[test]
fn unknown_type_produces_no_output_line() {
    let mut node = Node::new();
    let out = node.step(
        "{\"src\":\"c1\",\"dest\":\"n1\",\"body\":{\"type\":\"frobnicate\",\"msg_id\":9}}",
    );
    assert!(matches!(out, Output::Silent));
}

#[test]
fn response_payloads_are_dropped_in_silence() {
    let mut node = Node::new();
    for line in [
        "{\"src\":\"c1\",\"dest\":\"n1\",\"body\":{\"type\":\"init_ok\",\"in_reply_to\":1}}",
        "{\"src\":\"c1\",\"dest\":\"n1\",\"body\":{\"type\":\"add_ok\"}}",
        "{\"src\":\"c1\",\"dest\":\"n1\",\"body\":{\"type\":\"read_ok\",\"value\":3}}",
    ] {
        assert!(matches!(node.step(line), Output::Silent), "line: {line}");
    }
}

#[test]
fn error_payload_is_logged_not_answered() {
    let mut node = Node::new();
    let out = node.step(
        "{\"src\":\"c1\",\"dest\":\"n1\",\"body\":{\"type\":\"error\",\"code\":13,\"text\":\"node crashed\",\"in_reply_to\":2}}",
    );
    assert_eq!(log_of(out), "[13]: node crashed");
}

#[test]
fn counter_accumulates_across_adds_and_reads() {
    let mut node = Node::new();
    node.step(
        "{\"src\":\"c1\",\"dest\":\"n1\",\"body\":{\"type\":\"init\",\"node_id\":\"n1\",\"node_ids\":[\"n1\"],\"msg_id\":1}}",
    );
    let mut expected: i64 = 0;
    let mut id: i32 = 2;
    for delta in [3, -1, 100, 0, 7] {
        let line = format!(
            "{{\"src\":\"c1\",\"dest\":\"n1\",\"body\":{{\"type\":\"add\",\"delta\":{delta},\"msg_id\":{id}}}}}"
        );
        node.step(&line);
        expected += delta;
        id += 1;
        // an interleaved read reflects the running sum
        let line = format!(
            "{{\"src\":\"c1\",\"dest\":\"n1\",\"body\":{{\"type\":\"read\",\"msg_id\":{id}}}}}"
        );
        let out = reply_of(node.step(&line));
        assert!(out.contains(&format!("\"value\":{expected}")));
        id += 1;
    }
}

#[test]
fn counter_wraps_at_integer_width() {
    let mut node = Node::new();
    let line = format!(
        "{{\"src\":\"c\",\"dest\":\"n\",\"body\":{{\"type\":\"add\",\"delta\":{},\"msg_id\":1}}}}",
        i32::MAX
    );
    node.step(&line);
    node.step("{\"src\":\"c\",\"dest\":\"n\",\"body\":{\"type\":\"add\",\"delta\":1,\"msg_id\":2}}");
    let out = reply_of(node.step("{\"src\":\"c\",\"dest\":\"n\",\"body\":{\"type\":\"read\",\"msg_id\":3}}"));
    assert!(out.contains(&format!("\"value\":{}", i32::MIN)));
}

#[test]
fn read_is_idempotent() {
    let mut node = Node::new();
    node.step("{\"src\":\"c\",\"dest\":\"n\",\"body\":{\"type\":\"add\",\"delta\":11,\"msg_id\":1}}");
    let a = reply_of(node.step("{\"src\":\"c\",\"dest\":\"n\",\"body\":{\"type\":\"read\",\"msg_id\":2}}"));
    let b = reply_of(node.step("{\"src\":\"c\",\"dest\":\"n\",\"body\":{\"type\":\"read\",\"msg_id\":2}}"));
    assert_eq!(a, b);
}

#[test]
fn second_init_overwrites_state() {
    let mut node = Node::new();
    node.step(
        "{\"src\":\"c1\",\"dest\":\"n1\",\"body\":{\"type\":\"init\",\"node_id\":\"n1\",\"node_ids\":[\"n1\",\"n2\"],\"msg_id\":1}}",
    );
    node.step(
        "{\"src\":\"c1\",\"dest\":\"n9\",\"body\":{\"type\":\"init\",\"node_id\":\"n9\",\"node_ids\":[\"n9\"],\"msg_id\":2}}",
    );
    assert_eq!(node.get_id(), Some("n9".to_owned()));
    assert_eq!(node.get_node_ids(), vec!["n9".to_owned()]);
}

#[test]
fn new_node_is_uninitialized() {
    let node = Node::new();
    assert_eq!(node.get_id(), None);
    assert!(node.get_node_ids().is_empty());
}

#[test]
fn dispatch_answers_requests_only() {
    let mut node = Node::new();
    assert_eq!(node.dispatch(&Payload::Read), Some(Payload::ReadOk { value: 0 }));
    assert_eq!(node.dispatch(&Payload::Add { delta: 4 }), Some(Payload::AddOk));
    assert_eq!(node.dispatch(&Payload::Read), Some(Payload::ReadOk { value: 4 }));
    assert_eq!(node.dispatch(&Payload::InitOk), None);
    assert_eq!(node.dispatch(&Payload::AddOk), None);
    assert_eq!(node.dispatch(&Payload::ReadOk { value: 1 }), None);
    assert_eq!(node.dispatch(&Payload::Error { code: 1, text: "e".to_owned() }), None);
}
