use rustrom::echo::{self, EchoNode};
use rustrom::node::{Event, Node, NodeError};
use rustrom::protocol::{Body, Init, Message};
use rustrom::unique_ids::{self, UniqueIdNode};

fn init(id: &str) -> Init {
    Init { node_id: id.to_string(), node_ids: vec![id.to_string()] }
}

fn msg<P>(src: &str, dst: &str, id: Option<u32>, payload: P) -> Message<P> {
    Message {
        src: src.to_string(),
        dst: dst.to_string(),
        body: Body { id, in_reply_to: None, payload },
    }
}

fn generate(node: &mut UniqueIdNode, id: u32) -> String {
    let out = node
        .step(Event::Message(msg("c1", "n1", Some(id), unique_ids::Payload::Generate)))
        .unwrap_or_else(|e| panic!("step failed: {:?}", e));
    assert_eq!(out.len(), 1);
    assert_eq!(out[0].body.in_reply_to, Some(id));
    match &out[0].body.payload {
        unique_ids::Payload::GenerateOk { id } => id.clone(),
        unique_ids::Payload::Generate => panic!("not an answer"),
    }
}

#[test]
fn echo_returns_the_text() {
    let mut node = EchoNode::from_init(init("n1"));
    let out = node
        .step(Event::Message(msg("c1", "n1", Some(5), echo::Payload::Echo { echo: "hi there".to_string() })))
        .unwrap_or_else(|e| panic!("step failed: {:?}", e));
    assert_eq!(out.len(), 1);
    assert_eq!(out[0].src, "n1");
    assert_eq!(out[0].dst, "c1");
    assert_eq!(out[0].body.id, Some(1));
    assert_eq!(out[0].body.in_reply_to, Some(5));
    match &out[0].body.payload {
        echo::Payload::EchoOk { echo } => assert_eq!(echo, "hi there"),
        echo::Payload::Echo { .. } => panic!("not an answer"),
    }
}

#[test]
fn echo_notice_gets_no_answer() {
    let mut node = EchoNode::from_init(init("n1"));
    let out = node
        .step(Event::Message(msg("c1", "n1", None, echo::Payload::Echo { echo: "x".to_string() })))
        .unwrap_or_else(|e| panic!("step failed: {:?}", e));
    assert!(out.is_empty());
}

#[test]
fn echo_rejects_answers_and_injected_events_but_not_end_of_input() {
    let mut node = EchoNode::from_init(init("n1"));
    let r = node.step(Event::Message(msg("c1", "n1", Some(1), echo::Payload::EchoOk { echo: "x".to_string() })));
    assert!(matches!(r, Err(NodeError::UnhandledVariant)));
    assert!(matches!(node.step(Event::Injected(())), Err(NodeError::UnexpectedEvent)));
    match node.step(Event::EOF) {
        Ok(out) => assert!(out.is_empty()),
        Err(e) => panic!("end of input refused: {:?}", e),
    }
}

#[test]
fn unique_ids_count_up_in_decimal() {
    let mut node = UniqueIdNode::from_init(init("n1"));
    assert_eq!(generate(&mut node, 1), "n1-0");
    assert_eq!(generate(&mut node, 2), "n1-1");
    for k in 3..11 {
        generate(&mut node, k);
    }
    assert_eq!(generate(&mut node, 11), "n1-10");
    for k in 12..112 {
        generate(&mut node, k);
    }
    assert_eq!(generate(&mut node, 112), "n1-111");
}

#[test]
fn unique_ids_differ_across_nodes() {
    let mut a = UniqueIdNode::from_init(init("n1"));
    let mut b = UniqueIdNode::from_init(init("n12"));
    let x = generate(&mut a, 1);
    let y = generate(&mut b, 1);
    assert_ne!(x, y);
    assert_eq!(y, "n12-0");
}

#[test]
fn unique_ids_reject_answers() {
    let mut node = UniqueIdNode::from_init(init("n1"));
    let r = node.step(Event::Message(msg("c1", "n1", Some(1), unique_ids::Payload::GenerateOk { id: "n1-0".to_string() })));
    assert!(matches!(r, Err(NodeError::UnhandledVariant)));
    assert!(matches!(node.step(Event::Injected(())), Err(NodeError::UnexpectedEvent)));
    match node.step(Event::EOF) {
        Ok(out) => assert!(out.is_empty()),
        Err(e) => panic!("end of input refused: {:?}", e),
    }
}
