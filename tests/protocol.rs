use rustrom::protocol::{accept_init, Body, BootError, Init, InitPayload, Message};

fn msg<P>(src: &str, dst: &str, id: Option<u32>, payload: P) -> Message<P> {
    Message {
        src: src.to_string(),
        dst: dst.to_string(),
        body: Body { id, in_reply_to: None, payload },
    }
}

#[test]
fn reply_swaps_addresses_and_advances_counter() {
    let mut counter: u32 = 7;
    let reply = msg("c1", "n1", Some(3), 1u8).into_reply_with_payload(Some(&mut counter), 2u8);
    assert_eq!(counter, 8);
    assert_eq!(reply.src, "n1");
    assert_eq!(reply.dst, "c1");
    assert_eq!(reply.body.id, Some(8));
    assert_eq!(reply.body.in_reply_to, Some(3));
    assert_eq!(reply.body.payload, 2u8);
}

#[test]
fn reply_without_counter_has_no_id() {
    let reply = msg("c1", "n1", Some(4), 1u8).into_reply_with_payload(None, 9u8);
    assert_eq!(reply.body.id, None);
    assert_eq!(reply.body.in_reply_to, Some(4));
    assert_eq!(reply.body.payload, 9u8);
}

#[test]
fn reply_to_notice_answers_nothing() {
    let mut counter: u32 = 0;
    let reply = msg("c1", "n1", None, 1u8).into_reply_with_payload(Some(&mut counter), 2u8);
    assert_eq!(reply.body.in_reply_to, None);
    assert_eq!(reply.body.id, Some(1));
}

#[test]
fn init_is_acknowledged() {
    let init = Init {
        node_id: "n1".to_string(),
        node_ids: vec!["n1".to_string(), "n2".to_string()],
    };
    let m = msg("c0", "n1", Some(17), InitPayload::Init(init));
    let (init, reply) = match accept_init(m) {
        Ok(r) => r,
        Err(e) => panic!("refused: {:?}", e),
    };
    assert_eq!(init.node_id, "n1");
    assert_eq!(init.node_ids.len(), 2);
    assert_eq!(reply.src, "n1");
    assert_eq!(reply.dst, "c0");
    assert_eq!(reply.body.id, Some(0));
    assert_eq!(reply.body.in_reply_to, Some(17));
    assert!(matches!(reply.body.payload, InitPayload::InitOk));
}

#[test]
fn init_ok_as_first_message_is_refused() {
    let m = msg("c0", "n1", Some(1), InitPayload::InitOk);
    assert!(matches!(accept_init(m), Err(BootError::NotInit)));
}
