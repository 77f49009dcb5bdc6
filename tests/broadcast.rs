use rustrom::broadcast::{BroadcastNode, InjectedPayload, Payload};
use rustrom::node::{Event, Node};
use rustrom::protocol::{Body, Init, Message};

fn ids(names: &[&str]) -> Vec<String> {
    names.iter().map(|s| s.to_string()).collect()
}

fn node(id: &str, all: &[&str]) -> BroadcastNode {
    BroadcastNode::from_init(Init { node_id: id.to_string(), node_ids: ids(all) })
}

fn msg(src: &str, dst: &str, id: Option<u32>, payload: Payload) -> Message<Payload> {
    Message {
        src: src.to_string(),
        dst: dst.to_string(),
        body: Body { id, in_reply_to: None, payload },
    }
}

fn step(n: &mut BroadcastNode, ev: Event<Payload, InjectedPayload>) -> Vec<Message<Payload>> {
    n.step(ev).unwrap_or_else(|e| panic!("step failed: {:?}", e))
}

fn deliver(n: &mut BroadcastNode, m: Message<Payload>) -> Vec<Message<Payload>> {
    step(n, Event::Message(m))
}

fn topology(entries: &[(&str, &[&str])]) -> Payload {
    Payload::Topology {
        topology: entries.iter().map(|(k, v)| (k.to_string(), ids(v))).collect(),
    }
}

fn read(n: &mut BroadcastNode, id: u32) -> Vec<u32> {
    let out = deliver(n, msg("c1", "x", Some(id), Payload::Read));
    assert_eq!(out.len(), 1);
    match &out[0].body.payload {
        Payload::ReadOk { messages } => messages.clone(),
        _ => panic!("not a read answer"),
    }
}

fn seen_of(m: &Message<Payload>) -> Vec<u32> {
    match &m.body.payload {
        Payload::Gossip { seen } => seen.clone(),
        _ => panic!("not gossip"),
    }
}

fn line() -> (BroadcastNode, BroadcastNode, BroadcastNode) {
    let all = ["n1", "n2", "n3"];
    let mut a = node("n1", &all);
    let mut b = node("n2", &all);
    let mut c = node("n3", &all);
    let t: &[(&str, &[&str])] = &[("n1", &["n2"]), ("n2", &["n1", "n3"]), ("n3", &["n2"])];
    for n in [&mut a, &mut b, &mut c] {
        let out = deliver(n, msg("c0", "x", Some(1), topology(t)));
        assert!(matches!(out[0].body.payload, Payload::TopologyOk));
    }
    (a, b, c)
}

/// Runs one gossip round on each node, then delivers every gossip message.
fn gossip_round(nodes: &mut [(&str, &mut BroadcastNode)]) {
    let mut sent = Vec::new();
    for (_, n) in nodes.iter_mut() {
        sent.extend(step(n, Event::Injected(InjectedPayload::Gossip)));
    }
    for m in sent {
        let k = nodes
            .iter()
            .position(|(name, _)| m.dst == *name)
            .unwrap_or_else(|| panic!("no node {}", m.dst));
        let out = deliver(nodes[k].1, m);
        assert!(out.is_empty());
    }
}

#[test]
fn line_topology_converges_round_by_round() {
    let (mut a, mut b, mut c) = line();
    let out = deliver(&mut a, msg("c1", "n1", Some(10), Payload::Broadcast { message: 5 }));
    assert!(matches!(out[0].body.payload, Payload::BroadcastOk));
    gossip_round(&mut [("n1", &mut a), ("n2", &mut b), ("n3", &mut c)]);
    assert_eq!(read(&mut b, 20), vec![5]);
    assert_eq!(read(&mut c, 21), Vec::<u32>::new());
    gossip_round(&mut [("n1", &mut a), ("n2", &mut b), ("n3", &mut c)]);
    assert_eq!(read(&mut c, 22), vec![5]);
    let out = deliver(&mut c, msg("c1", "n3", Some(23), Payload::Read));
    assert_eq!(out[0].src, "n3");
    assert_eq!(out[0].dst, "c1");
    assert_eq!(out[0].body.in_reply_to, Some(23));
}

#[test]
fn values_reach_every_node_from_any_start() {
    let (mut a, mut b, mut c) = line();
    deliver(&mut a, msg("c1", "n1", Some(1), Payload::Broadcast { message: 1 }));
    deliver(&mut c, msg("c1", "n3", Some(1), Payload::Broadcast { message: 3 }));
    deliver(&mut b, msg("c1", "n2", None, Payload::Broadcast { message: 2 }));
    for _ in 0..3 {
        gossip_round(&mut [("n1", &mut a), ("n2", &mut b), ("n3", &mut c)]);
    }
    for n in [&mut a, &mut b, &mut c] {
        let mut got = read(n, 50);
        got.sort();
        assert_eq!(got, vec![1, 2, 3]);
    }
}

#[test]
fn lost_gossip_only_delays_convergence() {
    let (mut a, mut b, _c) = line();
    deliver(&mut a, msg("c1", "n1", Some(1), Payload::Broadcast { message: 8 }));
    let lost = step(&mut a, Event::Injected(InjectedPayload::Gossip));
    assert_eq!(seen_of(&lost[0]), vec![8]);
    let again = step(&mut a, Event::Injected(InjectedPayload::Gossip));
    assert_eq!(again[0].dst, "n2");
    assert_eq!(seen_of(&again[0]), vec![8]);
    deliver(&mut b, again.into_iter().next().unwrap_or_else(|| panic!("no gossip")));
    assert_eq!(read(&mut b, 2), vec![8]);
}

#[test]
fn gossip_from_a_peer_is_not_sent_back() {
    let (mut a, _b, _c) = line();
    let g = msg("n2", "n1", None, Payload::Gossip { seen: vec![4, 6, 4] });
    assert!(deliver(&mut a, g).is_empty());
    assert_eq!(read(&mut a, 1), vec![4, 6]);
    deliver(&mut a, msg("c1", "n1", Some(2), Payload::Broadcast { message: 7 }));
    let out = step(&mut a, Event::Injected(InjectedPayload::Gossip));
    assert_eq!(out.len(), 1);
    assert_eq!(out[0].src, "n1");
    assert_eq!(out[0].dst, "n2");
    assert_eq!(out[0].body.id, None);
    assert_eq!(out[0].body.in_reply_to, None);
    assert_eq!(seen_of(&out[0]), vec![7]);
}

#[test]
fn gossip_round_without_neighbors_sends_nothing() {
    let mut a = node("n1", &["n1", "n2"]);
    deliver(&mut a, msg("c1", "n1", Some(1), Payload::Broadcast { message: 1 }));
    assert!(step(&mut a, Event::Injected(InjectedPayload::Gossip)).is_empty());
    assert!(step(&mut a, Event::EOF).is_empty());
}

#[test]
fn gossip_to_unknown_neighbor_sends_everything() {
    let mut a = node("n1", &["n1"]);
    deliver(&mut a, msg("c0", "n1", Some(1), topology(&[("n1", &["n9"])])));
    deliver(&mut a, msg("c1", "n1", Some(2), Payload::Broadcast { message: 3 }));
    deliver(&mut a, msg("c1", "n1", Some(3), Payload::Broadcast { message: 1 }));
    let out = step(&mut a, Event::Injected(InjectedPayload::Gossip));
    assert_eq!(out[0].dst, "n9");
    assert_eq!(seen_of(&out[0]), vec![3, 1]);
}

#[test]
fn broadcast_twice_is_broadcast_once() {
    let mut a = node("n1", &["n1"]);
    deliver(&mut a, msg("c1", "n1", Some(1), Payload::Broadcast { message: 9 }));
    let once = read(&mut a, 2);
    deliver(&mut a, msg("c1", "n1", Some(3), Payload::Broadcast { message: 9 }));
    assert_eq!(read(&mut a, 4), once);
    assert_eq!(once, vec![9]);
}

#[test]
fn second_topology_replaces_the_first() {
    let mut a = node("n1", &["n1", "n2", "n3", "n4"]);
    deliver(&mut a, msg("c0", "n1", Some(1), topology(&[("n1", &["n2", "n3"])])));
    deliver(&mut a, msg("c0", "n1", Some(2), topology(&[("n2", &["n1"]), ("n1", &["n4"])])));
    let out = step(&mut a, Event::Injected(InjectedPayload::Gossip));
    assert_eq!(out.len(), 1);
    assert_eq!(out[0].dst, "n4");
}

#[test]
fn topology_without_own_entry_keeps_neighbors() {
    let mut a = node("n1", &["n1", "n2", "n3"]);
    deliver(&mut a, msg("c0", "n1", Some(1), topology(&[("n1", &["n2"])])));
    let out = deliver(&mut a, msg("c0", "n1", Some(2), topology(&[("n3", &["n2"])])));
    assert!(matches!(out[0].body.payload, Payload::TopologyOk));
    let out = step(&mut a, Event::Injected(InjectedPayload::Gossip));
    assert_eq!(out.len(), 1);
    assert_eq!(out[0].dst, "n2");
}

#[test]
fn replies_answer_the_request_id() {
    let mut a = node("n1", &["n1"]);
    let out = deliver(&mut a, msg("c1", "n1", Some(41), Payload::Broadcast { message: 1 }));
    assert_eq!(out[0].body.in_reply_to, Some(41));
    assert_eq!(out[0].body.id, Some(2));
    let out = deliver(&mut a, msg("c2", "n1", Some(42), Payload::Read));
    assert_eq!(out[0].body.in_reply_to, Some(42));
    assert_eq!(out[0].body.id, Some(3));
    assert_eq!(out[0].dst, "c2");
    let out = deliver(&mut a, msg("c3", "n1", Some(43), topology(&[])));
    assert_eq!(out[0].body.in_reply_to, Some(43));
}

#[test]
fn requests_without_id_get_no_reply() {
    let mut a = node("n1", &["n1"]);
    assert!(deliver(&mut a, msg("n2", "n1", None, Payload::Broadcast { message: 1 })).is_empty());
    assert!(deliver(&mut a, msg("c1", "n1", None, Payload::Read)).is_empty());
    assert!(deliver(&mut a, msg("c1", "n1", None, topology(&[]))).is_empty());
    assert_eq!(read(&mut a, 5), vec![1]);
}

#[test]
fn answers_are_ignored() {
    let mut a = node("n1", &["n1"]);
    assert!(deliver(&mut a, msg("n2", "n1", Some(1), Payload::BroadcastOk)).is_empty());
    assert!(deliver(&mut a, msg("n2", "n1", Some(2), Payload::ReadOk { messages: vec![3] })).is_empty());
    assert!(deliver(&mut a, msg("n2", "n1", Some(3), Payload::TopologyOk)).is_empty());
    assert_eq!(read(&mut a, 5), Vec::<u32>::new());
}

#[test]
fn read_twice_gives_the_same_values() {
    let mut a = node("n1", &["n1"]);
    deliver(&mut a, msg("c1", "n1", Some(1), Payload::Broadcast { message: 2 }));
    deliver(&mut a, msg("n2", "n1", None, Payload::Gossip { seen: vec![5] }));
    let first = read(&mut a, 2);
    let second = read(&mut a, 3);
    assert_eq!(first, second);
    assert_eq!(first, vec![2, 5]);
}
