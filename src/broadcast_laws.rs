//! What holds of broadcast nodes across several steps, and of a network of
//! them across gossip rounds.

use vstd::prelude::*;

use crate::broadcast::{
    after, apply_message, fails, gossip_round, gossip_to, known_of, lookup, merge,
    missing, outputs, topology_view, NodeState, Payload, PayloadView, InjectedPayload,
};
use crate::node::Event;
use crate::protocol::{Message, MessageView};

verus! {

/// The state after a sequence of events, taken in order.
pub open spec fn run(s: NodeState, evs: Seq<Event<Payload, InjectedPayload>>) -> NodeState
    decreases evs.len(),
{
    if evs.len() == 0 {
        s
    } else {
        after(run(s, evs.drop_last()), evs.last())
    }
}

proof fn lemma_merge_keeps(msgs: Seq<u32>, seen: Seq<u32>, x: u32)
    requires
        msgs.contains(x) || seen.contains(x),
    ensures
        merge(msgs, seen).contains(x),
    decreases seen.len(),
{
    if seen.len() > 0 {
        let m = merge(msgs, seen.drop_last());
        if msgs.contains(x) || seen.drop_last().contains(x) {
            lemma_merge_keeps(msgs, seen.drop_last(), x);
        } else {
            assert(seen.last() == x) by {
                let k = choose|k: int| 0 <= k < seen.len() && seen[k] == x;
                if k < seen.len() - 1 {
                    assert(seen.drop_last()[k] == x);
                }
            }
        }
        if !m.contains(seen.last()) {
            assert(m.push(seen.last())[m.len() as int] == seen.last());
            if m.contains(x) {
                let k = choose|k: int| 0 <= k < m.len() && m[k] == x;
                assert(m.push(seen.last())[k] == x);
            }
        }
    }
}

proof fn lemma_missing_has(msgs: Seq<u32>, known: Seq<u32>, x: u32)
    requires
        msgs.contains(x),
        !known.contains(x),
    ensures
        missing(msgs, known).contains(x),
    decreases msgs.len(),
{
    let rest = missing(msgs.drop_last(), known);
    if msgs.last() == x {
        assert(rest.push(x)[rest.len() as int] == x);
    } else {
        let k = choose|k: int| 0 <= k < msgs.len() && msgs[k] == x;
        assert(msgs.drop_last()[k] == x);
        lemma_missing_has(msgs.drop_last(), known, x);
        if !known.contains(msgs.last()) {
            let j = choose|j: int| 0 <= j < rest.len() && rest[j] == x;
            assert(rest.push(msgs.last())[j] == x);
        }
    }
}

/// A step never takes a value out of the collection.
pub proof fn lemma_step_keeps_messages(s: NodeState, ev: Event<Payload, InjectedPayload>, x: u32)
    requires
        s.messages.contains(x),
    ensures
        after(s, ev).messages.contains(x),
{
    if !fails(s, ev) {
        if let Event::Message(m) = ev {
            match m@.payload {
                PayloadView::Gossip { seen } => lemma_merge_keeps(s.messages, seen, x),
                PayloadView::Broadcast { message } => {
                    if !s.messages.contains(message) {
                        let k = choose|k: int| 0 <= k < s.messages.len() && s.messages[k] == x;
                        assert(s.messages.push(message)[k] == x);
                    }
                },
                _ => {},
            }
        }
    }
}

/// Monotonicity: whatever the events that follow, a value that a node holds
/// stays in its collection.
pub proof fn lemma_messages_monotone(s: NodeState, evs: Seq<Event<Payload, InjectedPayload>>, x: u32)
    requires
        s.messages.contains(x),
    ensures
        run(s, evs).messages.contains(x),
    decreases evs.len(),
{
    if evs.len() > 0 {
        lemma_messages_monotone(s, evs.drop_last(), x);
        lemma_step_keeps_messages(run(s, evs.drop_last()), evs.last(), x);
    }
}

/// Idempotence: a second broadcast of a value leaves the collection as the
/// first one left it. (The first must not fail: a failed step adds nothing.)
pub proof fn lemma_broadcast_idempotent(
    s: NodeState,
    first: Message<Payload>,
    second: Message<Payload>,
)
    requires
        first.body.payload matches Payload::Broadcast { message: a } && second.body.payload matches Payload::Broadcast { message: b } && a == b,
        !fails(s, Event::Message(first)),
    ensures
        after(after(s, Event::Message(first)), Event::Message(second)).messages == after(
            s,
            Event::Message(first),
        ).messages,
{
    let once = after(s, Event::Message(first));
    if let Payload::Broadcast { message } = first.body.payload {
        assert(once.messages.contains(message)) by {
            if !s.messages.contains(message) {
                assert(s.messages.push(message)[s.messages.len() as int] == message);
            }
        }
    }
}

/// Topology replacement: after two topology messages, a node whose id has
/// an entry in the second has exactly that entry as its neighbors, whatever
/// the first said. (The second step must not fail: a failed step changes
/// nothing.)
pub proof fn lemma_topology_replaces(
    s: NodeState,
    first: Message<Payload>,
    second: Message<Payload>,
)
    requires
        first.body.payload is Topology,
        second.body.payload matches Payload::Topology { topology } && lookup(
            topology_view(topology@),
            s.id,
        ) is Some,
        !fails(after(s, Event::Message(first)), Event::Message(second)),
    ensures
        second.body.payload matches Payload::Topology { topology } && after(
            after(s, Event::Message(first)),
            Event::Message(second),
        ).neighbors == lookup(topology_view(topology@), s.id)->Some_0,
{
}

/// Reply correlation: what a node sends in answer to a message answers that
/// message's id, and a message without an id gets no answer.
pub proof fn lemma_reply_correlation(s: NodeState, m: Message<Payload>)
    ensures
        forall|i: int|
            0 <= i < outputs(s, Event::Message(m)).len() ==> #[trigger] outputs(
                s,
                Event::Message(m),
            )[i].in_reply_to == m.body.id,
        m.body.id is None ==> outputs(s, Event::Message(m)).len() == 0,
{
}

/// Read purity: a read changes no value, and two reads in a row answer with
/// the same values.
pub proof fn lemma_read_pure(s: NodeState, first: Message<Payload>, second: Message<Payload>)
    requires
        first.body.payload is Read,
        second.body.payload is Read,
    ensures
        after(s, Event::Message(first)).messages == s.messages,
        outputs(s, Event::Message(first)).len() == 1 && outputs(
            after(s, Event::Message(first)),
            Event::Message(second),
        ).len() == 1 ==> outputs(s, Event::Message(first))[0].payload == outputs(
            after(s, Event::Message(first)),
            Event::Message(second),
        )[0].payload,
{
}

/// One edge of a gossip round: when the message that a round of node `a`
/// sends to its neighbor `b` is delivered, `b` ends up holding every value of
/// `a` that `a` did not already count `b` as holding, and `b` counts `a` as
/// holding those values.
pub proof fn lemma_gossip_delivers(a: NodeState, b: NodeState, i: int, m: Message<Payload>, x: u32)
    requires
        0 <= i < a.neighbors.len(),
        a.neighbors[i] == b.id,
        m@ == gossip_round(a)[i],
        a.messages.contains(x),
        !known_of(a, b.id).contains(x),
    ensures
        after(b, Event::Message(m)).messages.contains(x),
        known_of(after(b, Event::Message(m)), a.id).contains(x),
{
    lemma_missing_has(a.messages, known_of(a, b.id), x);
    let seen = missing(a.messages, known_of(a, b.id));
    assert(m@.payload == PayloadView::Gossip { seen });
    lemma_merge_keeps(b.messages, seen, x);
    lemma_merge_keeps(known_of(b, a.id), seen, x);
}

proof fn lemma_merge_from(msgs: Seq<u32>, seen: Seq<u32>, x: u32)
    requires
        merge(msgs, seen).contains(x),
    ensures
        msgs.contains(x) || seen.contains(x),
    decreases seen.len(),
{
    if seen.len() > 0 {
        let m = merge(msgs, seen.drop_last());
        if x == seen.last() {
            assert(seen[seen.len() - 1] == x);
        } else {
            if !m.contains(seen.last()) {
                let k = choose|k: int| 0 <= k < m.len() + 1 && m.push(seen.last())[k] == x;
                assert(m[k] == x);
            }
            lemma_merge_from(msgs, seen.drop_last(), x);
            if seen.drop_last().contains(x) {
                let k = choose|k: int| 0 <= k < seen.len() - 1 && seen.drop_last()[k] == x;
                assert(seen[k] == x);
            }
        }
    }
}

proof fn lemma_missing_from(msgs: Seq<u32>, known: Seq<u32>, x: u32)
    requires
        missing(msgs, known).contains(x),
    ensures
        msgs.contains(x),
    decreases msgs.len(),
{
    let rest = missing(msgs.drop_last(), known);
    if msgs.last() == x {
        assert(msgs[msgs.len() - 1] == x);
    } else {
        if !known.contains(msgs.last()) {
            let k = choose|k: int| 0 <= k < rest.len() + 1 && rest.push(msgs.last())[k] == x;
            assert(rest[k] == x);
        }
        lemma_missing_from(msgs.drop_last(), known, x);
        let k = choose|k: int| 0 <= k < msgs.len() - 1 && msgs.drop_last()[k] == x;
        assert(msgs[k] == x);
    }
}

/// What node `a` records of a peer `b` stays true when `b`'s gossip
/// arrives: every value that `a` then counts `b` as holding was counted
/// before, or is held by `b`.
pub proof fn lemma_gossip_record_accurate(
    a: NodeState,
    b: NodeState,
    j: int,
    m: Message<Payload>,
    x: u32,
)
    requires
        0 <= j < b.neighbors.len(),
        b.neighbors[j] == a.id,
        m@ == gossip_round(b)[j],
        known_of(after(a, Event::Message(m)), b.id).contains(x),
    ensures
        known_of(a, b.id).contains(x) || b.messages.contains(x),
{
    let seen = missing(b.messages, known_of(b, a.id));
    assert(m@.payload == PayloadView::Gossip { seen });
    lemma_merge_from(known_of(a, b.id), seen, x);
    if seen.contains(x) {
        lemma_missing_from(b.messages, known_of(b, a.id), x);
    }
}

/// Where node `a` counts its neighbor `b` as holding only values that `b`
/// holds, delivering the message of one gossip round of `a` to `b` leaves
/// `b` holding every value of `a`.
pub proof fn lemma_gossip_covers(a: NodeState, b: NodeState, i: int, m: Message<Payload>, x: u32)
    requires
        0 <= i < a.neighbors.len(),
        a.neighbors[i] == b.id,
        m@ == gossip_round(a)[i],
        forall|y: u32| known_of(a, b.id).contains(y) ==> b.messages.contains(y),
        a.messages.contains(x),
    ensures
        after(b, Event::Message(m)).messages.contains(x),
{
    if known_of(a, b.id).contains(x) {
        lemma_step_keeps_messages(b, Event::Message(m), x);
    } else {
        lemma_gossip_delivers(a, b, i, m, x);
    }
}

proof fn lemma_apply_keeps(s: NodeState, m: MessageView<PayloadView>, x: u32)
    requires
        s.messages.contains(x),
    ensures
        apply_message(s, m).messages.contains(x),
{
    match m.payload {
        PayloadView::Gossip { seen } => lemma_merge_keeps(s.messages, seen, x),
        PayloadView::Broadcast { message } => {
            if !s.messages.contains(message) {
                let k = choose|k: int| 0 <= k < s.messages.len() && s.messages[k] == x;
                assert(s.messages.push(message)[k] == x);
            }
        },
        _ => {},
    }
}

/// A gossip message is a step with no reply: the node takes it in as
/// `apply_message` says.
pub proof fn lemma_gossip_step(s: NodeState, m: Message<Payload>)
    requires
        m.body.payload is Gossip,
    ensures
        after(s, Event::Message(m)) == apply_message(s, m@),
{
}

/// Every message of `msgs` is gossip.
pub open spec fn all_gossip(msgs: Seq<MessageView<PayloadView>>) -> bool {
    forall|i: int| 0 <= i < msgs.len() ==> (#[trigger] msgs[i]).payload is Gossip
}

/// Whether the message from `src` to `dst` is lost.
pub open spec fn is_lost(lost: Set<(Seq<char>, Seq<char>)>, m: MessageView<PayloadView>) -> bool {
    lost.contains((m.src, m.dst))
}

/// Node `s` after taking in, in order, the messages of `msgs` that are
/// addressed to it and not lost.
pub open spec fn receive(
    s: NodeState,
    msgs: Seq<MessageView<PayloadView>>,
    lost: Set<(Seq<char>, Seq<char>)>,
) -> NodeState
    decreases msgs.len(),
{
    if msgs.len() == 0 {
        s
    } else {
        let t = receive(s, msgs.drop_last(), lost);
        let m = msgs.last();
        if m.dst == s.id && !is_lost(lost, m) {
            apply_message(t, m)
        } else {
            t
        }
    }
}

/// The gossip messages of one round of the first `n` nodes of `net`.
pub open spec fn sent(net: Seq<NodeState>, n: int) -> Seq<MessageView<PayloadView>>
    decreases n,
{
    if n <= 0 {
        Seq::empty()
    } else {
        sent(net, n - 1) + gossip_round(net[n - 1])
    }
}

/// One gossip round of a whole network: every node sends its round, and
/// each node takes in what reaches it, all messages on `lost` edges dropped.
pub open spec fn round(net: Seq<NodeState>, lost: Set<(Seq<char>, Seq<char>)>) -> Seq<NodeState> {
    Seq::new(net.len(), |k: int| receive(net[k], sent(net, net.len() as int), lost))
}

/// Rounds one after another, round `r` losing the edges of `losts[r]`.
pub open spec fn rounds(net: Seq<NodeState>, losts: Seq<Set<(Seq<char>, Seq<char>)>>) -> Seq<
    NodeState,
>
    decreases losts.len(),
{
    if losts.len() == 0 {
        net
    } else {
        rounds(round(net, losts[0]), losts.drop_first())
    }
}

/// No two nodes share an id.
pub open spec fn distinct_ids(net: Seq<NodeState>) -> bool {
    forall|a: int, b: int|
        0 <= a < net.len() && 0 <= b < net.len() && a != b ==> #[trigger] net[a].id != #[trigger] net[b].id
}

/// Each node counts each other node as holding only values that it holds.
pub open spec fn records_accurate(net: Seq<NodeState>) -> bool {
    forall|j: int, k: int, y: u32|
        0 <= j < net.len() && 0 <= k < net.len() && #[trigger] known_of(net[j], net[k].id).contains(y)
            ==> #[trigger] net[k].messages.contains(y)
}

proof fn lemma_receive_frame(
    s: NodeState,
    msgs: Seq<MessageView<PayloadView>>,
    lost: Set<(Seq<char>, Seq<char>)>,
)
    requires
        all_gossip(msgs),
    ensures
        receive(s, msgs, lost).id == s.id,
        receive(s, msgs, lost).neighbors == s.neighbors,
    decreases msgs.len(),
{
    if msgs.len() > 0 {
        assert(msgs.last().payload is Gossip);
        lemma_receive_frame(s, msgs.drop_last(), lost);
    }
}

proof fn lemma_receive_keeps(
    s: NodeState,
    msgs: Seq<MessageView<PayloadView>>,
    lost: Set<(Seq<char>, Seq<char>)>,
    x: u32,
)
    requires
        s.messages.contains(x),
    ensures
        receive(s, msgs, lost).messages.contains(x),
    decreases msgs.len(),
{
    if msgs.len() > 0 {
        lemma_receive_keeps(s, msgs.drop_last(), lost, x);
        lemma_apply_keeps(receive(s, msgs.drop_last(), lost), msgs.last(), x);
    }
}

proof fn lemma_receive_gets(
    s: NodeState,
    msgs: Seq<MessageView<PayloadView>>,
    lost: Set<(Seq<char>, Seq<char>)>,
    i: int,
    x: u32,
)
    requires
        0 <= i < msgs.len(),
        msgs[i].dst == s.id,
        !is_lost(lost, msgs[i]),
        msgs[i].payload matches PayloadView::Gossip { seen } && seen.contains(x),
    ensures
        receive(s, msgs, lost).messages.contains(x),
    decreases msgs.len(),
{
    let t = receive(s, msgs.drop_last(), lost);
    if i == msgs.len() - 1 {
        if let PayloadView::Gossip { seen } = msgs.last().payload {
            lemma_merge_keeps(t.messages, seen, x);
        }
    } else {
        assert(msgs.drop_last()[i] == msgs[i]);
        lemma_receive_gets(s, msgs.drop_last(), lost, i, x);
        lemma_apply_keeps(t, msgs.last(), x);
    }
}

/// `m` is gossip that carries `y`.
pub open spec fn carries(m: MessageView<PayloadView>, y: u32) -> bool {
    m.payload matches PayloadView::Gossip { seen } && seen.contains(y)
}

/// Some gossip message of `msgs` from `p` carries `y`.
pub open spec fn carried_by(msgs: Seq<MessageView<PayloadView>>, p: Seq<char>, y: u32) -> bool {
    exists|i: int|
        0 <= i < msgs.len() && (#[trigger] msgs[i]).src == p && carries(msgs[i], y)
}

proof fn lemma_receive_record(
    s: NodeState,
    msgs: Seq<MessageView<PayloadView>>,
    lost: Set<(Seq<char>, Seq<char>)>,
    p: Seq<char>,
    y: u32,
)
    requires
        all_gossip(msgs),
        known_of(receive(s, msgs, lost), p).contains(y),
    ensures
        known_of(s, p).contains(y) || carried_by(msgs, p, y),
    decreases msgs.len(),
{
    if msgs.len() > 0 {
        let rest = msgs.drop_last();
        let t = receive(s, rest, lost);
        let m = msgs.last();
        assert(m.payload is Gossip);
        if m.dst == s.id && !is_lost(lost, m) && m.src == p {
            if let PayloadView::Gossip { seen } = m.payload {
                lemma_merge_from(known_of(t, p), seen, y);
                if seen.contains(y) {
                    assert(msgs[msgs.len() - 1] == m);
                } else {
                    lemma_receive_record(s, rest, lost, p, y);
                }
            }
        } else {
            lemma_receive_record(s, rest, lost, p, y);
        }
        if carried_by(rest, p, y) {
            let i = choose|i: int|
                0 <= i < rest.len() && (#[trigger] rest[i]).src == p && carries(rest[i], y);
            assert(msgs[i] == rest[i]);
        }
    }
}

proof fn lemma_sent_shape(net: Seq<NodeState>, n: int, i: int)
    requires
        0 <= n <= net.len(),
        0 <= i < sent(net, n).len(),
    ensures
        sent(net, n)[i].payload is Gossip,
        exists|j: int|
            0 <= j < n && sent(net, n)[i].src == #[trigger] net[j].id && (sent(net, n)[i].payload matches PayloadView::Gossip { seen } && forall|y: u32| seen.contains(y) ==> net[j].messages.contains(y)),
    decreases n,
{
    let prev = sent(net, n - 1);
    if i < prev.len() {
        lemma_sent_shape(net, n - 1, i);
        assert(sent(net, n)[i] == prev[i]);
    } else {
        let q = i - prev.len();
        let a = net[n - 1];
        assert(sent(net, n)[i] == gossip_to(a, a.neighbors[q]));
        assert forall|y: u32| missing(a.messages, known_of(a, a.neighbors[q])).contains(y) implies a.messages.contains(y) by {
            lemma_missing_from(a.messages, known_of(a, a.neighbors[q]), y);
        }
    }
}

proof fn lemma_sent_has(net: Seq<NodeState>, n: int, j: int, q: int) -> (i: int)
    requires
        0 <= j < n <= net.len(),
        0 <= q < net[j].neighbors.len(),
    ensures
        0 <= i < sent(net, n).len(),
        sent(net, n)[i] == gossip_to(net[j], net[j].neighbors[q]),
    decreases n,
{
    let prev = sent(net, n - 1);
    if j < n - 1 {
        let i = lemma_sent_has(net, n - 1, j, q);
        assert(sent(net, n)[i] == prev[i]);
        i
    } else {
        let i = prev.len() + q;
        assert(sent(net, n)[i] == gossip_round(net[j])[q]);
        i
    }
}

proof fn lemma_sent_gossip(net: Seq<NodeState>)
    ensures
        all_gossip(sent(net, net.len() as int)),
{
    assert forall|i: int| 0 <= i < sent(net, net.len() as int).len() implies (#[trigger] sent(
        net,
        net.len() as int,
    )[i]).payload is Gossip by {
        lemma_sent_shape(net, net.len() as int, i);
    }
}

proof fn lemma_round_frame(net: Seq<NodeState>, lost: Set<(Seq<char>, Seq<char>)>)
    ensures
        round(net, lost).len() == net.len(),
        forall|k: int| 0 <= k < net.len() ==> (#[trigger] round(net, lost)[k]).id == net[k].id
            && round(net, lost)[k].neighbors == net[k].neighbors,
        forall|k: int, x: u32| 0 <= k < net.len() && net[k].messages.contains(x) ==> #[trigger] round(net, lost)[k].messages.contains(x),
{
    lemma_sent_gossip(net);
    let msgs = sent(net, net.len() as int);
    assert forall|k: int| 0 <= k < net.len() implies (#[trigger] round(net, lost)[k]).id == net[k].id
        && round(net, lost)[k].neighbors == net[k].neighbors by {
        lemma_receive_frame(net[k], msgs, lost);
    }
    assert forall|k: int, x: u32| 0 <= k < net.len() && net[k].messages.contains(x) implies #[trigger] round(net, lost)[k].messages.contains(x) by {
        lemma_receive_keeps(net[k], msgs, lost, x);
    }
}

/// One round over one edge: where records are accurate, a value of node `j`
/// reaches its neighbor `k` in a round that does not lose the edge.
pub proof fn lemma_round_spreads(
    net: Seq<NodeState>,
    lost: Set<(Seq<char>, Seq<char>)>,
    j: int,
    k: int,
    x: u32,
)
    requires
        0 <= j < net.len(),
        0 <= k < net.len(),
        records_accurate(net),
        net[j].neighbors.contains(net[k].id),
        !lost.contains((net[j].id, net[k].id)),
        net[j].messages.contains(x),
    ensures
        round(net, lost)[k].messages.contains(x),
{
    let msgs = sent(net, net.len() as int);
    if known_of(net[j], net[k].id).contains(x) {
        lemma_receive_keeps(net[k], msgs, lost, x);
    } else {
        let q = choose|q: int| 0 <= q < net[j].neighbors.len() && net[j].neighbors[q] == net[k].id;
        let i = lemma_sent_has(net, net.len() as int, j, q);
        lemma_missing_has(net[j].messages, known_of(net[j], net[k].id), x);
        lemma_receive_gets(net[k], msgs, lost, i, x);
    }
}

/// A round keeps records accurate in a network whose ids are distinct.
pub proof fn lemma_round_accurate(net: Seq<NodeState>, lost: Set<(Seq<char>, Seq<char>)>)
    requires
        distinct_ids(net),
        records_accurate(net),
    ensures
        records_accurate(round(net, lost)),
        distinct_ids(round(net, lost)),
{
    let next = round(net, lost);
    let msgs = sent(net, net.len() as int);
    lemma_round_frame(net, lost);
    lemma_sent_gossip(net);
    assert forall|j: int, k: int, y: u32|
        0 <= j < next.len() && 0 <= k < next.len() && #[trigger] known_of(next[j], next[k].id).contains(y)
            implies #[trigger] next[k].messages.contains(y) by {
        lemma_receive_record(net[j], msgs, lost, net[k].id, y);
        if carried_by(msgs, net[k].id, y) {
            let i = choose|i: int|
                0 <= i < msgs.len() && (#[trigger] msgs[i]).src == net[k].id && carries(msgs[i], y);
            lemma_sent_shape(net, net.len() as int, i);
            let j2 = choose|j2: int|
                0 <= j2 < net.len() && msgs[i].src == #[trigger] net[j2].id && (msgs[i].payload matches PayloadView::Gossip { seen } && forall|z: u32| seen.contains(z) ==> net[j2].messages.contains(z));
            assert(j2 == k);
        }
        assert(net[k].messages.contains(y));
    }
    assert(distinct_ids(next));
}

/// A network whose nodes count no one as holding anything, as nodes are
/// after `from_init`, has accurate records.
pub proof fn lemma_fresh_accurate(net: Seq<NodeState>)
    requires
        forall|j: int, p: Seq<char>| 0 <= j < net.len() ==> #[trigger] known_of(net[j], p) == Seq::<u32>::empty(),
    ensures
        records_accurate(net),
{
    assert forall|j: int, k: int, y: u32|
        0 <= j < net.len() && 0 <= k < net.len() && #[trigger] known_of(net[j], net[k].id).contains(y)
            implies #[trigger] net[k].messages.contains(y) by {
        assert(known_of(net[j], net[k].id) == Seq::<u32>::empty());
    }
}

/// Convergence: in a network with distinct ids and accurate records (as
/// every fresh network has), a value held by the first node of a path of
/// neighbors reaches the last node, after as many rounds as the path has
/// edges, where round `r` does not lose the path's `r`-th edge; every other
/// message may be lost.
pub proof fn lemma_convergence(
    net: Seq<NodeState>,
    losts: Seq<Set<(Seq<char>, Seq<char>)>>,
    path: Seq<int>,
    x: u32,
)
    requires
        distinct_ids(net),
        records_accurate(net),
        path.len() == losts.len() + 1,
        forall|t: int| 0 <= t < path.len() ==> 0 <= #[trigger] path[t] < net.len(),
        forall|t: int|
            0 <= t < losts.len() ==> net[path[t]].neighbors.contains(net[#[trigger] path[t + 1]].id),
        forall|t: int|
            0 <= t < losts.len() ==> !(#[trigger] losts[t]).contains((net[path[t]].id, net[path[t + 1]].id)),
        net[path[0]].messages.contains(x),
    ensures
        rounds(net, losts)[path.last()].messages.contains(x),
    decreases losts.len(),
{
    if losts.len() > 0 {
        let next = round(net, losts[0]);
        lemma_round_frame(net, losts[0]);
        lemma_round_accurate(net, losts[0]);
        lemma_round_spreads(net, losts[0], path[0], path[1], x);
        let rest = path.drop_first();
        assert forall|t: int| 0 <= t < rest.len() implies 0 <= #[trigger] rest[t] < next.len() by {
            assert(rest[t] == path[t + 1]);
        }
        assert forall|t: int| 0 <= t < losts.drop_first().len() implies next[rest[t]].neighbors.contains(
            next[#[trigger] rest[t + 1]].id,
        ) by {
            assert(rest[t] == path[t + 1]);
            assert(rest[t + 1] == path[t + 2]);
            assert(losts.drop_first()[t] == losts[t + 1]);
        }
        assert forall|t: int| 0 <= t < losts.drop_first().len() implies !(#[trigger] losts.drop_first()[t]).contains(
            (next[rest[t]].id, next[rest[t + 1]].id),
        ) by {
            assert(rest[t] == path[t + 1]);
            assert(rest[t + 1] == path[t + 2]);
            assert(losts.drop_first()[t] == losts[t + 1]);
        }
        lemma_convergence(next, losts.drop_first(), rest, x);
        assert(rest.last() == path.last());
    } else {
        assert(path.last() == path[0]);
    }
}

} // verus!
