use vstd::hash_map::StringHashMap;
use vstd::prelude::*;

use crate::node::{Event, Node, NodeError};
use crate::protocol::{views, Body, Init, Message, MessageView};

verus! {

/// The messages that broadcast nodes exchange with clients and with each other.
pub enum Payload {
    /// Values that the sender holds and believes the receiver lacks.
    Gossip { seen: Vec<u32> },
    Broadcast { message: u32 },
    BroadcastOk,
    Read,
    ReadOk { messages: Vec<u32> },
    /// Each node's neighbors, one entry per node.
    Topology { topology: Vec<(String, Vec<String>)> },
    TopologyOk,
}

/// A payload with strings as character sequences and vectors as sequences.
pub enum PayloadView {
    Gossip { seen: Seq<u32> },
    Broadcast { message: u32 },
    BroadcastOk,
    Read,
    ReadOk { messages: Seq<u32> },
    Topology { topology: Seq<(Seq<char>, Seq<Seq<char>>)> },
    TopologyOk,
}

pub open spec fn names_view(names: Seq<String>) -> Seq<Seq<char>> {
    names.map_values(|s: String| s@)
}

pub open spec fn topology_view(t: Seq<(String, Vec<String>)>) -> Seq<(Seq<char>, Seq<Seq<char>>)> {
    t.map_values(|e: (String, Vec<String>)| (e.0@, names_view(e.1@)))
}

impl View for Payload {
    type V = PayloadView;

    open spec fn view(&self) -> PayloadView {
        match self {
            Payload::Gossip { seen } => PayloadView::Gossip { seen: seen@ },
            Payload::Broadcast { message } => PayloadView::Broadcast { message: *message },
            Payload::BroadcastOk => PayloadView::BroadcastOk,
            Payload::Read => PayloadView::Read,
            Payload::ReadOk { messages } => PayloadView::ReadOk { messages: messages@ },
            Payload::Topology { topology } => PayloadView::Topology {
                topology: topology_view(topology@),
            },
            Payload::TopologyOk => PayloadView::TopologyOk,
        }
    }
}

/// The events that a broadcast node's own timer injects.
#[derive(Debug, Clone, Copy, PartialEq, Eq, Structural)]
pub enum InjectedPayload {
    /// Time for a gossip round.
    Gossip,
}

/// The state of a broadcast node.
pub struct NodeState {
    /// The node's own id.
    pub id: Seq<char>,
    /// The last message id that the node used.
    pub msg_id: u32,
    /// Every value the node has observed, once each, in order of arrival.
    pub messages: Seq<u32>,
    /// The nodes that this node gossips with.
    pub neighbors: Seq<Seq<char>>,
    /// For each peer, the values it is known to hold.
    pub known: Map<Seq<char>, Seq<u32>>,
}

/// `msgs` with `v` added at the end, unless it is there already.
pub open spec fn add_value(msgs: Seq<u32>, v: u32) -> Seq<u32> {
    if msgs.contains(v) {
        msgs
    } else {
        msgs.push(v)
    }
}

/// `msgs` with each value of `seen` added in turn.
pub open spec fn merge(msgs: Seq<u32>, seen: Seq<u32>) -> Seq<u32>
    decreases seen.len(),
{
    if seen.len() == 0 {
        msgs
    } else {
        add_value(merge(msgs, seen.drop_last()), seen.last())
    }
}

/// The values of `msgs` that are not in `known`, in the order of `msgs`.
pub open spec fn missing(msgs: Seq<u32>, known: Seq<u32>) -> Seq<u32>
    decreases msgs.len(),
{
    if msgs.len() == 0 {
        Seq::empty()
    } else {
        let rest = missing(msgs.drop_last(), known);
        if known.contains(msgs.last()) {
            rest
        } else {
            rest.push(msgs.last())
        }
    }
}

/// The neighbors that a topology gives node `id`: those of its first entry.
pub open spec fn lookup(t: Seq<(Seq<char>, Seq<Seq<char>>)>, id: Seq<char>) -> Option<
    Seq<Seq<char>>,
>
    decreases t.len(),
{
    if t.len() == 0 {
        None
    } else if t[0].0 == id {
        Some(t[0].1)
    } else {
        lookup(t.drop_first(), id)
    }
}

/// What `peer` is known to hold; nothing where no record exists.
pub open spec fn known_of(s: NodeState, peer: Seq<char>) -> Seq<u32> {
    if s.known.contains_key(peer) {
        s.known[peer]
    } else {
        Seq::empty()
    }
}

/// A client request, which is answered where it carries an id.
pub open spec fn is_request(p: PayloadView) -> bool {
    p is Broadcast || p is Read || p is Topology
}

pub open spec fn needs_reply(m: MessageView<PayloadView>) -> bool {
    m.id is Some && is_request(m.payload)
}

/// A step fails exactly when a reply is owed and the counter is spent.
pub open spec fn fails(s: NodeState, ev: Event<Payload, InjectedPayload>) -> bool {
    match ev {
        Event::Message(m) => needs_reply(m@) && s.msg_id == u32::MAX,
        _ => false,
    }
}

/// The state after a message, before the counter moves.
pub open spec fn apply_message(s: NodeState, m: MessageView<PayloadView>) -> NodeState {
    match m.payload {
        PayloadView::Gossip { seen } => NodeState {
            messages: merge(s.messages, seen),
            known: s.known.insert(m.src, merge(known_of(s, m.src), seen)),
            ..s
        },
        PayloadView::Broadcast { message } => NodeState {
            messages: add_value(s.messages, message),
            ..s
        },
        PayloadView::Topology { topology } => match lookup(topology, s.id) {
            Some(n) => NodeState { neighbors: n, ..s },
            None => s,
        },
        _ => s,
    }
}

/// The state after a step that does not fail.
pub open spec fn next_state(s: NodeState, ev: Event<Payload, InjectedPayload>) -> NodeState {
    match ev {
        Event::Message(m) => {
            let t = apply_message(s, m@);
            if needs_reply(m@) {
                NodeState { msg_id: (s.msg_id + 1) as u32, ..t }
            } else {
                t
            }
        },
        _ => s,
    }
}

/// The state after any step: a failed one changes nothing.
pub open spec fn after(s: NodeState, ev: Event<Payload, InjectedPayload>) -> NodeState {
    if fails(s, ev) {
        s
    } else {
        next_state(s, ev)
    }
}

/// The answer to a request.
pub open spec fn response(s: NodeState, p: PayloadView) -> PayloadView {
    match p {
        PayloadView::Broadcast { .. } => PayloadView::BroadcastOk,
        PayloadView::Read => PayloadView::ReadOk { messages: s.messages },
        _ => PayloadView::TopologyOk,
    }
}

/// The gossip message for neighbor `n`: what this node holds beyond what `n`
/// is known to hold.
pub open spec fn gossip_to(s: NodeState, n: Seq<char>) -> MessageView<PayloadView> {
    MessageView {
        src: s.id,
        dst: n,
        id: None,
        in_reply_to: None,
        payload: PayloadView::Gossip { seen: missing(s.messages, known_of(s, n)) },
    }
}

/// One gossip message to each neighbor, in the order of the neighbor list.
pub open spec fn gossip_round(s: NodeState) -> Seq<MessageView<PayloadView>> {
    Seq::new(s.neighbors.len(), |i: int| gossip_to(s, s.neighbors[i]))
}

/// The messages that a step that does not fail sends.
pub open spec fn outputs(s: NodeState, ev: Event<Payload, InjectedPayload>) -> Seq<
    MessageView<PayloadView>,
> {
    match ev {
        Event::Message(m) => if needs_reply(m@) {
            seq![
                MessageView {
                    src: m@.dst,
                    dst: m@.src,
                    id: Some((s.msg_id + 1) as u32),
                    in_reply_to: m@.id,
                    payload: response(s, m@.payload),
                },
            ]
        } else {
            Seq::empty()
        },
        Event::Injected(_) => gossip_round(s),
        Event::EOF => Seq::empty(),
    }
}

proof fn lemma_add_value_distinct(msgs: Seq<u32>, v: u32)
    requires
        msgs.no_duplicates(),
    ensures
        add_value(msgs, v).no_duplicates(),
        add_value(msgs, v).to_set() == msgs.to_set().insert(v),
{
    if !msgs.contains(v) {
        let r = msgs.push(v);
        assert forall|i: int, j: int| 0 <= i < r.len() && 0 <= j < r.len() && i != j implies r[i]
            != r[j] by {
            if i == msgs.len() as int {
                assert(msgs[j] == r[j]);
            } else if j == msgs.len() as int {
                assert(msgs[i] == r[i]);
            }
        }
        assert(r.to_set() =~= msgs.to_set().insert(v)) by {
            assert forall|x: u32| r.to_set().contains(x) implies msgs.to_set().insert(v).contains(
                x,
            ) by {
                let k = choose|k: int| 0 <= k < r.len() && r[k] == x;
                if k < msgs.len() {
                    assert(msgs.contains(x));
                }
            }
            assert forall|x: u32| msgs.to_set().insert(v).contains(x) implies r.to_set().contains(
                x,
            ) by {
                if x == v {
                    assert(r[msgs.len() as int] == v);
                } else {
                    let k = choose|k: int| 0 <= k < msgs.len() && msgs[k] == x;
                    assert(r[k] == x);
                }
            }
        }
    } else {
        assert(msgs.to_set().insert(v) =~= msgs.to_set());
    }
}

/// Whether `v` holds `x`.
fn contains_value(v: &Vec<u32>, x: u32) -> (r: bool)
    ensures
        r == v@.contains(x),
{
    let mut i: usize = 0;
    while i < v.len()
        invariant
            0 <= i <= v.len(),
            forall|j: int| 0 <= j < i ==> v@[j] != x,
        decreases v.len() - i,
    {
        if v[i] == x {
            return true;
        }
        i = i + 1;
    }
    false
}

/// Adds `x` at the end of `v` unless `v` holds it.
fn add_value_into(v: &mut Vec<u32>, x: u32)
    ensures
        final(v)@ == add_value(old(v)@, x),
{
    if !contains_value(v, x) {
        v.push(x);
    }
}

/// Adds each value of `seen` to `v` in turn.
fn merge_into(v: &mut Vec<u32>, seen: &Vec<u32>)
    ensures
        final(v)@ == merge(old(v)@, seen@),
{
    let ghost v0 = v@;
    let mut i: usize = 0;
    while i < seen.len()
        invariant
            0 <= i <= seen.len(),
            v@ == merge(v0, seen@.subrange(0, i as int)),
        decreases seen.len() - i,
    {
        add_value_into(v, seen[i]);
        assert(seen@.subrange(0, i + 1).drop_last() =~= seen@.subrange(0, i as int));
        i = i + 1;
    }
    assert(seen@.subrange(0, seen.len() as int) =~= seen@);
}

/// The values of `msgs` that `known` lacks, in order.
fn missing_values(msgs: &Vec<u32>, known: &Vec<u32>) -> (r: Vec<u32>)
    ensures
        r@ == missing(msgs@, known@),
{
    let mut r: Vec<u32> = Vec::new();
    let mut i: usize = 0;
    while i < msgs.len()
        invariant
            0 <= i <= msgs.len(),
            r@ == missing(msgs@.subrange(0, i as int), known@),
        decreases msgs.len() - i,
    {
        assert(msgs@.subrange(0, i + 1).drop_last() =~= msgs@.subrange(0, i as int));
        if !contains_value(known, msgs[i]) {
            r.push(msgs[i]);
        }
        i = i + 1;
    }
    assert(msgs@.subrange(0, msgs.len() as int) =~= msgs@);
    r
}

/// A copy of `v`.
fn copy_values(v: &Vec<u32>) -> (r: Vec<u32>)
    ensures
        r@ == v@,
{
    let mut r: Vec<u32> = Vec::new();
    let mut i: usize = 0;
    while i < v.len()
        invariant
            0 <= i <= v.len(),
            r@ == v@.subrange(0, i as int),
        decreases v.len() - i,
    {
        r.push(v[i]);
        assert(r@ =~= v@.subrange(0, i + 1));
        i = i + 1;
    }
    assert(v@.subrange(0, v.len() as int) =~= v@);
    r
}

/// A copy of `v`.
fn copy_names(v: &Vec<String>) -> (r: Vec<String>)
    ensures
        r@ == v@,
{
    let mut r: Vec<String> = Vec::new();
    let mut i: usize = 0;
    while i < v.len()
        invariant
            0 <= i <= v.len(),
            r@ == v@.subrange(0, i as int),
        decreases v.len() - i,
    {
        let s = v[i].clone();
        r.push(s);
        assert(r@ =~= v@.subrange(0, i + 1));
        i = i + 1;
    }
    assert(v@.subrange(0, v.len() as int) =~= v@);
    r
}

proof fn lemma_merge_distinct(msgs: Seq<u32>, seen: Seq<u32>)
    requires
        msgs.no_duplicates(),
    ensures
        merge(msgs, seen).no_duplicates(),
        merge(msgs, seen).to_set() == msgs.to_set().union(seen.to_set()),
    decreases seen.len(),
{
    if seen.len() > 0 {
        lemma_merge_distinct(msgs, seen.drop_last());
        lemma_add_value_distinct(merge(msgs, seen.drop_last()), seen.last());
        assert(seen.to_set() =~= seen.drop_last().to_set().insert(seen.last())) by {
            assert forall|x: u32| seen.to_set().contains(x) implies seen.drop_last().to_set().insert(
                seen.last(),
            ).contains(x) by {
                let k = choose|k: int| 0 <= k < seen.len() && seen[k] == x;
                if k < seen.len() - 1 {
                    assert(seen.drop_last()[k] == x);
                }
            }
            assert forall|x: u32| seen.drop_last().to_set().insert(seen.last()).contains(
                x,
            ) implies seen.to_set().contains(x) by {
                if x != seen.last() {
                    let k = choose|k: int| 0 <= k < seen.len() - 1 && seen.drop_last()[k] == x;
                    assert(seen[k] == x);
                } else {
                    assert(seen[seen.len() - 1] == x);
                }
            }
        }
        assert(merge(msgs, seen).to_set() =~= msgs.to_set().union(seen.to_set()));
    } else {
        assert(seen.to_set() =~= Set::empty());
        assert(msgs.to_set().union(seen.to_set()) =~= msgs.to_set());
    }
}

/// A node of the broadcast system: it collects values, answers clients, and
/// gossips with its neighbors what they are not known to hold.
pub struct BroadcastNode {
    id: String,
    msg_id: u32,
    messages: Vec<u32>,
    neighbors: Vec<String>,
    known: StringHashMap<Vec<u32>>,
}

impl View for BroadcastNode {
    type V = NodeState;

    closed spec fn view(&self) -> NodeState {
        NodeState {
            id: self.id@,
            msg_id: self.msg_id,
            messages: self.messages@,
            neighbors: names_view(self.neighbors@),
            known: self.known@.map_values(|v: Vec<u32>| v@),
        }
    }
}

impl BroadcastNode {
    /// Adds a value to the collection.
    fn add_message(&mut self, v: u32)
        requires
            old(self)@.messages.no_duplicates(),
        ensures
            final(self)@ == (NodeState { messages: add_value(old(self)@.messages, v), ..old(self)@ }),
            final(self)@.messages.no_duplicates(),
    {
        proof {
            lemma_add_value_distinct(self.messages@, v);
        }
        add_value_into(&mut self.messages, v);
    }

    /// Takes in what `src` sent: into the collection, and into what `src` is
    /// known to hold.
    fn merge_gossip(&mut self, src: &String, seen: &Vec<u32>)
        requires
            old(self)@.messages.no_duplicates(),
        ensures
            final(self)@ == (NodeState {
                messages: merge(old(self)@.messages, seen@),
                known: old(self)@.known.insert(src@, merge(known_of(old(self)@, src@), seen@)),
                ..old(self)@
            }),
            final(self)@.messages.no_duplicates(),
    {
        proof {
            lemma_merge_distinct(self.messages@, seen@);
        }
        merge_into(&mut self.messages, seen);
        let mut k: Vec<u32> = match self.known.get(src.as_str()) {
            Some(v) => copy_values(v),
            None => Vec::new(),
        };
        merge_into(&mut k, seen);
        let ghost k0 = self.known@;
        self.known.insert(src.clone(), k);
        assert(self.known@.map_values(|v: Vec<u32>| v@) =~= k0.map_values(|v: Vec<u32>| v@).insert(
            src@,
            merge(known_of(old(self)@, src@), seen@),
        ));
    }

    /// Takes this node's entry of a topology, if there is one, as the new
    /// neighbor list.
    fn apply_topology(&mut self, topology: &Vec<(String, Vec<String>)>)
        ensures
            final(self)@ == match lookup(topology_view(topology@), old(self)@.id) {
                Some(n) => NodeState { neighbors: n, ..old(self)@ },
                None => old(self)@,
            },
    {
        let ghost tv = topology_view(topology@);
        assert(tv.subrange(0, tv.len() as int) =~= tv);
        let mut i: usize = 0;
        while i < topology.len()
            invariant
                0 <= i <= topology.len(),
                tv == topology_view(topology@),
                lookup(tv, self.id@) == lookup(tv.subrange(i as int, tv.len() as int), self.id@),
                self == old(self),
            decreases topology.len() - i,
        {
            let entry = &topology[i];
            if entry.0 == self.id {
                let n = copy_names(&entry.1);
                self.neighbors = n;
                return;
            }
            assert(tv.subrange(i as int, tv.len() as int).drop_first() =~= tv.subrange(
                i + 1,
                tv.len() as int,
            ));
            i = i + 1;
        }
    }

    /// One gossip message to each neighbor.
    fn gossip(&self) -> (r: Vec<Message<Payload>>)
        ensures
            views(r@) == gossip_round(self@),
    {
        let empty: Vec<u32> = Vec::new();
        let mut out: Vec<Message<Payload>> = Vec::new();
        let mut i: usize = 0;
        while i < self.neighbors.len()
            invariant
                0 <= i <= self.neighbors.len(),
                views(out@) =~= Seq::new(i as nat, |j: int| gossip_to(self@, self@.neighbors[j])),
                empty@ == Seq::<u32>::empty(),
            decreases self.neighbors.len() - i,
        {
            let n = &self.neighbors[i];
            let known: &Vec<u32> = match self.known.get(n.as_str()) {
                Some(v) => v,
                None => &empty,
            };
            assert(n@ == self@.neighbors[i as int]);
            assert(known@ == known_of(self@, n@));
            let seen = missing_values(&self.messages, known);
            let m = Message {
                src: self.id.clone(),
                dst: n.clone(),
                body: Body { id: None, in_reply_to: None, payload: Payload::Gossip { seen } },
            };
            assert(m@ == gossip_to(self@, self@.neighbors[i as int]));
            let ghost before = out@;
            out.push(m);
            assert(views(out@) =~= views(before).push(m@));
            assert(views(out@) =~= Seq::new(
                (i + 1) as nat,
                |j: int| gossip_to(self@, self@.neighbors[j]),
            ));
            i = i + 1;
        }
        out
    }

    /// Handles one message from the network.
    fn handle(&mut self, msg: Message<Payload>) -> (r: Result<Vec<Message<Payload>>, NodeError>)
        requires
            old(self)@.messages.no_duplicates(),
        ensures
            final(self)@ == after(old(self)@, Event::Message(msg)),
            final(self)@.messages.no_duplicates(),
            match r {
                Ok(out) => !fails(old(self)@, Event::Message(msg)) && views(out@) == outputs(
                    old(self)@,
                    Event::Message(msg),
                ),
                Err(e) => fails(old(self)@, Event::Message(msg)) && e == NodeError::IdsExhausted,
            },
    {
        let wants_reply = msg.body.id.is_some() && match &msg.body.payload {
            Payload::Broadcast { .. } | Payload::Read | Payload::Topology { .. } => true,
            _ => false,
        };
        if wants_reply && self.msg_id == u32::MAX {
            return Err(NodeError::IdsExhausted);
        }
        let response = match &msg.body.payload {
            Payload::Gossip { seen } => {
                self.merge_gossip(&msg.src, seen);
                None
            },
            Payload::Broadcast { message } => {
                self.add_message(*message);
                Some(Payload::BroadcastOk)
            },
            Payload::Read => Some(Payload::ReadOk { messages: copy_values(&self.messages) }),
            Payload::Topology { topology } => {
                self.apply_topology(topology);
                Some(Payload::TopologyOk)
            },
            _ => None,
        };
        let mut out: Vec<Message<Payload>> = Vec::new();
        if wants_reply {
            if let Some(payload) = response {
                let reply = msg.into_reply_with_payload(Some(&mut self.msg_id), payload);
                out.push(reply);
            }
        }
        assert(views(out@) =~= outputs(old(self)@, Event::Message(msg)));
        Ok(out)
    }
}

impl Node<Payload, InjectedPayload> for BroadcastNode {
    closed spec fn inv(&self) -> bool {
        self@.messages.no_duplicates()
    }

    /// A node with no values, no neighbors, and an empty record for each node
    /// of the roster.
    fn from_init(init: Init) -> (r: Self)
        ensures
            r@.id == init.node_id@,
            r@.msg_id == 1,
            r@.messages == Seq::<u32>::empty(),
            r@.neighbors == Seq::<Seq<char>>::empty(),
            forall|k: Seq<char>| #[trigger]
                r@.known.contains_key(k) == names_view(init.node_ids@).contains(k),
            forall|k: Seq<char>| #[trigger]
                r@.known.contains_key(k) ==> r@.known[k] == Seq::<u32>::empty(),
    {
        let Init { node_id, node_ids } = init;
        let mut known: StringHashMap<Vec<u32>> = StringHashMap::new();
        let mut i: usize = 0;
        while i < node_ids.len()
            invariant
                0 <= i <= node_ids.len(),
                forall|k: Seq<char>| #[trigger]
                    known@.contains_key(k) == names_view(node_ids@.subrange(0, i as int)).contains(k),
                forall|k: Seq<char>| #[trigger]
                    known@.contains_key(k) ==> known@[k]@ == Seq::<u32>::empty(),
            decreases node_ids.len() - i,
        {
            known.insert(node_ids[i].clone(), Vec::new());
            proof {
                let before = names_view(node_ids@.subrange(0, i as int));
                let now = names_view(node_ids@.subrange(0, i + 1));
                assert(now =~= before.push(node_ids@[i as int]@));
                assert forall|k: Seq<char>| #[trigger] known@.contains_key(k) == now.contains(k) by {
                    if now.contains(k) && k != node_ids@[i as int]@ {
                        let j = choose|j: int| 0 <= j < now.len() && now[j] == k;
                        assert(before[j] == k);
                    }
                    if before.contains(k) {
                        let j = choose|j: int| 0 <= j < before.len() && before[j] == k;
                        assert(now[j] == k);
                    }
                    if k == node_ids@[i as int]@ {
                        assert(now[i as int] == k);
                    }
                }
            }
            i = i + 1;
        }
        assert(node_ids@.subrange(0, node_ids.len() as int) =~= node_ids@);
        let r = BroadcastNode {
            id: node_id,
            msg_id: 1,
            messages: Vec::new(),
            neighbors: Vec::new(),
            known,
        };
        assert(r@.messages.no_duplicates());
        assert(r@.neighbors =~= Seq::<Seq<char>>::empty());
        r
    }

    /// Handles one event: a message is answered where it is a request with
    /// an id; a timer event makes a gossip round; the end of input does
    /// nothing.
    fn step(&mut self, input: Event<Payload, InjectedPayload>) -> (r: Result<
        Vec<Message<Payload>>,
        NodeError,
    >)
        ensures
            final(self)@ == after(old(self)@, input),
            match r {
                Ok(out) => !fails(old(self)@, input) && views(out@) == outputs(old(self)@, input),
                Err(e) => fails(old(self)@, input) && e == NodeError::IdsExhausted,
            },
    {
        match input {
            Event::Message(msg) => self.handle(msg),
            Event::Injected(InjectedPayload::Gossip) => Ok(self.gossip()),
            Event::EOF => {
                let out: Vec<Message<Payload>> = Vec::new();
                assert(views(out@) =~= Seq::empty());
                Ok(out)
            },
        }
    }
}

} // verus!
