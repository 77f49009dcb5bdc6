use vstd::prelude::*;

use crate::protocol::{Init, Message};

verus! {

/// One input of a node: a message from the network, an event that the node's
/// own sources inject (a timer), or the end of the input stream.
pub enum Event<Payload, InjectedPayload = ()> {
    Message(Message<Payload>),
    Injected(InjectedPayload),
    EOF,
}

/// Why a node gave up on an event. Each of these ends the run.
#[derive(Debug, Clone, Copy, PartialEq, Eq, Structural)]
pub enum NodeError {
    /// An event of a kind that this node has no source for.
    UnexpectedEvent,
    /// A payload that this node never receives as a request.
    UnhandledVariant,
    /// A reply is owed and the node's message counter has no next value.
    IdsExhausted,
}

/// A node state machine: built from the initialization data, then handed one
/// event at a time. Each step returns the messages to send, in order.
pub trait Node<Payload, InjectedPayload = ()>: Sized {
    /// What holds of every state of the node.
    spec fn inv(&self) -> bool;

    fn from_init(init: Init) -> (r: Self)
        ensures
            r.inv(),
    ;

    fn step(&mut self, input: Event<Payload, InjectedPayload>) -> (r: Result<
        Vec<Message<Payload>>,
        NodeError,
    >)
        requires
            old(self).inv(),
        ensures
            final(self).inv(),
    ;
}

} // verus!
