use vstd::prelude::*;

use crate::node::{Event, Node, NodeError};
use crate::protocol::{Init, Message};

verus! {

/// The messages of the echo service.
pub enum Payload {
    Echo { echo: String },
    EchoOk { echo: String },
}

/// A node that answers each echo request with the text it was sent.
pub struct EchoNode {
    id: String,
    msg_id: u32,
}

impl EchoNode {
    /// The node's own id.
    pub closed spec fn node_id(&self) -> Seq<char> {
        self.id@
    }

    /// The last message id that the node used.
    pub closed spec fn counter(&self) -> u32 {
        self.msg_id
    }
}

impl Node<Payload> for EchoNode {
    closed spec fn inv(&self) -> bool {
        true
    }

    fn from_init(init: Init) -> (r: Self)
        ensures
            r.node_id() == init.node_id@,
            r.counter() == 0,
    {
        EchoNode { id: init.node_id, msg_id: 0 }
    }

    /// Answers an echo request that carries an id with the same text; one
    /// without an id is a notice and gets no answer. The end of input does
    /// nothing.
    fn step(&mut self, input: Event<Payload>) -> (r: Result<Vec<Message<Payload>>, NodeError>)
        ensures
            final(self).node_id() == old(self).node_id(),
            match input {
                Event::Message(m) => match m.body.payload {
                    Payload::Echo { echo } => if m.body.id is None {
                        r matches Ok(out) && out@.len() == 0 && final(self).counter() == old(
                            self,
                        ).counter()
                    } else if old(self).counter() == u32::MAX {
                        r == Err::<Vec<Message<Payload>>, NodeError>(NodeError::IdsExhausted)
                            && final(self).counter() == old(self).counter()
                    } else {
                        &&& final(self).counter() == old(self).counter() + 1
                        &&& r matches Ok(out)
                        &&& out@.len() == 1
                        &&& out@[0].src@ == m.dst@
                        &&& out@[0].dst@ == m.src@
                        &&& out@[0].body.id == Some(final(self).counter())
                        &&& out@[0].body.in_reply_to == m.body.id
                        &&& out@[0].body.payload matches Payload::EchoOk { echo: e } && e@ == echo@
                    },
                    Payload::EchoOk { .. } => r == Err::<Vec<Message<Payload>>, NodeError>(
                        NodeError::UnhandledVariant,
                    ) && final(self).counter() == old(self).counter(),
                },
                Event::Injected(_) => r == Err::<Vec<Message<Payload>>, NodeError>(
                    NodeError::UnexpectedEvent,
                ) && final(self).counter() == old(self).counter(),
                Event::EOF => r matches Ok(out) && out@.len() == 0 && final(self).counter() == old(
                    self,
                ).counter(),
            },
    {
        let input = match input {
            Event::Message(m) => m,
            Event::Injected(_) => {
                return Err(NodeError::UnexpectedEvent);
            },
            Event::EOF => {
                return Ok(Vec::new());
            },
        };
        let payload = match &input.body.payload {
            Payload::Echo { echo } => Payload::EchoOk { echo: echo.clone() },
            Payload::EchoOk { .. } => {
                return Err(NodeError::UnhandledVariant);
            },
        };
        if input.body.id.is_none() {
            return Ok(Vec::new());
        }
        if self.msg_id == u32::MAX {
            return Err(NodeError::IdsExhausted);
        }
        let reply = input.into_reply_with_payload(Some(&mut self.msg_id), payload);
        let mut out: Vec<Message<Payload>> = Vec::new();
        out.push(reply);
        Ok(out)
    }
}

} // verus!
