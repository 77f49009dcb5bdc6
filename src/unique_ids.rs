use vstd::prelude::*;
use vstd::string::StringExecFns;

use crate::node::{Event, Node, NodeError};
use crate::protocol::{Init, Message};

verus! {

/// The messages of the unique-id service.
pub enum Payload {
    Generate,
    GenerateOk { id: String },
}

/// The character of a decimal digit.
pub open spec fn digit_char(d: nat) -> char {
    if d == 0 {
        '0'
    } else if d == 1 {
        '1'
    } else if d == 2 {
        '2'
    } else if d == 3 {
        '3'
    } else if d == 4 {
        '4'
    } else if d == 5 {
        '5'
    } else if d == 6 {
        '6'
    } else if d == 7 {
        '7'
    } else if d == 8 {
        '8'
    } else {
        '9'
    }
}

/// The decimal digits of `n`, most significant first, without leading zeros.
pub open spec fn decimal(n: nat) -> Seq<char>
    decreases n,
{
    if n < 10 {
        seq![digit_char(n)]
    } else {
        decimal(n / 10).push(digit_char(n % 10))
    }
}

/// The id handed out by node `node` when its counter stands at `n`.
pub open spec fn unique_id(node: Seq<char>, n: u32) -> Seq<char> {
    node + seq!['-'] + decimal(n as nat)
}

fn digit_str(d: u32) -> (r: &'static str)
    requires
        d < 10,
    ensures
        r@ == seq![digit_char(d as nat)],
{
    proof {
        reveal_strlit("0");
        reveal_strlit("1");
        reveal_strlit("2");
        reveal_strlit("3");
        reveal_strlit("4");
        reveal_strlit("5");
        reveal_strlit("6");
        reveal_strlit("7");
        reveal_strlit("8");
        reveal_strlit("9");
    }
    if d == 0 {
        "0"
    } else if d == 1 {
        "1"
    } else if d == 2 {
        "2"
    } else if d == 3 {
        "3"
    } else if d == 4 {
        "4"
    } else if d == 5 {
        "5"
    } else if d == 6 {
        "6"
    } else if d == 7 {
        "7"
    } else if d == 8 {
        "8"
    } else {
        "9"
    }
}

/// Appends the decimal digits of `n` to `s`.
fn push_decimal(s: &mut String, n: u32)
    ensures
        final(s)@ == old(s)@ + decimal(n as nat),
    decreases n,
{
    if n >= 10 {
        push_decimal(s, n / 10);
    }
    s.append(digit_str(n % 10));
    proof {
        if n >= 10 {
            assert(decimal(n as nat) == decimal((n / 10) as nat).push(digit_char((n % 10) as nat)));
        }
    }
    assert(s@ =~= old(s)@ + decimal(n as nat));
}

/// A node that answers each request with its own id and a counter that
/// grows with each answer.
pub struct UniqueIdNode {
    id: String,
    msg_id: u32,
}

impl UniqueIdNode {
    /// The node's own id.
    pub closed spec fn node_id(&self) -> Seq<char> {
        self.id@
    }

    /// The last message id that the node used.
    pub closed spec fn counter(&self) -> u32 {
        self.msg_id
    }
}

impl Node<Payload> for UniqueIdNode {
    closed spec fn inv(&self) -> bool {
        true
    }

    fn from_init(init: Init) -> (r: Self)
        ensures
            r.node_id() == init.node_id@,
            r.counter() == 0,
    {
        UniqueIdNode { id: init.node_id, msg_id: 0 }
    }

    /// Answers a request that carries an id with the node's id and its
    /// counter, then advances the counter; one without an id gets no answer.
    /// The end of input does nothing.
    fn step(&mut self, input: Event<Payload>) -> (r: Result<Vec<Message<Payload>>, NodeError>)
        ensures
            final(self).node_id() == old(self).node_id(),
            match input {
                Event::Message(m) => match m.body.payload {
                    Payload::Generate => if m.body.id is None {
                        r matches Ok(out) && out@.len() == 0 && final(self).counter() == old(
                            self,
                        ).counter()
                    } else if old(self).counter() == u32::MAX {
                        r == Err::<Vec<Message<Payload>>, NodeError>(NodeError::IdsExhausted)
                            && final(self).counter() == old(self).counter()
                    } else {
                        &&& final(self).counter() == old(self).counter() + 1
                        &&& r matches Ok(out)
                        &&& out@.len() == 1
                        &&& out@[0].src@ == m.dst@
                        &&& out@[0].dst@ == m.src@
                        &&& out@[0].body.id == Some(final(self).counter())
                        &&& out@[0].body.in_reply_to == m.body.id
                        &&& out@[0].body.payload matches Payload::GenerateOk { id }
                            && id@ == unique_id(old(self).node_id(), old(self).counter())
                    },
                    Payload::GenerateOk { .. } => r == Err::<Vec<Message<Payload>>, NodeError>(
                        NodeError::UnhandledVariant,
                    ) && final(self).counter() == old(self).counter(),
                },
                Event::Injected(_) => r == Err::<Vec<Message<Payload>>, NodeError>(
                    NodeError::UnexpectedEvent,
                ) && final(self).counter() == old(self).counter(),
                Event::EOF => r matches Ok(out) && out@.len() == 0 && final(self).counter() == old(
                    self,
                ).counter(),
            },
    {
        let input = match input {
            Event::Message(m) => m,
            Event::Injected(_) => {
                return Err(NodeError::UnexpectedEvent);
            },
            Event::EOF => {
                return Ok(Vec::new());
            },
        };
        match &input.body.payload {
            Payload::Generate => {},
            Payload::GenerateOk { .. } => {
                return Err(NodeError::UnhandledVariant);
            },
        }
        if input.body.id.is_none() {
            return Ok(Vec::new());
        }
        if self.msg_id == u32::MAX {
            return Err(NodeError::IdsExhausted);
        }
        let mut id = self.id.clone();
        id.append("-");
        proof {
            reveal_strlit("-");
        }
        push_decimal(&mut id, self.msg_id);
        let reply = input.into_reply_with_payload(
            Some(&mut self.msg_id),
            Payload::GenerateOk { id },
        );
        let mut out: Vec<Message<Payload>> = Vec::new();
        out.push(reply);
        Ok(out)
    }
}

} // verus!
