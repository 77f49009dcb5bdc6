use vstd::prelude::*;

verus! {

/// The correlation fields of a message, and its typed payload.
pub struct Body<Payload> {
    /// Set only when the sender expects a reply.
    pub id: Option<u32>,
    /// The `id` of the message that this one answers.
    pub in_reply_to: Option<u32>,
    pub payload: Payload,
}

/// One transmitted unit: source, destination and body.
pub struct Message<Payload> {
    pub src: String,
    pub dst: String,
    pub body: Body<Payload>,
}

/// What a message is, with node ids as character sequences and the payload
/// seen through its own view.
pub struct MessageView<V> {
    pub src: Seq<char>,
    pub dst: Seq<char>,
    pub id: Option<u32>,
    pub in_reply_to: Option<u32>,
    pub payload: V,
}

impl<Payload: View> View for Message<Payload> {
    type V = MessageView<Payload::V>;

    open spec fn view(&self) -> MessageView<Payload::V> {
        MessageView {
            src: self.src@,
            dst: self.dst@,
            id: self.body.id,
            in_reply_to: self.body.in_reply_to,
            payload: self.body.payload@,
        }
    }
}

/// The views of a sequence of messages, one for one.
pub open spec fn views<Payload: View>(msgs: Seq<Message<Payload>>) -> Seq<MessageView<Payload::V>> {
    msgs.map_values(|m: Message<Payload>| m@)
}

impl<Payload> Message<Payload> {
    /// Builds the answer to `self`: the addresses swapped, `in_reply_to` set to
    /// the id of `self`, and, where a counter is given, the counter advanced by
    /// one and its new value used as the answer's own id.
    pub fn into_reply_with_payload(self, id: Option<&mut u32>, payload: Payload) -> (r: Self)
        requires
            match id {
                Some(c) => *c < u32::MAX,
                None => true,
            },
        ensures
            r.src == self.dst,
            r.dst == self.src,
            r.body.in_reply_to == self.body.id,
            r.body.payload == payload,
            match id {
                Some(c) => *final(c) == *c + 1 && r.body.id == Some(*final(c)),
                None => r.body.id is None,
            },
    {
        let new_id = match id {
            Some(c) => {
                *c = *c + 1;
                Some(*c)
            },
            None => None,
        };
        Message {
            src: self.dst,
            dst: self.src,
            body: Body { id: new_id, in_reply_to: self.body.id, payload },
        }
    }
}

/// The payloads of the initialization handshake.
pub enum InitPayload {
    Init(Init),
    InitOk,
}

/// What a node learns at startup: its own id and the ids of all nodes.
pub struct Init {
    pub node_id: String,
    pub node_ids: Vec<String>,
}

/// Why a node could not start.
#[derive(Debug, Clone, Copy, PartialEq, Eq, Structural)]
pub enum BootError {
    /// The input ended before the first message.
    Missing,
    /// The first line is not a message.
    Unparseable,
    /// The first message is not an initialization request.
    NotInit,
}

/// Accepts the first message of a run. An initialization request gives the
/// node's startup data and the acknowledgement to send back: from the
/// addressed node to the sender, with id 0, answering the request's id. Any
/// other payload is refused.
pub fn accept_init(msg: Message<InitPayload>) -> (r: Result<(Init, Message<InitPayload>), BootError>)
    ensures
        match msg.body.payload {
            InitPayload::Init(init) => r matches Ok((i, reply)) && i == init && reply.src == msg.dst
                && reply.dst == msg.src && reply.body.id == Some(0u32) && reply.body.in_reply_to
                == msg.body.id && reply.body.payload is InitOk,
            InitPayload::InitOk => r == Err::<(Init, Message<InitPayload>), BootError>(
                BootError::NotInit,
            ),
        },
{
    let Message { src, dst, body } = msg;
    match body.payload {
        InitPayload::Init(init) => {
            let reply = Message {
                src: dst,
                dst: src,
                body: Body { id: Some(0), in_reply_to: body.id, payload: InitPayload::InitOk },
            };
            Ok((init, reply))
        },
        InitPayload::InitOk => Err(BootError::NotInit),
    }
}

} // verus!
