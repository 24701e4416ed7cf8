//! Messages of the stand-alone layer and the interface its nodes implement:
//! unlike the generic core, each node owns its framework state and processes
//! a message end to end.
use vstd::prelude::*;
use crate::node::Node;
use crate::sim_core::message::HandlerError;
use crate::sim_core::node::{CLOCK_LIMIT, MESSAGE_DELAY};
use crate::sim_core::queue::MessageQueue;
use crate::sim_core::runner::{later, received};
use crate::types::block::Block;
use crate::types::chunk::{ChunkPart, ChunkPartID};
use crate::naming::{decimal, push_decimal};
use crate::text::{block_text, chunk_part_id_text, chunk_part_text, push_block, push_chunk_part, push_chunk_part_id};

verus! {

/// What the stand-alone layer's messages carry.
#[derive(Debug, PartialEq, Eq, Hash)]
pub enum MessagePayload {
    /// Start-up signal.
    Init,
    /// A ping carrying the sender's ping counter.
    Ping(u32),
    /// The answer to a ping, echoing its counter.
    Pong(u32),
    /// A block.
    Block(Block),
    /// One part of a chunk, for storage.
    ChunkPart(ChunkPart),
    /// An attestation that a chunk part is stored.
    StatementChunkPartStored(ChunkPartID),
}

/// A message of the stand-alone layer.
pub type Message = crate::sim_core::message::Message<MessagePayload>;

/// How a payload is shown in logs.
pub open spec fn payload_text(p: MessagePayload) -> Seq<u8> {
    match p {
        MessagePayload::Init => seq![73u8, 110, 105, 116],
        MessagePayload::Ping(c) => seq![80u8, 105, 110, 103, 40] + decimal(c as nat) + seq![41u8],
        MessagePayload::Pong(c) => seq![80u8, 111, 110, 103, 40] + decimal(c as nat) + seq![41u8],
        MessagePayload::Block(b) => block_text(b@),
        MessagePayload::ChunkPart(c) => chunk_part_text(c),
        MessagePayload::StatementChunkPartStored(id) => seq![67u8, 104, 80, 97, 114, 116, 83, 116, 111, 114, 101, 100, 40]
            + chunk_part_id_text(id) + seq![41u8],
    }
}

/// How a message is shown in logs: `Msg(<source>: <payload>)`, the source
/// by all the bytes of its identity.
pub open spec fn message_text(m: Message) -> Seq<u8> {
    seq![77u8, 115, 103, 40] + m.source@ + seq![58u8, 32] + payload_text(m.payload) + seq![41u8]
}

impl MessagePayload {
    /// Appends the text of the payload to `buf`.
    pub fn push_text(&self, buf: &mut Vec<u8>)
        ensures
            final(buf)@ == old(buf)@ + payload_text(*self),
    {
        let ghost start = buf@;
        match self {
            MessagePayload::Init => {
                let mut t = vec![73u8, 110, 105, 116];
                buf.append(&mut t);
            },
            MessagePayload::Ping(c) => {
                let mut t = vec![80u8, 105, 110, 103, 40];
                buf.append(&mut t);
                push_decimal(buf, *c as u64);
                buf.push(41u8);
            },
            MessagePayload::Pong(c) => {
                let mut t = vec![80u8, 111, 110, 103, 40];
                buf.append(&mut t);
                push_decimal(buf, *c as u64);
                buf.push(41u8);
            },
            MessagePayload::Block(b) => push_block(buf, b),
            MessagePayload::ChunkPart(c) => push_chunk_part(buf, c),
            MessagePayload::StatementChunkPartStored(id) => {
                let mut t = vec![67u8, 104, 80, 97, 114, 116, 83, 116, 111, 114, 101, 100, 40];
                buf.append(&mut t);
                push_chunk_part_id(buf, id);
                buf.push(41u8);
            },
        }
        proof {
            assert(buf@ =~= start + payload_text(*self));
        }
    }

    /// The payload as shown in logs.
    pub fn render(&self) -> (r: Vec<u8>)
        ensures
            r@ == payload_text(*self),
    {
        let mut r: Vec<u8> = Vec::new();
        self.push_text(&mut r);
        proof {
            assert(r@ =~= payload_text(*self));
        }
        r
    }
}

/// The message as shown in logs.
pub fn render_message(m: &Message) -> (r: Vec<u8>)
    ensures
        r@ == message_text(*m),
{
    let mut r: Vec<u8> = vec![77u8, 115, 103, 40];
    let mut i: usize = 0;
    while i < 32
        invariant
            i <= 32,
            m.source@.len() == 32,
            r@ == seq![77u8, 115, 103, 40] + m.source@.take(i as int),
        decreases 32 - i,
    {
        r.push(m.source.0[i]);
        proof {
            assert(m.source@.take(i + 1) =~= m.source@.take(i as int).push(m.source@[i as int]));
        }
        i = i + 1;
    }
    r.push(58u8);
    r.push(32u8);
    m.payload.push_text(&mut r);
    r.push(41u8);
    proof {
        assert(m.source@.take(32) =~= m.source@);
        assert(r@ =~= message_text(*m));
    }
    r
}

/// The node went from `n0` to `n1`, and the queue from `q0` to `q1`, by
/// processing `message`: same identity, a clock at or past the message's
/// arrival, an empty outbox; the queue kept what it held, then received the
/// node's earlier outbox and after it what the node sent, all from the node
/// and stamped at least `MESSAGE_DELAY` after the arrival.
pub open spec fn delivered(
    n0: Node,
    n1: Node,
    message: Message,
    q0: Seq<(u64, Message)>,
    q1: Seq<(u64, Message)>,
) -> bool {
    &&& n1.node_id() == n0.node_id()
    &&& n1.clock() >= later(n0.clock(), message.timestamp)
    &&& n1.outbox().len() == 0
    &&& q1.len() >= q0.len() + n0.outbox().len()
    &&& q1.subrange(0, q0.len() as int) == q0
    &&& forall|k: int| 0 <= k < n0.outbox().len() ==> (#[trigger] q1[q0.len() + k]).1 == n0.outbox()[k]
    &&& forall|k: int|
        q0.len() + n0.outbox().len() <= k < q1.len() ==> {
            &&& (#[trigger] q1[k]).1.source == n0.node_id()
            &&& q1[k].1.timestamp >= later(n0.clock(), message.timestamp) + MESSAGE_DELAY
        }
}

/// Logic of a node that owns its framework state.
pub trait MessageHandler {
    /// The node's framework state.
    spec fn node_view(&self) -> Node;

    /// What a call of `handle_message` on this handler may do to its node,
    /// from `before` to `after`, when handed `msg` and returning `r`.
    spec fn handle_spec(&self, before: Node, msg: Message, after: Node, r: Result<(), HandlerError>) -> bool;

    /// Reacts to `msg`, acting on the world only through the node.
    fn handle_message(&mut self, msg: Message) -> (r: Result<(), HandlerError>)
        requires
            old(self).node_view().clock() <= CLOCK_LIMIT,
        ensures
            final(self).node_view().follows(&old(self).node_view()),
            old(self).handle_spec(old(self).node_view(), msg, final(self).node_view(), r),
    ;

    /// This handler with its framework state replaced by `n`, the rest
    /// unchanged.
    spec fn with_node(&self, n: Node) -> Self where Self: Sized;

    /// The node's framework state, for update; nothing else of the handler
    /// changes.
    fn node(&mut self) -> (r: &mut Node) where Self: Sized
        ensures
            *r == old(self).node_view(),
            final(self).node_view() == *final(r),
            *final(self) == old(self).with_node(*final(r)),
    ;
}

/// Has `handler` process `message` end to end: brings its clock up to the
/// arrival time, handles the message, and moves everything the node has
/// sent into `message_output`.
pub fn process_message<H: MessageHandler>(handler: &mut H, message: Message, message_output: &mut MessageQueue<MessagePayload>) -> (r: Result<(), HandlerError>)
    requires
        old(handler).node_view().clock() <= CLOCK_LIMIT,
        message.timestamp <= CLOCK_LIMIT,
    ensures
        delivered(old(handler).node_view(), final(handler).node_view(), message, old(message_output).entries(), final(message_output).entries()),
        exists|n: Node, left: Node|
            #[trigger] old(handler).with_node(n).handle_spec(n, message, left, r) && received(old(handler).node_view(), message, n)
                && final(handler).node_view().node_id() == left.node_id() && final(handler).node_view().clock() == left.clock(),
{
    let ghost n0 = handler.node_view();
    let ghost q0 = message_output.entries();
    handler.node().pre_process_message(&message);
    let ghost n1 = handler.node_view();
    let ghost h1 = *handler;
    let r = handler.handle_message(message);
    let ghost n2 = handler.node_view();
    handler.node().flush_messages(message_output);
    proof {
        let q = message_output.entries();
        assert forall|k: int| 0 <= k < n0.outbox().len() implies (#[trigger] q[q0.len() + k]).1 == n0.outbox()[k] by {
            assert(q[q0.len() + k].1 == n2.outbox()[k]);
            assert(n2.outbox().subrange(0, n1.outbox().len() as int)[k] == n1.outbox()[k]);
        }
        assert forall|k: int| q0.len() + n0.outbox().len() <= k < q.len() implies {
            &&& (#[trigger] q[k]).1.source == n0.node_id()
            &&& q[k].1.timestamp >= later(n0.clock(), message.timestamp) + MESSAGE_DELAY
        } by {
            let j = k - q0.len();
            assert(q[q0.len() + j].1 == n2.outbox()[j]);
        }
        assert(h1 == old(handler).with_node(n1));
        assert(h1.handle_spec(n1, message, n2, r));
    }
    r
}


} // verus!
