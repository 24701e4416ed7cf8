//! The messages the protocol's roles exchange.
use vstd::prelude::*;
use crate::types::block::Block;
use crate::types::chunk::{ChunkID, ChunkPart, ChunkPartID};
use crate::types::state_witness::StateWitness;
use crate::sim_core::message::Message;
use crate::sim_core::node::{NodeID, MESSAGE_DELAY};
use crate::text::{receive_line, receive_text, send_line, send_text};
use crate::text::{
    block_text, chunk_id_text, chunk_part_id_text, chunk_part_text, push_block, push_chunk_id,
    push_chunk_part, push_chunk_part_id, push_state_witness, state_witness_text,
};

verus! {

/// What the protocol's messages carry.
#[derive(Debug, PartialEq, Eq, Hash)]
pub enum MessagePayload {
    /// A newly proposed block, broadcast by a block producer.
    Block(Block),
    /// One erasure-coded part of a chunk, sent from a chunk producer to a data
    /// owner for storage.
    ChunkPart(ChunkPart),
    /// A data owner's attestation that it has stored a given chunk part.
    StatementChunkPartStored(ChunkPartID),
    /// A replica's witness produced by executing a chunk, sent to validators.
    StateWitness(StateWitness),
    /// A validator's attestation that it has verified a replica's state
    /// witness for a chunk.
    StatementStateEndorsement(ChunkID),
}

/// How a payload is shown in logs.
pub open spec fn payload_text(p: MessagePayload) -> Seq<u8> {
    match p {
        MessagePayload::Block(b) => block_text(b@),
        MessagePayload::ChunkPart(c) => chunk_part_text(c),
        MessagePayload::StatementChunkPartStored(id) => seq![67u8, 104, 80, 97, 114, 116, 83, 116, 111, 114, 101, 100, 40]
            + chunk_part_id_text(id) + seq![41u8],
        MessagePayload::StateWitness(w) => state_witness_text(w),
        MessagePayload::StatementStateEndorsement(c) => seq![69u8, 110, 100, 111, 114, 115, 101, 83, 116, 97, 116, 101, 40]
            + chunk_id_text(c) + seq![41u8],
    }
}

/// How a message is shown in logs: `Msg(<payload>)`.
pub open spec fn message_text(m: Message<MessagePayload>) -> Seq<u8> {
    seq![77u8, 115, 103, 40] + payload_text(m.payload) + seq![41u8]
}

impl MessagePayload {
    /// Appends the text of the payload to `buf`.
    pub fn push_text(&self, buf: &mut Vec<u8>)
        ensures
            final(buf)@ == old(buf)@ + payload_text(*self),
    {
        let ghost start = buf@;
        match self {
            MessagePayload::Block(b) => push_block(buf, b),
            MessagePayload::ChunkPart(c) => push_chunk_part(buf, c),
            MessagePayload::StatementChunkPartStored(id) => {
                let mut tag = vec![67u8, 104, 80, 97, 114, 116, 83, 116, 111, 114, 101, 100, 40];
                buf.append(&mut tag);
                push_chunk_part_id(buf, id);
                buf.push(41u8);
                proof {
                    assert(buf@ =~= start + payload_text(*self));
                }
            },
            MessagePayload::StateWitness(w) => push_state_witness(buf, w),
            MessagePayload::StatementStateEndorsement(c) => {
                let mut tag = vec![69u8, 110, 100, 111, 114, 115, 101, 83, 116, 97, 116, 101, 40];
                buf.append(&mut tag);
                push_chunk_id(buf, c);
                buf.push(41u8);
                proof {
                    assert(buf@ =~= start + payload_text(*self));
                }
            },
        }
    }

    /// The payload as shown in logs.
    pub fn render(&self) -> (r: Vec<u8>)
        ensures
            r@ == payload_text(*self),
    {
        let mut r: Vec<u8> = Vec::new();
        self.push_text(&mut r);
        proof {
            assert(r@ =~= payload_text(*self));
        }
        r
    }
}

/// The message as shown in logs.
pub fn render_message(m: &Message<MessagePayload>) -> (r: Vec<u8>)
    ensures
        r@ == message_text(*m),
{
    let mut r: Vec<u8> = vec![77u8, 115, 103, 40];
    m.payload.push_text(&mut r);
    r.push(41u8);
    proof {
        assert(r@ =~= message_text(*m));
    }
    r
}

/// The log line for `m`, received by `id` whose clock then read `clock`.
pub fn received_message_line(clock: u64, id: &NodeID, m: &Message<MessagePayload>) -> (r: Vec<u8>)
    ensures
        r@ == receive_text(clock, *id, message_text(*m)),
{
    receive_line(clock, id, &render_message(m))
}

/// The log line for `m`, sent `MESSAGE_DELAY` before its arrival.
pub fn sent_message_line(m: &Message<MessagePayload>) -> (r: Vec<u8>)
    requires
        m.timestamp >= MESSAGE_DELAY,
    ensures
        r@ == send_text((m.timestamp - MESSAGE_DELAY) as u64, m.source, m.dest, message_text(*m)),
{
    send_line(m.timestamp - MESSAGE_DELAY, &m.source, &m.dest, &render_message(m))
}

} // verus!
