//! Chunk producers: in turn, they produce their shard's chunk of each block
//! and disperse its parts to data owners.
use vstd::prelude::*;
use crate::config::Config;
use crate::core_state::{
    block_fits, cert_chunks, identities, lemma_ids_match_bytes, lemma_rotation_match, misfit,
    rotation_fits, rotation_seq, rotation_start, CoreState,
};
use crate::naming::{chunk_producer_name, data_owner_name};
use crate::sim_core::message::{HandlerError, Message, MessageHandler};
use crate::sim_core::node::{is_kth, padded, send_all, Node, NodeID, CLOCK_LIMIT};
use crate::spice::payload::MessagePayload;
use crate::types::block::{block_id_of, Block, BlockView};
use crate::types::chunk::{ChunkID, ChunkPart};
use crate::types::encoding::{block_encodable, is_encodable};
use crate::types::shard::ShardID;

verus! {

/// The names of the data owners that store the parts of the chunk of
/// `shard` at `height`, one per part.
pub open spec fn data_owner_names_at(c: Config, height: u32, shard: u32) -> Seq<Seq<u8>> {
    rotation_seq(
        |i: nat| data_owner_name(i),
        rotation_start(height, shard, c.num_shards, c.num_chunk_data_parts, c.num_data_owners),
        c.num_chunk_data_parts as nat,
        c.num_data_owners as nat,
    )
}

/// Holds for the `k`-th payload when it is part `k` of `chunk`.
pub open spec fn parts_of(chunk: ChunkID) -> spec_fn(int, MessagePayload) -> bool {
    |k: int, p: MessagePayload| p == MessagePayload::ChunkPart(ChunkPart { chunk_id: chunk, index: k as u32 })
}

/// `id` produces the chunk of `shard` at `height`.
pub open spec fn is_chunk_producer(c: Config, id: NodeID, height: u32, shard: u32) -> bool {
    padded(chunk_producer_name(shard as nat, (height % c.num_chunk_producers_per_shard) as nat)) == id@
}

/// What processing `b` comes to for the chunk producer `id` of `shard`: a
/// block with no encoding, one that does not extend the chain, one whose
/// chunk producer cannot be named (the shard has none, or the name does not
/// fit an identity), or (for the producer of the chunk) one whose data
/// owners cannot be computed, is refused.
pub open spec fn chunk_outcome(c: Config, chain: Seq<BlockView>, b: BlockView, id: NodeID, shard: u32) -> Result<(), HandlerError> {
    if !block_encodable(b) {
        Err(HandlerError::Unencodable)
    } else if !block_fits(chain, b) {
        Err(misfit(chain, b))
    } else if c.num_chunk_producers_per_shard == 0 {
        Err(HandlerError::EmptyPool)
    } else if chunk_producer_name(shard as nat, (b.height.0 % c.num_chunk_producers_per_shard) as nat).len() > 32 {
        Err(HandlerError::NameTooLong)
    } else if is_chunk_producer(c, id, b.height.0, shard) && c.num_data_owners == 0 {
        Err(HandlerError::EmptyPool)
    } else if is_chunk_producer(c, id, b.height.0, shard) && !rotation_fits(b.height.0, shard, c.num_shards, c.num_chunk_data_parts) {
        Err(HandlerError::ArithmeticOverflow)
    } else {
        Ok(())
    }
}

/// Produces its shard's chunk for the blocks it is assigned, and disperses
/// the chunk's parts to their data owners.
pub struct ChunkProducer {
    core_state: CoreState,
    shard_id: ShardID,
}

impl ChunkProducer {
    #[verifier::type_invariant]
    closed spec fn wf(&self) -> bool {
        &&& self.core_state.wf()
    }

    /// The chain state.
    pub closed spec fn state(&self) -> CoreState {
        self.core_state
    }

    /// The shard it produces chunks for.
    pub closed spec fn shard(&self) -> ShardID {
        self.shard_id
    }

    /// A chunk producer of `shard_id` with an empty chain under `config`.
    pub fn new(shard_id: ShardID, config: Config) -> (r: Self)
        ensures
            r.state().cfg() == config,
            r.state().chain() == Seq::<BlockView>::empty(),
            r.shard() == shard_id,
    {
        Self { core_state: CoreState::new(config), shard_id }
    }

    /// Applies the block; if this node is the chunk producer for this height
    /// and shard, produces a chunk and disperses it to data owners. A refused
    /// block changes nothing.
    pub fn process_block(&mut self, node: &mut Node<MessagePayload>, block: Block) -> (r: Result<(), HandlerError>)
        requires
            old(node).clock() <= CLOCK_LIMIT,
        ensures
            r == chunk_outcome(old(self).state().cfg(), old(self).state().chain(), block@, old(node).node_id(), old(self).shard().0),
            r is Err ==> *final(self) == *old(self) && *final(node) == *old(node),
            r is Ok ==> {
                &&& final(self).shard() == old(self).shard()
                &&& final(self).state().cfg() == old(self).state().cfg()
                &&& final(self).state().chain() == old(self).state().chain().push(block@)
                &&& final(self).state().available() == old(self).state().available() + cert_chunks(block@.avail_certs)
                &&& final(self).state().endorsed() == old(self).state().endorsed() + cert_chunks(block@.state_certs)
                &&& if is_chunk_producer(old(self).state().cfg(), old(node).node_id(), block.height.0, old(self).shard().0) {
                    final(node).sent_each(
                        old(node),
                        identities(data_owner_names_at(old(self).state().cfg(), block.height.0, old(self).shard().0)),
                        parts_of(ChunkID { block_id: block_id_of(block@), shard_id: old(self).shard() }),
                    )
                } else {
                    *final(node) == *old(node)
                }
            },
    {
        proof {
            use_type_invariant(&*self);
        }
        if !is_encodable(&block) {
            return Err(HandlerError::Unencodable);
        }
        match self.core_state.check_next_block(&block) {
            Err(e) => {
                return Err(e);
            },
            Ok(()) => {},
        }
        let height = block.height;
        let block_id = block.id();
        let shard_id = self.shard_id;
        if self.core_state.config().num_chunk_producers_per_shard == 0 {
            return Err(HandlerError::EmptyPool);
        }
        if !self.core_state.chunk_producer_name_fits(height, shard_id) {
            return Err(HandlerError::NameTooLong);
        }
        let producer = self.core_state.chunk_producer_at(height, shard_id);
        proof {
            crate::sim_core::node::lemma_node_id_eq(producer, node.node_id());
        }
        let is_producer = producer == node.id();
        if is_producer && self.core_state.config().num_data_owners == 0 {
            return Err(HandlerError::EmptyPool);
        }
        let parts = self.core_state.config().num_chunk_data_parts;
        if is_producer && !self.core_state.rotation_fits(height, shard_id, parts) {
            return Err(HandlerError::ArithmeticOverflow);
        }
        let mut core_state = CoreState::new(*self.core_state.config());
        std::mem::swap(&mut core_state, &mut self.core_state);
        core_state.apply_block(block);
        self.core_state = core_state;
        if is_producer {
            self.disperse_chunk(node, ChunkID { block_id, shard_id });
        }
        Ok(())
    }

    /// Splits the chunk into parts and sends each part to its assigned data
    /// owner.
    fn disperse_chunk(&self, node: &mut Node<MessagePayload>, chunk: ChunkID)
        requires
            old(node).clock() <= CLOCK_LIMIT,
            self.state().cfg().num_data_owners > 0,
            rotation_fits(chunk.block_id.height.0, chunk.shard_id.0, self.state().cfg().num_shards, self.state().cfg().num_chunk_data_parts),
        ensures
            final(node).sent_each(
                old(node),
                identities(data_owner_names_at(self.state().cfg(), chunk.block_id.height.0, chunk.shard_id.0)),
                parts_of(chunk),
            ),
    {
        proof {
            use_type_invariant(self);
        }
        let owners = self.core_state.data_owner_at(chunk.block_id.height, chunk.shard_id);
        let mut payloads: Vec<MessagePayload> = Vec::new();
        let mut i: usize = 0;
        while i < owners.len()
            invariant
                i <= owners@.len(),
                owners@.len() <= u32::MAX,
                payloads@.len() == i,
                forall|k: int| 0 <= k < i ==> #[trigger] payloads@[k] == MessagePayload::ChunkPart(ChunkPart { chunk_id: chunk, index: k as u32 }),
            decreases owners@.len() - i,
        {
            payloads.push(MessagePayload::ChunkPart(ChunkPart { chunk_id: chunk, index: i as u32 }));
            i = i + 1;
        }
        let ghost sent = payloads@;
        send_all(node, payloads, &owners);
        proof {
            let c = self.core_state.cfg();
            let h = chunk.block_id.height.0;
            let s = chunk.shard_id.0;
            lemma_rotation_match(owners@, |i: nat| data_owner_name(i), rotation_start(h, s, c.num_shards, c.num_chunk_data_parts, c.num_data_owners), c.num_chunk_data_parts as nat, c.num_data_owners as nat);
            lemma_ids_match_bytes(owners@, data_owner_names_at(c, h, s));
            crate::sim_core::node::lemma_sent_each_weaken(*node, *old(node), identities(data_owner_names_at(c, h, s)), is_kth(sent), parts_of(chunk));
        }
    }
}

impl MessageHandler<MessagePayload> for ChunkProducer {
    open spec fn init_spec(&self, before: Node<MessagePayload>, after: Node<MessagePayload>) -> bool {
        after == before
    }

    open spec fn handle_spec(&self, before: Node<MessagePayload>, msg: Message<MessagePayload>, after: Node<MessagePayload>, r: Result<(), HandlerError>) -> bool {
        match msg.payload {
            MessagePayload::Block(b) => {
                let c = self.state().cfg();
                &&& r == chunk_outcome(c, self.state().chain(), b@, before.node_id(), self.shard().0)
                &&& r is Err ==> after == before
                &&& r is Ok ==> if is_chunk_producer(c, before.node_id(), b.height.0, self.shard().0) {
                    after.sent_each(
                        &before,
                        identities(data_owner_names_at(c, b.height.0, self.shard().0)),
                        parts_of(ChunkID { block_id: block_id_of(b@), shard_id: self.shard() }),
                    )
                } else {
                    after == before
                }
            },
            _ => r == Err::<(), HandlerError>(HandlerError::UnexpectedPayload) && after == before,
        }
    }

    fn init(&mut self, node: &mut Node<MessagePayload>) {
        proof {
            crate::sim_core::node::lemma_follows_reflexive(*node);
        }
    }
    /// Blocks go to `process_block`; any other payload is refused.
    fn handle_message(&mut self, node: &mut Node<MessagePayload>, msg: Message<MessagePayload>) -> (r: Result<(), HandlerError>)
        ensures
            msg.payload matches MessagePayload::Block(b) ==> {
                &&& r == chunk_outcome(old(self).state().cfg(), old(self).state().chain(), b@, old(node).node_id(), old(self).shard().0)
                &&& r is Err ==> *final(self) == *old(self) && *final(node) == *old(node)
                &&& r is Ok ==> final(self).state().chain() == old(self).state().chain().push(b@)
            },
            !(msg.payload is Block) ==> {
                &&& r == Err::<(), HandlerError>(HandlerError::UnexpectedPayload)
                &&& *final(self) == *old(self)
                &&& *final(node) == *old(node)
            },
    {
        match msg.payload {
            MessagePayload::Block(block) => {
                let ghost b = block@;
                let ghost c = self.state().cfg();
                let ghost shard = self.shard();
                let r = self.process_block(node, block);
                proof {
                    if r is Ok && is_chunk_producer(c, old(node).node_id(), b.height.0, shard.0) {
                        crate::sim_core::node::lemma_sent_each_follows(*node, *old(node), identities(data_owner_names_at(c, b.height.0, shard.0)), parts_of(ChunkID { block_id: block_id_of(b), shard_id: shard }));
                    } else {
                        crate::sim_core::node::lemma_follows_reflexive(*node);
                    }
                }
                r
            },
            _ => {
                proof {
                    crate::sim_core::node::lemma_follows_reflexive(*node);
                }
                Err(HandlerError::UnexpectedPayload)
            },
        }
    }
}

} // verus!
