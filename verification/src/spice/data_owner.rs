//! Data owners: they store chunk parts and attest to it.
use vstd::prelude::*;
use crate::config::Config;
use crate::core_state::{identities, lemma_ids_match_bytes, lemma_ids_named_match, CoreState};
use crate::naming::block_producer_name;
use crate::sim_core::message::{HandlerError, Message, MessageHandler};
use crate::sim_core::node::{is_kth, send_all, Node, CLOCK_LIMIT};
use crate::sorted_map::SortedMap;
use crate::spice::payload::MessagePayload;
use crate::spice::validator::block_producer_names;
use crate::types::block::BlockView;
use crate::types::chunk::{ChunkPart, ChunkPartID};

verus! {

/// Holds for payloads that attest that part `part` is stored.
pub open spec fn attests_stored(part: ChunkPartID) -> spec_fn(int, MessagePayload) -> bool {
    |k: int, p: MessagePayload| p == MessagePayload::StatementChunkPartStored(part)
}

/// Stores the chunk parts it is sent and attests to every block producer
/// that it has.
pub struct DataOwner {
    core_state: CoreState,
    stored_parts: SortedMap<ChunkPartID, MessagePayload>,
}

impl DataOwner {
    #[verifier::type_invariant]
    closed spec fn wf(&self) -> bool {
        self.core_state.wf() && self.stored_parts.wf()
    }

    /// The chain state.
    pub closed spec fn state(&self) -> CoreState {
        self.core_state
    }

    /// The parts stored so far, by name.
    pub closed spec fn stored(&self) -> Map<ChunkPartID, MessagePayload> {
        self.stored_parts@
    }

    /// A data owner with an empty chain under `config` and nothing stored.
    pub fn new(config: Config) -> (r: Self)
        ensures
            r.state().cfg() == config,
            r.state().chain() == Seq::<BlockView>::empty(),
            r.stored() == Map::<ChunkPartID, MessagePayload>::empty(),
    {
        Self { core_state: CoreState::new(config), stored_parts: SortedMap::new() }
    }

    /// Attests to every block producer that the part is stored, and stores
    /// it.
    pub fn process_chunk_part(&mut self, node: &mut Node<MessagePayload>, chunk_part: ChunkPart)
        requires
            old(node).clock() <= CLOCK_LIMIT,
        ensures
            final(node).sent_each(old(node), identities(block_producer_names(old(self).state().cfg())), attests_stored(chunk_part.id())),
            final(self).state() == old(self).state(),
            final(self).stored() == old(self).stored().insert(chunk_part.id(), MessagePayload::ChunkPart(chunk_part)),
    {
        proof {
            use_type_invariant(&*self);
        }
        self.submit_statement_chunk_part_stored(node, chunk_part.id());
        let mut stored: SortedMap<ChunkPartID, MessagePayload> = SortedMap::new();
        std::mem::swap(&mut stored, &mut self.stored_parts);
        stored.insert(chunk_part.id(), MessagePayload::ChunkPart(chunk_part));
        self.stored_parts = stored;
    }

    /// Sends the attestation that `chunk_part_id` is stored to every block
    /// producer.
    fn submit_statement_chunk_part_stored(&self, node: &mut Node<MessagePayload>, chunk_part_id: ChunkPartID)
        requires
            old(node).clock() <= CLOCK_LIMIT,
        ensures
            final(node).sent_each(old(node), identities(block_producer_names(self.state().cfg())), attests_stored(chunk_part_id)),
    {
        let producers = self.core_state.block_producer_ids();
        let mut payloads: Vec<MessagePayload> = Vec::new();
        let mut i: usize = 0;
        while i < producers.len()
            invariant
                i <= producers@.len(),
                payloads@.len() == i,
                forall|k: int| 0 <= k < i ==> #[trigger] payloads@[k] == MessagePayload::StatementChunkPartStored(chunk_part_id),
            decreases producers@.len() - i,
        {
            payloads.push(MessagePayload::StatementChunkPartStored(chunk_part_id));
            i = i + 1;
        }
        let ghost sent = payloads@;
        send_all(node, payloads, &producers);
        proof {
            let c = self.core_state.cfg();
            lemma_ids_named_match(producers@, |i: nat| block_producer_name(i), c.num_block_producers as nat);
            lemma_ids_match_bytes(producers@, block_producer_names(c));
            crate::sim_core::node::lemma_sent_each_weaken(*node, *old(node), identities(block_producer_names(c)), is_kth(sent), attests_stored(chunk_part_id));
        }
    }
}

impl MessageHandler<MessagePayload> for DataOwner {
    open spec fn init_spec(&self, before: Node<MessagePayload>, after: Node<MessagePayload>) -> bool {
        after == before
    }

    open spec fn handle_spec(&self, before: Node<MessagePayload>, msg: Message<MessagePayload>, after: Node<MessagePayload>, r: Result<(), HandlerError>) -> bool {
        match msg.payload {
            MessagePayload::ChunkPart(part) => r is Ok && after.sent_each(&before, identities(block_producer_names(self.state().cfg())), attests_stored(part.id())),
            _ => r == Err::<(), HandlerError>(HandlerError::UnexpectedPayload) && after == before,
        }
    }

    fn init(&mut self, node: &mut Node<MessagePayload>) {
        proof {
            crate::sim_core::node::lemma_follows_reflexive(*node);
        }
    }
    /// Chunk parts go to `process_chunk_part`; any other payload is refused.
    fn handle_message(&mut self, node: &mut Node<MessagePayload>, msg: Message<MessagePayload>) -> (r: Result<(), HandlerError>)
        ensures
            msg.payload matches MessagePayload::ChunkPart(part) ==> {
                &&& r is Ok
                &&& final(node).sent_each(old(node), identities(block_producer_names(old(self).state().cfg())), attests_stored(part.id()))
                &&& final(self).state() == old(self).state()
                &&& final(self).stored() == old(self).stored().insert(part.id(), MessagePayload::ChunkPart(part))
            },
            !(msg.payload is ChunkPart) ==> {
                &&& r == Err::<(), HandlerError>(HandlerError::UnexpectedPayload)
                &&& *final(self) == *old(self)
                &&& *final(node) == *old(node)
            },
    {
        match msg.payload {
            MessagePayload::ChunkPart(chunk_part) => {
                let ghost c = self.state().cfg();
                self.process_chunk_part(node, chunk_part);
                proof {
                    crate::sim_core::node::lemma_sent_each_follows(*node, *old(node), identities(block_producer_names(c)), attests_stored(chunk_part.id()));
                }
                Ok(())
            },
            _ => {
                proof {
                    crate::sim_core::node::lemma_follows_reflexive(*node);
                }
                Err(HandlerError::UnexpectedPayload)
            },
        }
    }
}

} // verus!
