//! The data owner of the stand-alone layer: it stores the chunk parts it is
//! sent and attests to every block producer that it has.
use vstd::prelude::*;
use crate::config::Config;
use crate::core_state::{identities, lemma_ids_match_bytes, lemma_ids_named_match, CoreState};
use crate::message::{Message, MessageHandler, MessagePayload};
use crate::naming::block_producer_name;
use crate::node::{Node, NodeID};
use crate::sim_core::message::HandlerError;
use crate::sim_core::node::{is_kth, send_all, CLOCK_LIMIT};
use crate::sorted_map::SortedMap;
use crate::spice::validator::block_producer_names;
use crate::types::block::BlockView;
use crate::types::chunk::{ChunkPart, ChunkPartID};

verus! {

/// Holds for payloads that attest that part `part` is stored.
pub open spec fn attests_part_stored(part: ChunkPartID) -> spec_fn(int, MessagePayload) -> bool {
    |k: int, p: MessagePayload| p == MessagePayload::StatementChunkPartStored(part)
}

/// What a data owner keeps besides its framework state.
struct PartStore {
    core_state: CoreState,
    stored_parts: SortedMap<ChunkPartID, MessagePayload>,
}

impl PartStore {
    #[verifier::type_invariant]
    closed spec fn wf(&self) -> bool {
        self.core_state.wf() && self.stored_parts.wf()
    }
}

/// A data owner of the stand-alone layer.
pub struct DataOwner {
    node: Node,
    store: PartStore,
}

impl DataOwner {
    /// The node's framework state.
    pub closed spec fn state(&self) -> Node {
        self.node
    }

    /// The chain state this data owner keeps.
    pub closed spec fn chain_state(&self) -> CoreState {
        self.store.core_state
    }

    /// The parts stored so far, by name.
    pub closed spec fn stored(&self) -> Map<ChunkPartID, MessagePayload> {
        self.store.stored_parts@
    }

    /// A fresh data owner `own_id`, with an empty chain under `config`.
    pub fn new(own_id: NodeID, config: Config) -> (r: Self)
        ensures
            r.state().node_id() == own_id,
            r.state().clock() == 0,
            r.state().outbox().len() == 0,
            r.chain_state().cfg() == config,
            r.chain_state().chain() == Seq::<BlockView>::empty(),
            r.stored() == Map::<ChunkPartID, MessagePayload>::empty(),
    {
        Self { node: Node::new(own_id), store: PartStore { core_state: CoreState::new(config), stored_parts: SortedMap::new() } }
    }

    /// Start-up: nothing to do.
    pub fn init(&mut self)
        ensures
            *final(self) == *old(self),
    {
    }

    /// Attests to every block producer that the part is stored, and stores
    /// it.
    fn process_chunk_part(&mut self, chunk_part: ChunkPart)
        requires
            old(self).state().clock() <= CLOCK_LIMIT,
        ensures
            final(self).state().sent_each(&old(self).state(), identities(block_producer_names(old(self).chain_state().cfg())), attests_part_stored(chunk_part.id())),
            final(self).chain_state() == old(self).chain_state(),
            final(self).stored() == old(self).stored().insert(chunk_part.id(), MessagePayload::ChunkPart(chunk_part)),
    {
        self.submit_statement_chunk_part_stored(chunk_part.id());
        self.store.keep(chunk_part.id(), MessagePayload::ChunkPart(chunk_part));
    }

    /// Sends the attestation that `chunk_part_id` is stored to every block
    /// producer.
    fn submit_statement_chunk_part_stored(&mut self, chunk_part_id: ChunkPartID)
        requires
            old(self).state().clock() <= CLOCK_LIMIT,
        ensures
            final(self).state().sent_each(&old(self).state(), identities(block_producer_names(old(self).chain_state().cfg())), attests_part_stored(chunk_part_id)),
            final(self).chain_state() == old(self).chain_state(),
            final(self).stored() == old(self).stored(),
    {
        let producers = self.store.core_state.block_producer_ids();
        let mut payloads: Vec<MessagePayload> = Vec::new();
        let mut i: usize = 0;
        while i < producers.len()
            invariant
                i <= producers@.len(),
                payloads@.len() == i,
                forall|k: int| 0 <= k < i ==> #[trigger] payloads@[k] == MessagePayload::StatementChunkPartStored(chunk_part_id),
            decreases producers@.len() - i,
        {
            payloads.push(MessagePayload::StatementChunkPartStored(chunk_part_id));
            i = i + 1;
        }
        let ghost sent = payloads@;
        send_all(&mut self.node, payloads, &producers);
        proof {
            let c = self.store.core_state.cfg();
            lemma_ids_named_match(producers@, |i: nat| block_producer_name(i), c.num_block_producers as nat);
            lemma_ids_match_bytes(producers@, block_producer_names(c));
            crate::sim_core::node::lemma_sent_each_weaken(self.node, old(self).node, identities(block_producer_names(c)), is_kth(sent), attests_part_stored(chunk_part_id));
        }
    }
}

impl PartStore {
    /// Stores `payload` under `id`.
    fn keep(&mut self, id: ChunkPartID, payload: MessagePayload)
        ensures
            final(self).core_state == old(self).core_state,
            final(self).stored_parts@ == old(self).stored_parts@.insert(id, payload),
    {
        proof {
            use_type_invariant(&*self);
        }
        let mut stored: SortedMap<ChunkPartID, MessagePayload> = SortedMap::new();
        std::mem::swap(&mut stored, &mut self.stored_parts);
        stored.insert(id, payload);
        self.stored_parts = stored;
    }
}

impl MessageHandler for DataOwner {
    open spec fn node_view(&self) -> Node {
        self.state()
    }

    open spec fn handle_spec(&self, before: Node, msg: Message, after: Node, r: Result<(), HandlerError>) -> bool {
        match msg.payload {
            MessagePayload::ChunkPart(part) => r is Ok && after.sent_each(
                &before,
                identities(block_producer_names(self.chain_state().cfg())),
                attests_part_stored(part.id()),
            ),
            MessagePayload::Init => r is Ok && after == before,
            _ => r == Err::<(), HandlerError>(HandlerError::UnexpectedPayload) && after == before,
        }
    }

    fn handle_message(&mut self, msg: Message) -> (r: Result<(), HandlerError>)
        ensures
            r is Ok <==> (msg.payload is Init || msg.payload is ChunkPart),
            r is Err ==> r == Err::<(), HandlerError>(HandlerError::UnexpectedPayload) && *final(self) == *old(self),
            msg.payload is Init ==> *final(self) == *old(self),
            msg.payload matches MessagePayload::ChunkPart(part) ==> {
                &&& final(self).state().sent_each(&old(self).state(), identities(block_producer_names(old(self).chain_state().cfg())), attests_part_stored(part.id()))
                &&& final(self).chain_state() == old(self).chain_state()
                &&& final(self).stored() == old(self).stored().insert(part.id(), MessagePayload::ChunkPart(part))
            },
    {
        match msg.payload {
            MessagePayload::Init => {
                self.init();
                proof {
                    crate::sim_core::node::lemma_follows_reflexive(self.node);
                }
                Ok(())
            },
            MessagePayload::ChunkPart(chunk_part) => {
                let ghost c = self.chain_state().cfg();
                self.process_chunk_part(chunk_part);
                proof {
                    crate::sim_core::node::lemma_sent_each_follows(self.node, old(self).node, identities(block_producer_names(c)), attests_part_stored(chunk_part.id()));
                }
                Ok(())
            },
            _ => {
                proof {
                    crate::sim_core::node::lemma_follows_reflexive(self.node);
                }
                Err(HandlerError::UnexpectedPayload)
            },
        }
    }

    closed spec fn with_node(&self, n: Node) -> Self {
        DataOwner { node: n, ..*self }
    }

    fn node(&mut self) -> (r: &mut Node) {
        &mut self.node
    }
}

} // verus!
