//! Validators: they check state witnesses and endorse the executed chunks.
use vstd::prelude::*;
use crate::config::Config;
use crate::core_state::{
    block_fits, cert_chunks, identities, lemma_ids_match_bytes, lemma_ids_named_match, misfit,
    named_seq, CoreState,
};
use crate::naming::block_producer_name;
use crate::sim_core::message::{HandlerError, Message, MessageHandler};
use crate::sim_core::node::{is_kth, send_all, Node, CLOCK_LIMIT};
use crate::spice::payload::MessagePayload;
use crate::types::block::{Block, BlockView};
use crate::types::chunk::ChunkID;
use crate::types::state_witness::StateWitness;

verus! {

/// Holds for payloads that endorse the state of `chunk_id`.
pub open spec fn endorses(chunk_id: ChunkID) -> spec_fn(int, MessagePayload) -> bool {
    |k: int, p: MessagePayload| p == MessagePayload::StatementStateEndorsement(chunk_id)
}

/// The names of all block producers of `c`.
pub open spec fn block_producer_names(c: Config) -> Seq<Seq<u8>> {
    named_seq(|i: nat| block_producer_name(i), c.num_block_producers as nat)
}

/// Receives state witnesses from replicas, "verifies" each one (a no-op for
/// now), and broadcasts a corresponding state endorsement to every block
/// producer. Also tracks the chain (currently unused, but needed once witness
/// verification consults state).
pub struct Validator {
    core_state: CoreState,
}

impl Validator {
    #[verifier::type_invariant]
    closed spec fn wf(&self) -> bool {
        self.core_state.wf()
    }

    /// The chain state.
    pub closed spec fn state(&self) -> CoreState {
        self.core_state
    }

    /// A validator with an empty chain under `config`.
    pub fn new(config: Config) -> (r: Self)
        ensures
            r.state().cfg() == config,
            r.state().chain() == Seq::<BlockView>::empty(),
    {
        Self { core_state: CoreState::new(config) }
    }

    /// Appends the block to the chain; a block that does not extend it is
    /// refused and changes nothing.
    pub fn process_block(&mut self, block: Block) -> (r: Result<(), HandlerError>)
        ensures
            r == if block_fits(old(self).state().chain(), block@) {
                Ok::<(), HandlerError>(())
            } else {
                Err(misfit(old(self).state().chain(), block@))
            },
            r is Err ==> *final(self) == *old(self),
            r is Ok ==> {
                &&& final(self).state().cfg() == old(self).state().cfg()
                &&& final(self).state().chain() == old(self).state().chain().push(block@)
                &&& final(self).state().available() == old(self).state().available() + cert_chunks(block@.avail_certs)
                &&& final(self).state().endorsed() == old(self).state().endorsed() + cert_chunks(block@.state_certs)
            },
    {
        proof {
            use_type_invariant(&*self);
        }
        let mut core_state = CoreState::new(*self.core_state.config());
        std::mem::swap(&mut core_state, &mut self.core_state);
        let r = core_state.try_apply_block(block);
        self.core_state = core_state;
        r
    }

    /// Endorses the chunk the witness is for.
    pub fn process_state_witness(&self, node: &mut Node<MessagePayload>, witness: StateWitness)
        requires
            old(node).clock() <= CLOCK_LIMIT,
        ensures
            final(node).sent_each(old(node), identities(block_producer_names(self.state().cfg())), endorses(witness.chunk_id)),
    {
        self.submit_state_endorsement(node, witness.chunk_id);
    }

    /// Sends a state endorsement for `chunk_id` to every block producer.
    fn submit_state_endorsement(&self, node: &mut Node<MessagePayload>, chunk_id: ChunkID)
        requires
            old(node).clock() <= CLOCK_LIMIT,
        ensures
            final(node).sent_each(old(node), identities(block_producer_names(self.state().cfg())), endorses(chunk_id)),
    {
        let producers = self.core_state.block_producer_ids();
        let mut payloads: Vec<MessagePayload> = Vec::new();
        let mut i: usize = 0;
        while i < producers.len()
            invariant
                i <= producers@.len(),
                payloads@.len() == i,
                forall|k: int| 0 <= k < i ==> #[trigger] payloads@[k] == MessagePayload::StatementStateEndorsement(chunk_id),
            decreases producers@.len() - i,
        {
            payloads.push(MessagePayload::StatementStateEndorsement(chunk_id));
            i = i + 1;
        }
        let ghost sent = payloads@;
        send_all(node, payloads, &producers);
        proof {
            let c = self.core_state.cfg();
            lemma_ids_named_match(producers@, |i: nat| block_producer_name(i), c.num_block_producers as nat);
            lemma_ids_match_bytes(producers@, block_producer_names(c));
            crate::sim_core::node::lemma_sent_each_weaken(*node, *old(node), identities(block_producer_names(c)), is_kth(sent), endorses(chunk_id));
        }
    }
}

impl MessageHandler<MessagePayload> for Validator {
    open spec fn init_spec(&self, before: Node<MessagePayload>, after: Node<MessagePayload>) -> bool {
        after == before
    }

    open spec fn handle_spec(&self, before: Node<MessagePayload>, msg: Message<MessagePayload>, after: Node<MessagePayload>, r: Result<(), HandlerError>) -> bool {
        match msg.payload {
            MessagePayload::Block(b) => after == before && r == if block_fits(self.state().chain(), b@) {
                Ok::<(), HandlerError>(())
            } else {
                Err(misfit(self.state().chain(), b@))
            },
            MessagePayload::StateWitness(w) => r is Ok && after.sent_each(&before, identities(block_producer_names(self.state().cfg())), endorses(w.chunk_id)),
            _ => r == Err::<(), HandlerError>(HandlerError::UnexpectedPayload) && after == before,
        }
    }

    fn init(&mut self, node: &mut Node<MessagePayload>) {
        proof {
            crate::sim_core::node::lemma_follows_reflexive(*node);
        }
    }
    /// Blocks go to `process_block`, state witnesses to
    /// `process_state_witness`; any other payload is refused.
    fn handle_message(&mut self, node: &mut Node<MessagePayload>, msg: Message<MessagePayload>) -> (r: Result<(), HandlerError>)
        ensures
            msg.payload matches MessagePayload::Block(b) ==> {
                &&& r == if block_fits(old(self).state().chain(), b@) {
                    Ok::<(), HandlerError>(())
                } else {
                    Err(misfit(old(self).state().chain(), b@))
                }
                &&& *final(node) == *old(node)
                &&& r is Err ==> *final(self) == *old(self)
                &&& r is Ok ==> final(self).state().chain() == old(self).state().chain().push(b@)
            },
            msg.payload matches MessagePayload::StateWitness(w) ==> {
                &&& r is Ok
                &&& *final(self) == *old(self)
                &&& final(node).sent_each(old(node), identities(block_producer_names(old(self).state().cfg())), endorses(w.chunk_id))
            },
            !(msg.payload is Block || msg.payload is StateWitness) ==> {
                &&& r == Err::<(), HandlerError>(HandlerError::UnexpectedPayload)
                &&& *final(self) == *old(self)
                &&& *final(node) == *old(node)
            },
    {
        match msg.payload {
            MessagePayload::Block(block) => {
                proof {
                    crate::sim_core::node::lemma_follows_reflexive(*node);
                }
                self.process_block(block)
            },
            MessagePayload::StateWitness(witness) => {
                self.process_state_witness(node, witness);
                proof {
                    crate::sim_core::node::lemma_sent_each_follows(*node, *old(node), identities(block_producer_names(self.state().cfg())), endorses(witness.chunk_id));
                }
                Ok(())
            },
            _ => {
                proof {
                    crate::sim_core::node::lemma_follows_reflexive(*node);
                }
                Err(HandlerError::UnexpectedPayload)
            },
        }
    }
}

} // verus!
