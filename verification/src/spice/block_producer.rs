//! Block producers: they extend the chain in turn and turn quorums of
//! attestations into certificates recorded in the next block.
use vstd::prelude::*;
use crate::config::Config;
use crate::core_state::{
    block_fits, cert_chunks, identities, ids_match, lemma_ids_match_concat, lemma_ids_named_match,
    lemma_ids_named_per_shard_match, named_seq, named_seq_per_shard, CoreState,
};
use crate::naming::{block_producer_name, chunk_producer_name, replica_name, validator_name};
use crate::sim_core::message::{HandlerError, Message, MessageHandler};
use crate::sim_core::node::{is_kth, padded, send_all, Node, NodeID, CLOCK_LIMIT};
use crate::sorted_map::{
    entry_values, has_key, in_key_order, key_order, lemma_entry_in_map, lemma_key_order, seq_to_map, SortedMap,
};
use crate::spice::availability_tracker::AvailabilityTracker;
use crate::spice::endorsement_tracker::EndorsementTracker;
use crate::spice::payload::MessagePayload;
use crate::types::block::{block_hash, genesis_view, Block, BlockView};
use crate::types::cert::{AvailCert, CertView, StateCert};
use crate::types::chunk::{ChunkID, ChunkPartID};
use crate::types::encoding::{block_encodable, is_encodable};
use crate::types::height::Height;

verus! {

/// Everyone a block is broadcast to: every block producer, every chunk
/// producer and every replica of every shard, and every validator.
pub open spec fn block_recipients(c: Config) -> Seq<Seq<u8>> {
    named_seq(|i: nat| block_producer_name(i), c.num_block_producers as nat)
        + named_seq_per_shard(|s: nat, i: nat| chunk_producer_name(s, i), c.num_shards as nat, c.num_chunk_producers_per_shard as nat)
        + named_seq_per_shard(|s: nat, i: nat| replica_name(s, i), c.num_shards as nat, c.num_replicas_per_shard as nat)
        + named_seq(|i: nat| validator_name(i), c.num_validators as nat)
}

/// The payload is the block `b`.
pub open spec fn is_block(p: MessagePayload, b: BlockView) -> bool {
    match p {
        MessagePayload::Block(x) => x@ == b,
        _ => false,
    }
}

/// Holds for payloads that are the block `b`.
pub open spec fn carries_block(b: BlockView) -> spec_fn(int, MessagePayload) -> bool {
    |k: int, p: MessagePayload| is_block(p, b)
}

/// The views of a list of certificates.
pub open spec fn avail_views(certs: Seq<AvailCert>) -> Seq<CertView> {
    certs.map_values(|c: AvailCert| c@)
}

/// What the state certificates hold.
pub open spec fn state_views(certs: Seq<StateCert>) -> Seq<CertView> {
    certs.map_values(|c: StateCert| c@)
}

/// `x` is the block a producer proposes after `parent` when these
/// certificates are pending: one height up, `parent`'s hash as parent hash,
/// and the pending certificates in increasing chunk order.
pub open spec fn is_successor(
    x: BlockView,
    parent: BlockView,
    pending_avail: Seq<(ChunkID, AvailCert)>,
    pending_state: Seq<(ChunkID, StateCert)>,
) -> bool {
    &&& x.height.0 == parent.height.0 + 1
    &&& x.parent_hash@ == block_hash(parent)
    &&& x.avail_certs == avail_views(entry_values(pending_avail))
    &&& x.state_certs == state_views(entry_values(pending_state))
}

/// Holds for payloads that are the block proposed after `parent`.
pub open spec fn carries_successor(
    parent: BlockView,
    pending_avail: Seq<(ChunkID, AvailCert)>,
    pending_state: Seq<(ChunkID, StateCert)>,
) -> spec_fn(int, MessagePayload) -> bool {
    |k: int, p: MessagePayload|
        match p {
            MessagePayload::Block(x) => is_successor(x@, parent, pending_avail, pending_state),
            _ => false,
        }
}

/// What processing `b` on top of `chain` comes to: a block with no encoding,
/// one that does not extend the chain, or one at the last height, is
/// refused.
pub open spec fn block_outcome(chain: Seq<BlockView>, b: BlockView) -> Result<(), HandlerError> {
    if !block_encodable(b) {
        Err(HandlerError::Unencodable)
    } else if !block_fits(chain, b) {
        Err(crate::core_state::misfit(chain, b))
    } else if b.height.0 == u32::MAX {
        Err(HandlerError::ArithmeticOverflow)
    } else {
        Ok(())
    }
}

/// A certificate pending for chunk `c` when block `b` arrives, which `b`
/// does not certify, is carried by the block proposed after `b`: a quorum
/// of attestations is recorded in the next block.
pub proof fn lemma_pending_avail_carried(
    pending: Map<ChunkID, AvailCert>,
    c: ChunkID,
    b: BlockView,
    x: BlockView,
    ea: Seq<(ChunkID, AvailCert)>,
    es: Seq<(ChunkID, StateCert)>,
)
    requires
        pending.contains_key(c),
        !cert_chunks(b.avail_certs).contains(c),
        in_key_order(ea, pending.remove_keys(cert_chunks(b.avail_certs))),
        is_successor(x, b, ea, es),
    ensures
        x.avail_certs.contains(pending[c]@),
{
    let m = pending.remove_keys(cert_chunks(b.avail_certs));
    assert(m.contains_key(c) && m[c] == pending[c]);
    assert(has_key(ea, c));
    let j = choose|j: int| 0 <= j < ea.len() && #[trigger] ea[j].0 == c;
    lemma_entry_in_map(ea, j);
    assert(x.avail_certs[j] == ea[j].1@);
}

/// A state certificate pending for chunk `c` when block `b` arrives, which
/// `b` does not certify, is carried by the block proposed after `b`: a
/// quorum of endorsements is recorded in the next block.
pub proof fn lemma_pending_state_carried(
    pending: Map<ChunkID, StateCert>,
    c: ChunkID,
    b: BlockView,
    x: BlockView,
    ea: Seq<(ChunkID, AvailCert)>,
    es: Seq<(ChunkID, StateCert)>,
)
    requires
        pending.contains_key(c),
        !cert_chunks(b.state_certs).contains(c),
        in_key_order(es, pending.remove_keys(cert_chunks(b.state_certs))),
        is_successor(x, b, ea, es),
    ensures
        x.state_certs.contains(pending[c]@),
{
    let m = pending.remove_keys(cert_chunks(b.state_certs));
    assert(m.contains_key(c) && m[c] == pending[c]);
    assert(has_key(es, c));
    let j = choose|j: int| 0 <= j < es.len() && #[trigger] es[j].0 == c;
    lemma_entry_in_map(es, j);
    assert(x.state_certs[j] == es[j].1@);
}

/// Builds and broadcasts blocks in turn, collecting storage attestations and
/// state endorsements into certificates for the blocks it builds.
pub struct BlockProducer {
    core_state: CoreState,
    availability_tracker: AvailabilityTracker,
    endorsement_tracker: EndorsementTracker,
    pending_availability_certs: SortedMap<ChunkID, AvailCert>,
    pending_state_certs: SortedMap<ChunkID, StateCert>,
}

impl BlockProducer {
    /// The chain state.
    pub closed spec fn state(&self) -> CoreState {
        self.core_state
    }

    /// The storage attestations received.
    pub closed spec fn availability(&self) -> AvailabilityTracker {
        self.availability_tracker
    }

    /// The state endorsements received.
    pub closed spec fn endorsements(&self) -> EndorsementTracker {
        self.endorsement_tracker
    }

    /// Availability certificates waiting to be recorded in a block, by chunk.
    pub closed spec fn pending_avail(&self) -> SortedMap<ChunkID, AvailCert> {
        self.pending_availability_certs
    }

    /// State certificates waiting to be recorded in a block, by chunk.
    pub closed spec fn pending_state(&self) -> SortedMap<ChunkID, StateCert> {
        self.pending_state_certs
    }

    #[verifier::type_invariant]
    closed spec fn wf(&self) -> bool {
        &&& self.core_state.wf()
        &&& self.core_state.cfg().block_producer_supported()
        &&& self.availability_tracker.wf()
        &&& self.endorsement_tracker.wf()
        &&& self.pending_availability_certs.wf()
        &&& self.pending_state_certs.wf()
    }

    /// A block producer with an empty chain under `config`.
    pub fn new(config: Config) -> (r: Self)
        requires
            config.block_producer_supported(),
        ensures
            r.state().cfg() == config,
            r.state().chain() == Seq::<BlockView>::empty(),
            r.pending_avail()@ == Map::<ChunkID, AvailCert>::empty(),
            r.pending_state()@ == Map::<ChunkID, StateCert>::empty(),
    {
        Self {
            core_state: CoreState::new(config),
            availability_tracker: AvailabilityTracker::new(),
            endorsement_tracker: EndorsementTracker::new(),
            pending_availability_certs: SortedMap::new(),
            pending_state_certs: SortedMap::new(),
        }
    }

    /// Sends the block to every block producer, every chunk producer, every
    /// replica across all shards, and every validator.
    fn broadcast_block(&self, node: &mut Node<MessagePayload>, block: Block)
        requires
            old(node).clock() <= CLOCK_LIMIT,
        ensures
            final(node).sent_each(
                old(node),
                identities(block_recipients(self.state().cfg())),
                carries_block(block@),
            ),
    {
        proof {
            use_type_invariant(self);
        }
        let ghost c = self.core_state.cfg();
        let mut destinations = self.core_state.block_producer_ids();
        let mut more = self.core_state.chunk_producer_ids_all_shards();
        proof {
            lemma_ids_named_match(destinations@, |i: nat| block_producer_name(i), c.num_block_producers as nat);
            lemma_ids_named_per_shard_match(more@, |s: nat, i: nat| chunk_producer_name(s, i), c.num_shards as nat, c.num_chunk_producers_per_shard as nat);
            lemma_ids_match_concat(
                destinations@,
                named_seq(|i: nat| block_producer_name(i), c.num_block_producers as nat),
                more@,
                named_seq_per_shard(|s: nat, i: nat| chunk_producer_name(s, i), c.num_shards as nat, c.num_chunk_producers_per_shard as nat),
            );
        }
        destinations.append(&mut more);
        let mut more = self.core_state.replica_ids_all_shards();
        proof {
            lemma_ids_named_per_shard_match(more@, |s: nat, i: nat| replica_name(s, i), c.num_shards as nat, c.num_replicas_per_shard as nat);
            lemma_ids_match_concat(
                destinations@,
                named_seq(|i: nat| block_producer_name(i), c.num_block_producers as nat)
                    + named_seq_per_shard(|s: nat, i: nat| chunk_producer_name(s, i), c.num_shards as nat, c.num_chunk_producers_per_shard as nat),
                more@,
                named_seq_per_shard(|s: nat, i: nat| replica_name(s, i), c.num_shards as nat, c.num_replicas_per_shard as nat),
            );
        }
        destinations.append(&mut more);
        let mut more = self.core_state.validator_ids();
        proof {
            lemma_ids_named_match(more@, |i: nat| validator_name(i), c.num_validators as nat);
            lemma_ids_match_concat(
                destinations@,
                named_seq(|i: nat| block_producer_name(i), c.num_block_producers as nat)
                    + named_seq_per_shard(|s: nat, i: nat| chunk_producer_name(s, i), c.num_shards as nat, c.num_chunk_producers_per_shard as nat)
                    + named_seq_per_shard(|s: nat, i: nat| replica_name(s, i), c.num_shards as nat, c.num_replicas_per_shard as nat),
                more@,
                named_seq(|i: nat| validator_name(i), c.num_validators as nat),
            );
        }
        destinations.append(&mut more);
        assert(ids_match(destinations@, block_recipients(c)));
        send_to_all(node, &destinations, &block, Ghost(block_recipients(c)));
    }

    /// The certificates pending, copied out in increasing chunk order.
    fn pending_certificates(&self) -> (r: (Vec<AvailCert>, Vec<StateCert>))
        ensures
            avail_views(r.0@) == avail_views(entry_values(self.pending_avail().entries())),
            state_views(r.1@) == state_views(entry_values(self.pending_state().entries())),
    {
        proof {
            use_type_invariant(self);
        }
        let mut avail: Vec<AvailCert> = Vec::new();
        let n = self.pending_availability_certs.len();
        let mut i: usize = 0;
        while i < n
            invariant
                n == self.pending_availability_certs.entries().len(),
                i <= n,
                avail@.len() == i,
                forall|j: int| 0 <= j < i ==> (#[trigger] avail@[j])@ == self.pending_availability_certs.entries()[j].1@,
            decreases n - i,
        {
            avail.push(self.pending_availability_certs.value_at(i).duplicate());
            i = i + 1;
        }
        let mut state: Vec<StateCert> = Vec::new();
        let n = self.pending_state_certs.len();
        let mut i: usize = 0;
        while i < n
            invariant
                n == self.pending_state_certs.entries().len(),
                i <= n,
                state@.len() == i,
                forall|j: int| 0 <= j < i ==> (#[trigger] state@[j])@ == self.pending_state_certs.entries()[j].1@,
            decreases n - i,
        {
            state.push(self.pending_state_certs.value_at(i).duplicate());
            i = i + 1;
        }
        proof {
            assert(avail_views(avail@) =~= avail_views(entry_values(self.pending_avail().entries())));
            assert(state_views(state@) =~= state_views(entry_values(self.pending_state().entries())));
        }
        (avail, state)
    }

    /// Applies the received block to local state; if this node is the
    /// producer for the next height, builds and broadcasts the next block
    /// carrying the pending availability and state certificates. A refused
    /// block changes nothing.
    pub fn process_block(&mut self, node: &mut Node<MessagePayload>, block: Block) -> (r: Result<(), HandlerError>)
        requires
            old(node).clock() <= CLOCK_LIMIT,
        ensures
            r == block_outcome(old(self).state().chain(), block@),
            r is Err ==> *final(self) == *old(self) && *final(node) == *old(node),
            r is Ok ==> {
                &&& final(self).state().cfg() == old(self).state().cfg()
                &&& final(self).state().chain() == old(self).state().chain().push(block@)
                &&& final(self).state().available() == old(self).state().available() + cert_chunks(block@.avail_certs)
                &&& final(self).state().endorsed() == old(self).state().endorsed() + cert_chunks(block@.state_certs)
                &&& final(self).availability() == old(self).availability()
                &&& final(self).endorsements() == old(self).endorsements()
                &&& final(self).pending_avail()@ == old(self).pending_avail()@.remove_keys(cert_chunks(block@.avail_certs))
                &&& final(self).pending_state()@ == old(self).pending_state()@.remove_keys(cert_chunks(block@.state_certs))
                &&& if padded(block_producer_name(((block.height.0 + 1) % old(self).state().cfg().num_block_producers as int) as nat)) == old(node).node_id()@ {
                    final(node).sent_each(
                        old(node),
                        identities(block_recipients(old(self).state().cfg())),
                        carries_successor(block@, final(self).pending_avail().entries(), final(self).pending_state().entries()),
                    )
                } else {
                    *final(node) == *old(node)
                }
            },
    {
        proof {
            use_type_invariant(&*self);
        }
        if !is_encodable(&block) {
            return Err(HandlerError::Unencodable);
        }
        match self.core_state.check_next_block(&block) {
            Err(e) => {
                return Err(e);
            },
            Ok(()) => {},
        }
        let next_height = match block.height.checked_add(Height(1)) {
            Some(h) => h,
            None => {
                return Err(HandlerError::ArithmeticOverflow);
            },
        };
        let hash = block.hash();
        let ghost b = block@;

        let mut pending_avail: SortedMap<ChunkID, AvailCert> = SortedMap::new();
        std::mem::swap(&mut pending_avail, &mut self.pending_availability_certs);
        let mut i: usize = 0;
        while i < block.avail_certs.len()
            invariant
                i <= block.avail_certs@.len(),
                b == block@,
                pending_avail.wf(),
                pending_avail@ == old(self).pending_avail()@.remove_keys(cert_chunks(b.avail_certs.subrange(0, i as int))),
            decreases block.avail_certs@.len() - i,
        {
            pending_avail.remove(&block.avail_certs[i].chunk_id);
            proof {
                crate::core_state::lemma_cert_chunks_step(b.avail_certs, i as int);
                assert(pending_avail@ =~= old(self).pending_avail()@.remove_keys(cert_chunks(b.avail_certs.subrange(0, i + 1))));
            }
            i = i + 1;
        }
        proof {
            assert(b.avail_certs.subrange(0, b.avail_certs.len() as int) =~= b.avail_certs);
        }
        self.pending_availability_certs = pending_avail;

        let mut pending_state: SortedMap<ChunkID, StateCert> = SortedMap::new();
        std::mem::swap(&mut pending_state, &mut self.pending_state_certs);
        let mut i: usize = 0;
        while i < block.state_certs.len()
            invariant
                i <= block.state_certs@.len(),
                b == block@,
                pending_state.wf(),
                pending_state@ == old(self).pending_state()@.remove_keys(cert_chunks(b.state_certs.subrange(0, i as int))),
            decreases block.state_certs@.len() - i,
        {
            pending_state.remove(&block.state_certs[i].chunk_id);
            proof {
                crate::core_state::lemma_cert_chunks_step(b.state_certs, i as int);
                assert(pending_state@ =~= old(self).pending_state()@.remove_keys(cert_chunks(b.state_certs.subrange(0, i + 1))));
            }
            i = i + 1;
        }
        proof {
            assert(b.state_certs.subrange(0, b.state_certs.len() as int) =~= b.state_certs);
        }
        self.pending_state_certs = pending_state;

        let config = *self.core_state.config();
        let mut core_state = CoreState::new(config);
        std::mem::swap(&mut core_state, &mut self.core_state);
        core_state.apply_block(block);
        self.core_state = core_state;

        let producer = self.core_state.block_producer_at(next_height);
        proof {
            crate::sim_core::node::lemma_node_id_eq(producer, node.node_id());
        }
        if producer == node.id() {
            let (avail, state) = self.pending_certificates();
            let next = Block::new(next_height, hash, avail, state);
            proof {
                assert(next@.avail_certs == avail_views(avail@));
                assert(next@.state_certs == state_views(state@));
                assert(is_successor(next@, b, self.pending_avail().entries(), self.pending_state().entries()));
            }
            let ghost before = *node;
            self.broadcast_block(node, next);
            proof {
                let succ = carries_successor(b, self.pending_avail().entries(), self.pending_state().entries());
                let dests = identities(block_recipients(self.state().cfg()));
                assert forall|k: int, p: MessagePayload| 0 <= k < dests.len() && #[trigger] carries_block(next@)(k, p) implies succ(k, p) by {
                }
                crate::sim_core::node::lemma_sent_each_weaken(*node, before, dests, carries_block(next@), succ);
            }
        }
        Ok(())
    }

    /// Records a data owner's attestation; once the availability quorum is
    /// met for a chunk, creates an availability certificate that will be
    /// included in a future block. A chunk with more confirmations than a
    /// `u32` counts is refused after recording.
    pub fn chunk_part_stored(&mut self, data_owner: NodeID, chunk_part_id: ChunkPartID) -> (r: Result<(), HandlerError>)
        ensures
            final(self).availability().recorded(&old(self).availability(), data_owner, chunk_part_id),
            final(self).state() == old(self).state(),
            final(self).endorsements() == old(self).endorsements(),
            final(self).pending_state() == old(self).pending_state(),
            ({
                let confirmed = final(self).availability().confirmations(chunk_part_id.chunk_id);
                &&& r is Err <==> confirmed.len() > u32::MAX
                &&& r is Err ==> r == Err::<(), HandlerError>(HandlerError::ArithmeticOverflow)
                &&& (r is Ok && confirmed.len() == old(self).state().cfg().availability_quorum) ==> {
                    &&& final(self).pending_avail()@ == old(self).pending_avail()@.insert(
                        chunk_part_id.chunk_id,
                        final(self).pending_avail()@[chunk_part_id.chunk_id],
                    )
                    &&& final(self).pending_avail()@[chunk_part_id.chunk_id]@ == (CertView {
                        chunk_id: chunk_part_id.chunk_id,
                        signers: entry_values(confirmed),
                    })
                }
                &&& (r is Err || confirmed.len() != old(self).state().cfg().availability_quorum) ==> final(self).pending_avail() == old(self).pending_avail()
            }),
    {
        // With actual fault tolerance, we would check here that the data
        // owner is really assigned to this part, and that enough distinct
        // owners confirmed enough different parts to guarantee reconstruction
        // despite failures. The analogous holds for endorsements (except
        // that they have no parts).
        proof {
            use_type_invariant(&*self);
        }
        let mut tracker = AvailabilityTracker::new();
        std::mem::swap(&mut tracker, &mut self.availability_tracker);
        tracker.add(data_owner, &chunk_part_id);
        self.availability_tracker = tracker;
        let chunk = chunk_part_id.chunk_id;
        if self.availability_tracker.count_usize(&chunk) > 0xffff_ffff {
            return Err(HandlerError::ArithmeticOverflow);
        }
        if self.availability_tracker.count(&chunk) == self.core_state.config().availability_quorum {
            let cert = self.availability_tracker.certificate(chunk);
            let mut pending: SortedMap<ChunkID, AvailCert> = SortedMap::new();
            std::mem::swap(&mut pending, &mut self.pending_availability_certs);
            pending.insert(chunk, cert);
            self.pending_availability_certs = pending;
            proof {
                assert(self.pending_avail()@ =~= old(self).pending_avail()@.insert(chunk, self.pending_avail()@[chunk]));
            }
        }
        Ok(())
    }

    /// Records a validator's state endorsement; once the endorsement quorum
    /// is met, creates a state certificate that will be included in a future
    /// block. A chunk with more endorsements than a `u32` counts is refused
    /// after recording.
    pub fn state_endorsed(&mut self, validator: NodeID, chunk_id: ChunkID) -> (r: Result<(), HandlerError>)
        ensures
            final(self).endorsements().recorded(&old(self).endorsements(), validator, chunk_id),
            final(self).state() == old(self).state(),
            final(self).availability() == old(self).availability(),
            final(self).pending_avail() == old(self).pending_avail(),
            ({
                let signers = final(self).endorsements().signers(chunk_id);
                &&& r is Err <==> signers.len() > u32::MAX
                &&& r is Err ==> r == Err::<(), HandlerError>(HandlerError::ArithmeticOverflow)
                &&& (r is Ok && signers.len() == old(self).state().cfg().endorsement_quorum) ==> {
                    &&& final(self).pending_state()@ == old(self).pending_state()@.insert(
                        chunk_id,
                        final(self).pending_state()@[chunk_id],
                    )
                    &&& final(self).pending_state()@[chunk_id]@ == (CertView { chunk_id, signers })
                }
                &&& (r is Err || signers.len() != old(self).state().cfg().endorsement_quorum) ==> final(self).pending_state() == old(self).pending_state()
            }),
    {
        proof {
            use_type_invariant(&*self);
        }
        let mut tracker = EndorsementTracker::new();
        std::mem::swap(&mut tracker, &mut self.endorsement_tracker);
        tracker.add(validator, &chunk_id);
        self.endorsement_tracker = tracker;
        if self.endorsement_tracker.count_usize(&chunk_id) > 0xffff_ffff {
            return Err(HandlerError::ArithmeticOverflow);
        }
        if self.endorsement_tracker.count(&chunk_id) == self.core_state.config().endorsement_quorum {
            let cert = self.endorsement_tracker.certificate(chunk_id);
            let mut pending: SortedMap<ChunkID, StateCert> = SortedMap::new();
            std::mem::swap(&mut pending, &mut self.pending_state_certs);
            pending.insert(chunk_id, cert);
            self.pending_state_certs = pending;
            proof {
                assert(self.pending_state()@ =~= old(self).pending_state()@.insert(chunk_id, self.pending_state()@[chunk_id]));
            }
        }
        Ok(())
    }
}

impl MessageHandler<MessagePayload> for BlockProducer {
    open spec fn init_spec(&self, before: Node<MessagePayload>, after: Node<MessagePayload>) -> bool {
        if padded(block_producer_name(0)) == before.node_id()@ {
            after.sent_each(&before, identities(block_recipients(self.state().cfg())), carries_block(genesis_view()))
        } else {
            after == before
        }
    }

    open spec fn handle_spec(&self, before: Node<MessagePayload>, msg: Message<MessagePayload>, after: Node<MessagePayload>, r: Result<(), HandlerError>) -> bool {
        match msg.payload {
            MessagePayload::Block(b) => {
                let c = self.state().cfg();
                &&& r == block_outcome(self.state().chain(), b@)
                &&& r is Err ==> after == before
                &&& r is Ok ==> if padded(block_producer_name(((b.height.0 + 1) % c.num_block_producers as int) as nat)) == before.node_id()@ {
                    after.sent_each(
                        &before,
                        identities(block_recipients(c)),
                        carries_successor(
                            b@,
                            key_order(self.pending_avail()@.remove_keys(cert_chunks(b@.avail_certs))),
                            key_order(self.pending_state()@.remove_keys(cert_chunks(b@.state_certs))),
                        ),
                    )
                } else {
                    after == before
                }
            },
            MessagePayload::StatementChunkPartStored(_) => after == before && (r is Ok || r == Err::<(), HandlerError>(HandlerError::ArithmeticOverflow)),
            MessagePayload::StatementStateEndorsement(_) => after == before && (r is Ok || r == Err::<(), HandlerError>(HandlerError::ArithmeticOverflow)),
            _ => r == Err::<(), HandlerError>(HandlerError::UnexpectedPayload) && after == before,
        }
    }
    /// Blocks go to `process_block`, storage attestations to
    /// `chunk_part_stored` and state endorsements to `state_endorsed`, with
    /// the sender as attester; any other payload is refused.
    fn handle_message(&mut self, node: &mut Node<MessagePayload>, msg: Message<MessagePayload>) -> (r: Result<(), HandlerError>)
        ensures
            msg.payload matches MessagePayload::Block(b) ==> {
                &&& r == block_outcome(old(self).state().chain(), b@)
                &&& r is Err ==> *final(self) == *old(self) && *final(node) == *old(node)
                &&& r is Ok ==> {
                    &&& final(self).state().cfg() == old(self).state().cfg()
                    &&& final(self).state().chain() == old(self).state().chain().push(b@)
                    &&& final(self).state().available() == old(self).state().available() + cert_chunks(b@.avail_certs)
                    &&& final(self).state().endorsed() == old(self).state().endorsed() + cert_chunks(b@.state_certs)
                    &&& final(self).availability() == old(self).availability()
                    &&& final(self).endorsements() == old(self).endorsements()
                    &&& final(self).pending_avail()@ == old(self).pending_avail()@.remove_keys(cert_chunks(b@.avail_certs))
                    &&& final(self).pending_state()@ == old(self).pending_state()@.remove_keys(cert_chunks(b@.state_certs))
                    &&& final(self).pending_avail().entries() == key_order(final(self).pending_avail()@)
                    &&& final(self).pending_state().entries() == key_order(final(self).pending_state()@)
                }
            },
            msg.payload matches MessagePayload::StatementChunkPartStored(p) ==> {
                let confirmed = final(self).availability().confirmations(p.chunk_id);
                &&& final(self).availability().recorded(&old(self).availability(), msg.source, p)
                &&& final(self).state() == old(self).state()
                &&& final(self).endorsements() == old(self).endorsements()
                &&& final(self).pending_state() == old(self).pending_state()
                &&& *final(node) == *old(node)
                &&& r is Err <==> confirmed.len() > u32::MAX
                &&& r is Err ==> r == Err::<(), HandlerError>(HandlerError::ArithmeticOverflow)
                &&& (r is Ok && confirmed.len() == old(self).state().cfg().availability_quorum) ==> {
                    &&& final(self).pending_avail()@ == old(self).pending_avail()@.insert(p.chunk_id, final(self).pending_avail()@[p.chunk_id])
                    &&& final(self).pending_avail()@[p.chunk_id]@ == (CertView { chunk_id: p.chunk_id, signers: entry_values(confirmed) })
                }
                &&& (r is Err || confirmed.len() != old(self).state().cfg().availability_quorum) ==> final(self).pending_avail() == old(self).pending_avail()
            },
            msg.payload matches MessagePayload::StatementStateEndorsement(c) ==> {
                let signers = final(self).endorsements().signers(c);
                &&& final(self).endorsements().recorded(&old(self).endorsements(), msg.source, c)
                &&& final(self).state() == old(self).state()
                &&& final(self).availability() == old(self).availability()
                &&& final(self).pending_avail() == old(self).pending_avail()
                &&& *final(node) == *old(node)
                &&& r is Err <==> signers.len() > u32::MAX
                &&& r is Err ==> r == Err::<(), HandlerError>(HandlerError::ArithmeticOverflow)
                &&& (r is Ok && signers.len() == old(self).state().cfg().endorsement_quorum) ==> {
                    &&& final(self).pending_state()@ == old(self).pending_state()@.insert(c, final(self).pending_state()@[c])
                    &&& final(self).pending_state()@[c]@ == (CertView { chunk_id: c, signers })
                }
                &&& (r is Err || signers.len() != old(self).state().cfg().endorsement_quorum) ==> final(self).pending_state() == old(self).pending_state()
            },
            (msg.payload is ChunkPart || msg.payload is StateWitness) ==> {
                &&& r == Err::<(), HandlerError>(HandlerError::UnexpectedPayload)
                &&& *final(self) == *old(self)
                &&& *final(node) == *old(node)
            },
    {
        let source = msg.source;
        match msg.payload {
            MessagePayload::Block(block) => {
                let ghost b = block@;
                let r = self.process_block(node, block);
                proof {
                    use_type_invariant(&*self);
                    lemma_key_order(self.pending_avail().entries(), self.pending_avail()@);
                    lemma_key_order(self.pending_state().entries(), self.pending_state()@);
                    if r is Ok {
                        let c = old(self).state().cfg();
                        let h = (b.height.0 + 1) % c.num_block_producers as int;
                        if padded(block_producer_name(h as nat)) == old(node).node_id()@ {
                            crate::sim_core::node::lemma_sent_each_follows(*node, *old(node), identities(block_recipients(c)), carries_successor(b, self.pending_avail().entries(), self.pending_state().entries()));
                        } else {
                            crate::sim_core::node::lemma_follows_reflexive(*node);
                        }
                    } else {
                        crate::sim_core::node::lemma_follows_reflexive(*node);
                    }
                }
                r
            },
            MessagePayload::StatementChunkPartStored(chunk_part) => {
                proof {
                    crate::sim_core::node::lemma_follows_reflexive(*node);
                }
                self.chunk_part_stored(source, chunk_part)
            },
            MessagePayload::StatementStateEndorsement(chunk_id) => {
                proof {
                    crate::sim_core::node::lemma_follows_reflexive(*node);
                }
                self.state_endorsed(source, chunk_id)
            },
            _ => {
                proof {
                    crate::sim_core::node::lemma_follows_reflexive(*node);
                }
                Err(HandlerError::UnexpectedPayload)
            },
        }
    }

    /// If this node is the producer assigned to height 0, broadcasts the
    /// genesis block.
    fn init(&mut self, node: &mut Node<MessagePayload>)
        ensures
            *final(self) == *old(self),
            padded(block_producer_name(0)) == old(node).node_id()@ ==> final(node).sent_each(
                old(node),
                identities(block_recipients(old(self).state().cfg())),
                carries_block(genesis_view()),
            ),
            padded(block_producer_name(0)) != old(node).node_id()@ ==> *final(node) == *old(node),
    {
        proof {
            use_type_invariant(&*self);
        }
        let producer = self.core_state.block_producer_at(Height(0));
        proof {
            crate::sim_core::node::lemma_node_id_eq(producer, node.node_id());
            assert(0u32 % self.state().cfg().num_block_producers == 0);
        }
        if producer == node.id() {
            let ghost before = *node;
            self.broadcast_block(node, Block::genesis());
            proof {
                crate::sim_core::node::lemma_sent_each_follows(*node, before, identities(block_recipients(self.state().cfg())), carries_block(genesis_view()));
            }
        } else {
            proof {
                crate::sim_core::node::lemma_follows_reflexive(*node);
            }
        }
    }
}

/// Sends a copy of `block` to each of `destinations`, in order.
fn send_to_all(
    node: &mut Node<MessagePayload>,
    destinations: &Vec<NodeID>,
    block: &Block,
    Ghost(names): Ghost<Seq<Seq<u8>>>,
)
    requires
        old(node).clock() <= CLOCK_LIMIT,
        ids_match(destinations@, names),
    ensures
        final(node).sent_each(old(node), identities(names), carries_block(block@)),
{
    let mut payloads: Vec<MessagePayload> = Vec::new();
    let mut i: usize = 0;
    while i < destinations.len()
        invariant
            i <= destinations@.len(),
            payloads@.len() == i,
            forall|k: int| 0 <= k < i ==> is_block(#[trigger] payloads@[k], block@),
        decreases destinations@.len() - i,
    {
        payloads.push(MessagePayload::Block(block.duplicate()));
        i = i + 1;
    }
    let ghost sent = payloads@;
    send_all(node, payloads, destinations);
    proof {
        crate::core_state::lemma_ids_match_bytes(destinations@, names);
        assert forall|k: int, p: MessagePayload| 0 <= k < identities(names).len() && #[trigger] is_kth(sent)(k, p) implies carries_block(block@)(k, p) by {
            assert(is_block(sent[k], block@));
        }
        crate::sim_core::node::lemma_sent_each_weaken(*node, *old(node), identities(names), is_kth(sent), carries_block(block@));
    }
}

} // verus!
