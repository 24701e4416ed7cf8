//! Replicas: they follow the chain and execute their shard's chunks in
//! order, shipping a state witness for each to the sampled validators.
use vstd::prelude::*;
use crate::config::Config;
use crate::core_state::{
    block_fits, cert_chunks, identities, lemma_ids_match_bytes, lemma_rotation_match, misfit,
    rotation_fits, rotation_seq, rotation_start, CoreState,
};
use crate::naming::validator_name;
use crate::sim_core::message::{HandlerError, Message, MessageHandler};
use crate::sim_core::node::{is_kth, send_all, Node, CLOCK_LIMIT};
use crate::spice::payload::MessagePayload;
use crate::types::block::{block_id_of, Block, BlockView};
use crate::types::chunk::ChunkID;
use crate::types::encoding::{block_encodable, is_encodable};
use crate::types::height::Height;
use crate::types::shard::ShardID;
use crate::types::state_witness::StateWitness;

verus! {

/// The chunk of `shard` in the block at position `h` of `chain`.
pub open spec fn chunk_at(chain: Seq<BlockView>, h: int, shard: ShardID) -> ChunkID {
    ChunkID { block_id: block_id_of(chain[h]), shard_id: shard }
}

/// The chunk of `shard` at position `h` can be executed: the chain reaches
/// `h` and the chunk is certified available.
pub open spec fn executable(chain: Seq<BlockView>, available: Set<ChunkID>, shard: ShardID, h: int) -> bool {
    0 <= h < chain.len() && available.contains(chunk_at(chain, h, shard))
}

/// The first position from `from` on whose chunk cannot be executed.
#[verifier::opaque]
pub open spec fn first_gap(chain: Seq<BlockView>, available: Set<ChunkID>, shard: ShardID, from: int) -> int
    decreases chain.len() - from,
{
    if executable(chain, available, shard, from) {
        first_gap(chain, available, shard, from + 1)
    } else {
        from
    }
}

/// The names of the validators sampled for the chunk of `shard` at `height`.
pub open spec fn validator_names_at(c: Config, height: u32, shard: u32) -> Seq<Seq<u8>> {
    rotation_seq(
        |i: nat| validator_name(i),
        rotation_start(height, shard, c.num_shards, c.validator_sample_size, c.num_validators),
        c.validator_sample_size as nat,
        c.num_validators as nat,
    )
}

/// Everyone the witnesses of positions `from .. to` go to, position after
/// position.
#[verifier::opaque]
pub open spec fn witness_recipients(c: Config, chain: Seq<BlockView>, shard: ShardID, from: int, to: int) -> Seq<Seq<u8>>
    decreases to - from,
{
    if to <= from {
        Seq::empty()
    } else {
        witness_recipients(c, chain, shard, from, to - 1) + identities(validator_names_at(c, chain[to - 1].height.0, shard.0))
    }
}

/// The chunk each of those witnesses is for.
#[verifier::opaque]
pub open spec fn witness_chunks(c: Config, chain: Seq<BlockView>, shard: ShardID, from: int, to: int) -> Seq<ChunkID>
    decreases to - from,
{
    if to <= from {
        Seq::empty()
    } else {
        witness_chunks(c, chain, shard, from, to - 1) + Seq::new(c.validator_sample_size as nat, |k: int| chunk_at(chain, to - 1, shard))
    }
}

/// Holds for the `k`-th payload when it is the witness for `chunks[k]`.
pub open spec fn witnesses_of(chunks: Seq<ChunkID>) -> spec_fn(int, MessagePayload) -> bool {
    |k: int, p: MessagePayload| p == MessagePayload::StateWitness(StateWitness { chunk_id: chunks[k] })
}

/// Execution from position `from` towards `stop` halted at position `at`:
/// every chunk before it was executed and its witnesses sent, the next
/// position is `at`, and the chunk at `at` cannot have its validators
/// computed (there are no validators to pick from, or the rotation
/// overflows) or `at` is the last height.
pub open spec fn stopped_at(
    c: Config,
    chain: Seq<BlockView>,
    shard: ShardID,
    from: int,
    stop: int,
    at: int,
    before: Node<MessagePayload>,
    after: Node<MessagePayload>,
) -> bool {
    &&& from <= at < stop
    &&& run_fits(c, chain, shard, from, at)
    &&& !step_fits(c, chain, shard, at)
    &&& after.sent_each(&before, witness_recipients(c, chain, shard, from, at), witnesses_of(witness_chunks(c, chain, shard, from, at)))
}

/// The chunk at position `h` has computable validators (there are
/// validators, and their rotation does not overflow) and leaves room for the
/// next height.
pub open spec fn step_fits(c: Config, chain: Seq<BlockView>, shard: ShardID, h: int) -> bool {
    &&& c.num_validators > 0
    &&& rotation_fits(chain[h].height.0, shard.0, c.num_shards, c.validator_sample_size)
    &&& h < u32::MAX
}

/// Every chunk executed on the way from `from` to `to` has computable
/// validators and leaves room for the next height.
pub open spec fn run_fits(c: Config, chain: Seq<BlockView>, shard: ShardID, from: int, to: int) -> bool {
    forall|h: int| from <= h < to ==> #[trigger] step_fits(c, chain, shard, h)
}

/// Why execution halts where a chunk's validators cannot be computed: an
/// empty pool of validators, else an overflow.
pub open spec fn stop_error(c: Config) -> HandlerError {
    if c.num_validators == 0 {
        HandlerError::EmptyPool
    } else {
        HandlerError::ArithmeticOverflow
    }
}

/// Call `k` of a replica's life, from `rs[k]` to `rs[k + 1]`, executed the
/// chunk at position `h`: `process_block` and `execute_ready` execute exactly
/// the positions from the old next position up to the new one.
pub open spec fn executed_in(rs: Seq<Replica>, k: int, h: int) -> bool {
    &&& 0 <= k < rs.len() - 1
    &&& rs[k].next().0 <= h < rs[k + 1].next().0
}

/// Some call of a replica's life, whose states are `rs`, executed the
/// chunk at position `h`.
pub open spec fn executed(rs: Seq<Replica>, h: int) -> bool {
    exists|k: int| #[trigger] executed_in(rs, k, h)
}

/// Along states whose next positions never move back, a later state's next
/// position is at least an earlier one's.
proof fn lemma_next_monotone(rs: Seq<Replica>, i: int, j: int)
    requires
        forall|k: int| 0 <= k < rs.len() - 1 ==> #[trigger] rs[k].next().0 <= rs[k + 1].next().0,
        0 <= i <= j < rs.len(),
    ensures
        rs[i].next().0 <= rs[j].next().0,
    decreases j - i,
{
    if i < j {
        lemma_next_monotone(rs, i, j - 1);
        assert(rs[j - 1].next().0 <= rs[j].next().0);
    }
}

/// Over a replica's life, from a new replica through any sequence of calls
/// (each of which never moves the next position back), every position below
/// the final next position is executed by exactly one call, positions are
/// executed in order, and no other position is executed.
pub proof fn lemma_replica_executes_each_height_once_in_order(rs: Seq<Replica>)
    requires
        rs.len() > 0,
        rs[0].next() == Height(0),
        forall|k: int| 0 <= k < rs.len() - 1 ==> #[trigger] rs[k].next().0 <= rs[k + 1].next().0,
    ensures
        forall|h: int| 0 <= h < rs.last().next().0 ==> #[trigger] executed(rs, h),
        forall|h: int, k1: int, k2: int| #[trigger] executed_in(rs, k1, h) && #[trigger] executed_in(rs, k2, h) ==> k1 == k2,
        forall|h1: int, h2: int, k1: int, k2: int|
            #[trigger] executed_in(rs, k1, h1) && #[trigger] executed_in(rs, k2, h2) && h1 < h2 ==> k1 <= k2,
        forall|h: int, k: int| #[trigger] executed_in(rs, k, h) ==> 0 <= h < rs.last().next().0,
    decreases rs.len(),
{
    assert forall|h: int, k1: int, k2: int| #[trigger] executed_in(rs, k1, h) && #[trigger] executed_in(rs, k2, h) implies k1 == k2 by {
        if k1 < k2 {
            lemma_next_monotone(rs, k1 + 1, k2);
        } else if k2 < k1 {
            lemma_next_monotone(rs, k2 + 1, k1);
        }
    }
    assert forall|h1: int, h2: int, k1: int, k2: int|
        #[trigger] executed_in(rs, k1, h1) && #[trigger] executed_in(rs, k2, h2) && h1 < h2 implies k1 <= k2 by {
        if k2 < k1 {
            lemma_next_monotone(rs, k2 + 1, k1);
        }
    }
    assert forall|h: int, k: int| #[trigger] executed_in(rs, k, h) implies 0 <= h < rs.last().next().0 by {
        lemma_next_monotone(rs, k + 1, rs.len() - 1);
    }
    if rs.len() > 1 {
        let prefix = rs.drop_last();
        assert forall|k: int| 0 <= k < prefix.len() - 1 implies #[trigger] prefix[k].next().0 <= prefix[k + 1].next().0 by {
            assert(prefix[k] == rs[k]);
            assert(prefix[k + 1] == rs[k + 1]);
            assert(rs[k].next().0 <= rs[k + 1].next().0);
        }
        lemma_replica_executes_each_height_once_in_order(prefix);
        let n = rs.len() - 1;
        assert forall|h: int| 0 <= h < rs.last().next().0 implies #[trigger] executed(rs, h) by {
            if h < prefix.last().next().0 {
                assert(executed(prefix, h));
                let k = choose|k: int| #[trigger] executed_in(prefix, k, h);
                assert(prefix[k] == rs[k] && prefix[k + 1] == rs[k + 1]);
                assert(executed_in(rs, k, h));
            } else {
                assert(prefix.last() == rs[n - 1]);
                assert(rs.last() == rs[n]);
                assert(executed_in(rs, n - 1, h));
            }
        }
    }
}

/// Observes the chain, executes its shard's chunks once they become
/// available, and ships a state witness for each executed chunk to the
/// sampled validators.
pub struct Replica {
    core_state: CoreState,
    shard_id: ShardID,
    next_height: Height,
}

proof fn lemma_witness_lengths(c: Config, chain: Seq<BlockView>, shard: ShardID, from: int, to: int)
    ensures
        witness_recipients(c, chain, shard, from, to).len() == witness_chunks(c, chain, shard, from, to).len(),
    decreases to - from,
{
    reveal(witness_recipients);
    reveal(witness_chunks);
    if to > from {
        lemma_witness_lengths(c, chain, shard, from, to - 1);
    }
}

/// Nothing is sent for an empty range of positions.
proof fn lemma_witness_empty(c: Config, chain: Seq<BlockView>, shard: ShardID, from: int)
    ensures
        witness_recipients(c, chain, shard, from, from) == Seq::<Seq<u8>>::empty(),
{
    reveal(witness_recipients);
}

/// The search for a gap stops at a position that cannot be executed.
pub proof fn lemma_first_gap_stop(chain: Seq<BlockView>, available: Set<ChunkID>, shard: ShardID, h: int)
    requires
        !executable(chain, available, shard, h),
    ensures
        first_gap(chain, available, shard, h) == h,
{
    reveal(first_gap);
}

/// The search for a gap passes over a position that can be executed.
pub proof fn lemma_first_gap_step(chain: Seq<BlockView>, available: Set<ChunkID>, shard: ShardID, h: int)
    requires
        executable(chain, available, shard, h),
    ensures
        first_gap(chain, available, shard, h) == first_gap(chain, available, shard, h + 1),
{
    reveal(first_gap);
}

/// The chunks a replica of `shard` executes from position `from` on are
/// exactly its own shard's chunks, each certified available, up to the first
/// position whose own chunk is not certified (or which the chain does not
/// reach): every position before the gap holds a block whose chunk for
/// `shard` is in `available`, and at the gap, if the chain reaches it, that
/// chunk is not.
pub proof fn lemma_first_gap_own_chunks(chain: Seq<BlockView>, available: Set<ChunkID>, shard: ShardID, from: int)
    requires
        0 <= from,
    ensures
        from <= first_gap(chain, available, shard, from),
        forall|h: int|
            from <= h < first_gap(chain, available, shard, from) ==> h < chain.len() && available.contains(
                ChunkID { block_id: block_id_of(#[trigger] chain[h]), shard_id: shard },
            ),
        first_gap(chain, available, shard, from) < chain.len() ==> !available.contains(
            ChunkID { block_id: block_id_of(chain[first_gap(chain, available, shard, from)]), shard_id: shard },
        ),
    decreases chain.len() - from,
{
    reveal(first_gap);
    if executable(chain, available, shard, from) {
        lemma_first_gap_own_chunks(chain, available, shard, from + 1);
        assert(available.contains(ChunkID { block_id: block_id_of(chain[from]), shard_id: shard }));
    }
}

impl Replica {
    #[verifier::type_invariant]
    closed spec fn wf(&self) -> bool {
        &&& self.core_state.wf()
        &&& forall|i: int| 0 <= i < self.core_state.chain().len() ==> block_encodable(#[trigger] self.core_state.chain()[i])
    }

    /// The chain state.
    pub closed spec fn state(&self) -> CoreState {
        self.core_state
    }

    /// The shard whose chunks it executes.
    pub closed spec fn shard(&self) -> ShardID {
        self.shard_id
    }

    /// The position of the next chunk to execute.
    pub closed spec fn next(&self) -> Height {
        self.next_height
    }

    /// A replica of `shard_id` with an empty chain under `config`.
    pub fn new(shard_id: ShardID, config: Config) -> (r: Self)
        ensures
            r.state().cfg() == config,
            r.state().chain() == Seq::<BlockView>::empty(),
            r.shard() == shard_id,
            r.next() == Height(0),
    {
        Self { core_state: CoreState::new(config), shard_id, next_height: Height(0) }
    }

    /// Applies the block and executes every chunk that has become ready. A
    /// block with no encoding, or one that does not extend the chain, is
    /// refused and changes nothing. The next position never moves back:
    /// the chunks executed are exactly those from the old next position up
    /// to the new one, so over a replica's life every position is executed
    /// once, in order.
    pub fn process_block(&mut self, node: &mut Node<MessagePayload>, block: Block) -> (r: Result<(), HandlerError>)
        requires
            old(node).clock() <= CLOCK_LIMIT,
        ensures
            final(self).next().0 >= old(self).next().0,
            !block_encodable(block@) ==> r == Err::<(), HandlerError>(HandlerError::Unencodable),
            block_encodable(block@) && !block_fits(old(self).state().chain(), block@) ==> r == Err::<(), HandlerError>(misfit(old(self).state().chain(), block@)),
            !(block_encodable(block@) && block_fits(old(self).state().chain(), block@)) ==> *final(self) == *old(self) && *final(node) == *old(node),
            block_encodable(block@) && block_fits(old(self).state().chain(), block@) ==> {
                let chain = old(self).state().chain().push(block@);
                let available = old(self).state().available() + cert_chunks(block@.avail_certs);
                let c = old(self).state().cfg();
                let from = old(self).next().0 as int;
                let stop = first_gap(chain, available, old(self).shard(), from);
                &&& final(self).state().chain() == chain
                &&& final(self).state().available() == available
                &&& final(self).state().endorsed() == old(self).state().endorsed() + cert_chunks(block@.state_certs)
                &&& final(self).state().cfg() == c
                &&& final(self).shard() == old(self).shard()
                &&& final(node).follows(old(node))
                &&& (r is Ok <==> run_fits(c, chain, old(self).shard(), from, stop))
                &&& r is Err ==> r == Err::<(), HandlerError>(stop_error(c))
                &&& r is Err ==> stopped_at(c, chain, old(self).shard(), from, stop, final(self).next().0 as int, *old(node), *final(node))
                &&& r is Ok ==> {
                    &&& final(self).next().0 == stop
                    &&& final(node).sent_each(
                        old(node),
                        witness_recipients(c, chain, old(self).shard(), from, stop),
                        witnesses_of(witness_chunks(c, chain, old(self).shard(), from, stop)),
                    )
                }
                &&& forall|h: int|
                    from <= h < final(self).next().0 ==> h < chain.len() && available.contains(
                        ChunkID { block_id: block_id_of(#[trigger] chain[h]), shard_id: old(self).shard() },
                    )
                &&& (r is Ok && final(self).next().0 < chain.len()) ==> !available.contains(
                    ChunkID { block_id: block_id_of(chain[final(self).next().0 as int]), shard_id: old(self).shard() },
                )
            },
    {
        proof {
            use_type_invariant(&*self);
        }
        if !is_encodable(&block) {
            return Err(HandlerError::Unencodable);
        }
        match self.core_state.check_next_block(&block) {
            Err(e) => {
                return Err(e);
            },
            Ok(()) => {},
        }
        let mut core_state = CoreState::new(*self.core_state.config());
        std::mem::swap(&mut core_state, &mut self.core_state);
        core_state.apply_block(block);
        self.core_state = core_state;
        let r = self.execute_ready(node);
        proof {
            lemma_first_gap_at_least(self.core_state.chain(), self.core_state.available(), self.shard_id, old(self).next_height.0 as int);
            lemma_first_gap_own_chunks(self.core_state.chain(), self.core_state.available(), self.shard_id, old(self).next_height.0 as int);
        }
        r
    }

    /// Walks forward through the chain, executing the chunk at the next
    /// position for this shard as long as both the block exists and the
    /// chunk has been certified available. Stops at the first gap; later
    /// blocks may close it, and the next call resumes from there.
    fn execute_ready(&mut self, node: &mut Node<MessagePayload>) -> (r: Result<(), HandlerError>)
        requires
            old(node).clock() <= CLOCK_LIMIT,
        ensures
            final(self).state() == old(self).state(),
            final(self).shard() == old(self).shard(),
            final(node).follows(old(node)),
            ({
                let chain = old(self).state().chain();
                let available = old(self).state().available();
                let c = old(self).state().cfg();
                let from = old(self).next().0 as int;
                let stop = first_gap(chain, available, old(self).shard(), from);
                &&& (r is Ok <==> run_fits(c, chain, old(self).shard(), from, stop))
                &&& r is Err ==> r == Err::<(), HandlerError>(stop_error(c))
                &&& r is Ok ==> {
                    &&& final(self).next().0 == stop
                    &&& final(node).sent_each(
                        old(node),
                        witness_recipients(c, chain, old(self).shard(), from, stop),
                        witnesses_of(witness_chunks(c, chain, old(self).shard(), from, stop)),
                    )
                }
                &&& r is Err ==> stopped_at(c, chain, old(self).shard(), from, stop, final(self).next().0 as int, *old(node), *final(node))
            }),
    {
        let ghost chain = self.core_state.chain();
        let ghost available = self.core_state.available();
        let ghost c = self.core_state.cfg();
        let ghost shard = self.shard_id;
        let ghost from = self.next_height.0 as int;
        let ghost start = *node;
        proof {
            crate::sim_core::node::lemma_sent_each_nothing(start, witnesses_of(witness_chunks(c, chain, shard, from, from)));
            lemma_witness_empty(c, chain, shard, from);
        }
        loop
            invariant
                self.core_state == old(self).core_state,
                self.shard_id == old(self).shard_id,
                shard == self.shard_id,
                chain == self.core_state.chain(),
                available == self.core_state.available(),
                c == self.core_state.cfg(),
                start == *old(node),
                start.clock() <= CLOCK_LIMIT,
                from == old(self).next_height.0 as int,
                from <= self.next_height.0,
                run_fits(c, chain, shard, from, self.next_height.0 as int),
                first_gap(chain, available, shard, from) == first_gap(chain, available, shard, self.next_height.0 as int),
                node.sent_each(
                    &start,
                    witness_recipients(c, chain, shard, from, self.next_height.0 as int),
                    witnesses_of(witness_chunks(c, chain, shard, from, self.next_height.0 as int)),
                ),
            decreases chain.len() - self.next_height.0,
        {
            let ghost h = self.next_height.0 as int;
            let ghost mid = *node;
            proof {
                crate::sim_core::node::lemma_sent_each_follows(mid, start, witness_recipients(c, chain, shard, from, h), witnesses_of(witness_chunks(c, chain, shard, from, h)));
                crate::sim_core::node::lemma_sent_each_keeps(mid, start, witness_recipients(c, chain, shard, from, h), witnesses_of(witness_chunks(c, chain, shard, from, h)));
            }
            match self.execute_next(node) {
                Ok(true) => {
                    proof {
                        lemma_witness_step(c, chain, shard, from, h, start, mid, *node, chunk_at(chain, h, shard));
                        lemma_first_gap_step(chain, available, shard, h);
                        assert(run_fits(c, chain, shard, from, h + 1)) by {
                            assert forall|j: int| from <= j < h + 1 implies #[trigger] step_fits(c, chain, shard, j) by {
                                if j < h {
                                    assert(step_fits(c, chain, shard, j));
                                }
                            }
                        }
                    }
                },
                Ok(false) => {
                    proof {
                        lemma_first_gap_stop(chain, available, shard, h);
                    }
                    return Ok(());
                },
                Err(e) => {
                    proof {
                        assert(*node == mid);
                        assert(self.next_height.0 == h);
                        lemma_first_gap_at_least(chain, available, shard, h);
                        assert(stopped_at(c, chain, shard, from, first_gap(chain, available, shard, from), h, start, mid));
                    }
                    return Err(e);
                },
            }
        }
    }

    /// Executes the chunk at the next position if it is executable, and
    /// moves on: `Ok(true)` when it did, `Ok(false)` at a gap.
    fn execute_next(&mut self, node: &mut Node<MessagePayload>) -> (r: Result<bool, HandlerError>)
        requires
            old(node).clock() <= CLOCK_LIMIT,
        ensures
            final(self).state() == old(self).state(),
            final(self).shard() == old(self).shard(),
            ({
                let chain = old(self).state().chain();
                let available = old(self).state().available();
                let c = old(self).state().cfg();
                let shard = old(self).shard();
                let h = old(self).next().0 as int;
                let fits = step_fits(c, chain, shard, h);
                &&& (r == Ok::<bool, HandlerError>(false)) <==> !executable(chain, available, shard, h)
                &&& (r == Ok::<bool, HandlerError>(false)) <==> !(h < chain.len() && available.contains(
                    ChunkID { block_id: block_id_of(chain[h]), shard_id: shard },
                ))
                &&& r == Ok::<bool, HandlerError>(true) ==> final(node).sent_each(
                    old(node),
                    identities(validator_names_at(c, chain[h].height.0, shard.0)),
                    witnesses_of_one(ChunkID { block_id: block_id_of(chain[h]), shard_id: shard }),
                )
                &&& r == Ok::<bool, HandlerError>(false) ==> final(self).next() == old(self).next() && *final(node) == *old(node)
                &&& r == Ok::<bool, HandlerError>(true) ==> {
                    &&& executable(chain, available, shard, h)
                    &&& fits
                    &&& final(self).next().0 == h + 1
                    &&& final(node).sent_each(
                        old(node),
                        identities(validator_names_at(c, chain[h].height.0, shard.0)),
                        witnesses_of_one(chunk_at(chain, h, shard)),
                    )
                }
                &&& r is Err ==> {
                    &&& executable(chain, available, shard, h)
                    &&& !fits
                    &&& r == Err::<bool, HandlerError>(stop_error(c))
                    &&& final(self).next() == old(self).next()
                    &&& *final(node) == *old(node)
                }
            }),
    {
        proof {
            use_type_invariant(&*self);
        }
        let ghost chain = self.core_state.chain();
        let next = self.next_height;
        let ghost h = next.0 as int;
        let block_id = match self.core_state.canonical_block_at(next) {
            Some(block) => {
                assert(block_encodable(chain[h]));
                block.id()
            },
            None => {
                return Ok(false);
            },
        };
        let chunk_id = ChunkID { block_id, shard_id: self.shard_id };
        assert(chunk_id == chunk_at(chain, h, self.shard_id));
        if !self.core_state.chunk_available(&chunk_id) {
            return Ok(false);
        }
        if self.core_state.config().num_validators == 0 {
            return Err(HandlerError::EmptyPool);
        }
        let sample_size = self.core_state.config().validator_sample_size;
        if !self.core_state.rotation_fits(block_id.height, self.shard_id, sample_size) || next.0 == u32::MAX {
            return Err(HandlerError::ArithmeticOverflow);
        }
        self.execute_chunk(node, chunk_id);
        self.next_height = Height(next.0 + 1);
        Ok(true)
    }

    /// "Executes" the chunk (a no-op for now) and dispatches a state witness
    /// to every validator sampled for its height and shard.
    fn execute_chunk(&self, node: &mut Node<MessagePayload>, chunk_id: ChunkID)
        requires
            old(node).clock() <= CLOCK_LIMIT,
            self.state().cfg().num_validators > 0,
            rotation_fits(chunk_id.block_id.height.0, chunk_id.shard_id.0, self.state().cfg().num_shards, self.state().cfg().validator_sample_size),
        ensures
            final(node).sent_each(
                old(node),
                identities(validator_names_at(self.state().cfg(), chunk_id.block_id.height.0, chunk_id.shard_id.0)),
                witnesses_of_one(chunk_id),
            ),
    {
        proof {
            use_type_invariant(self);
        }
        let witness = StateWitness { chunk_id };
        let validators = self.core_state.validators_at(chunk_id.block_id.height, chunk_id.shard_id);
        let mut payloads: Vec<MessagePayload> = Vec::new();
        let mut i: usize = 0;
        while i < validators.len()
            invariant
                i <= validators@.len(),
                payloads@.len() == i,
                forall|k: int| 0 <= k < i ==> #[trigger] payloads@[k] == MessagePayload::StateWitness(witness),
            decreases validators@.len() - i,
        {
            payloads.push(MessagePayload::StateWitness(witness));
            i = i + 1;
        }
        let ghost sent = payloads@;
        send_all(node, payloads, &validators);
        proof {
            let c = self.core_state.cfg();
            let h = chunk_id.block_id.height.0;
            let s = chunk_id.shard_id.0;
            lemma_rotation_match(validators@, |i: nat| validator_name(i), rotation_start(h, s, c.num_shards, c.validator_sample_size, c.num_validators), c.validator_sample_size as nat, c.num_validators as nat);
            lemma_ids_match_bytes(validators@, validator_names_at(c, h, s));
            crate::sim_core::node::lemma_sent_each_weaken(*node, *old(node), identities(validator_names_at(c, h, s)), is_kth(sent), witnesses_of_one(chunk_id));
        }
    }
}

/// Holds for payloads that are the witness for `chunk_id`.
pub open spec fn witnesses_of_one(chunk_id: ChunkID) -> spec_fn(int, MessagePayload) -> bool {
    |k: int, p: MessagePayload| p == MessagePayload::StateWitness(StateWitness { chunk_id })
}

/// The first gap is never before the position the search starts from.
pub proof fn lemma_first_gap_at_least(chain: Seq<BlockView>, available: Set<ChunkID>, shard: ShardID, from: int)
    ensures
        from <= first_gap(chain, available, shard, from),
        executable(chain, available, shard, from) ==> from < first_gap(chain, available, shard, from),
    decreases chain.len() - from,
{
    reveal(first_gap);
    if executable(chain, available, shard, from) {
        lemma_first_gap_at_least(chain, available, shard, from + 1);
    }
}

/// One more executed chunk: the witnesses sent so far, then this chunk's.
proof fn lemma_witness_step(
    c: Config,
    chain: Seq<BlockView>,
    shard: ShardID,
    from: int,
    h: int,
    start: Node<MessagePayload>,
    mid: Node<MessagePayload>,
    after: Node<MessagePayload>,
    chunk_id: ChunkID,
)
    requires
        from <= h,
        chunk_id == chunk_at(chain, h, shard),
        mid.sent_each(&start, witness_recipients(c, chain, shard, from, h), witnesses_of(witness_chunks(c, chain, shard, from, h))),
        after.sent_each(&mid, identities(validator_names_at(c, chain[h].height.0, shard.0)), witnesses_of_one(chunk_id)),
    ensures
        after.sent_each(&start, witness_recipients(c, chain, shard, from, h + 1), witnesses_of(witness_chunks(c, chain, shard, from, h + 1))),
{
    let w_old = witness_chunks(c, chain, shard, from, h);
    let d_new = identities(validator_names_at(c, chain[h].height.0, shard.0));
    let w_new = Seq::new(c.validator_sample_size as nat, |k: int| chunk_at(chain, h, shard));
    lemma_witness_lengths(c, chain, shard, from, h);
    reveal(witness_recipients);
    reveal(witness_chunks);
    assert(witness_chunks(c, chain, shard, from, h + 1) == w_old + w_new);
    assert(witness_recipients(c, chain, shard, from, h + 1) == witness_recipients(c, chain, shard, from, h) + d_new);
    let d_old = witness_recipients(c, chain, shard, from, h);
    assert forall|k: int, p: MessagePayload| 0 <= k < d_old.len() && #[trigger] witnesses_of(w_old)(k, p) implies witnesses_of(w_old + w_new)(k, p) by {
        assert((w_old + w_new)[k] == w_old[k]);
    }
    assert forall|k: int, p: MessagePayload| 0 <= k < d_new.len() && #[trigger] witnesses_of_one(chunk_id)(k, p) implies witnesses_of(w_old + w_new)(k + d_old.len(), p) by {
        assert((w_old + w_new)[k + d_old.len()] == w_new[k]);
    }
    crate::sim_core::node::lemma_sent_each_concat(start, mid, after, d_old, d_new, witnesses_of(w_old), witnesses_of_one(chunk_id), witnesses_of(w_old + w_new));
}

impl MessageHandler<MessagePayload> for Replica {
    open spec fn init_spec(&self, before: Node<MessagePayload>, after: Node<MessagePayload>) -> bool {
        after == before
    }

    open spec fn handle_spec(&self, before: Node<MessagePayload>, msg: Message<MessagePayload>, after: Node<MessagePayload>, r: Result<(), HandlerError>) -> bool {
        match msg.payload {
            MessagePayload::Block(b) => {
                let chain = self.state().chain().push(b@);
                let available = self.state().available() + cert_chunks(b@.avail_certs);
                let c = self.state().cfg();
                let from = self.next().0 as int;
                let stop = first_gap(chain, available, self.shard(), from);
                &&& !block_encodable(b@) ==> r == Err::<(), HandlerError>(HandlerError::Unencodable) && after == before
                &&& block_encodable(b@) && !block_fits(self.state().chain(), b@) ==> r == Err::<(), HandlerError>(misfit(self.state().chain(), b@)) && after == before
                &&& block_encodable(b@) && block_fits(self.state().chain(), b@) ==> {
                    &&& (r is Ok <==> run_fits(c, chain, self.shard(), from, stop))
                    &&& r is Err ==> r == Err::<(), HandlerError>(stop_error(c))
                    &&& r is Err ==> exists|at: int| #[trigger] stopped_at(c, chain, self.shard(), from, stop, at, before, after)
                    &&& r is Ok ==> after.sent_each(
                        &before,
                        witness_recipients(c, chain, self.shard(), from, stop),
                        witnesses_of(witness_chunks(c, chain, self.shard(), from, stop)),
                    )
                }
            },
            _ => r == Err::<(), HandlerError>(HandlerError::UnexpectedPayload) && after == before,
        }
    }

    fn init(&mut self, node: &mut Node<MessagePayload>) {
        proof {
            crate::sim_core::node::lemma_follows_reflexive(*node);
        }
    }
    /// Blocks go to `process_block`; any other payload is refused.
    fn handle_message(&mut self, node: &mut Node<MessagePayload>, msg: Message<MessagePayload>) -> (r: Result<(), HandlerError>)
        ensures
            msg.payload matches MessagePayload::Block(b) ==> {
                &&& !block_encodable(b@) ==> r == Err::<(), HandlerError>(HandlerError::Unencodable)
                &&& block_encodable(b@) && !block_fits(old(self).state().chain(), b@) ==> r == Err::<(), HandlerError>(misfit(old(self).state().chain(), b@))
                &&& !(block_encodable(b@) && block_fits(old(self).state().chain(), b@)) ==> *final(self) == *old(self) && *final(node) == *old(node)
                &&& block_encodable(b@) && block_fits(old(self).state().chain(), b@) ==> final(self).state().chain() == old(self).state().chain().push(b@)
            },
            !(msg.payload is Block) ==> {
                &&& r == Err::<(), HandlerError>(HandlerError::UnexpectedPayload)
                &&& *final(self) == *old(self)
                &&& *final(node) == *old(node)
            },
    {
        match msg.payload {
            MessagePayload::Block(block) => {
                let r = self.process_block(node, block);
                proof {
                    if *node == *old(node) {
                        crate::sim_core::node::lemma_follows_reflexive(*node);
                    }
                }
                r
            },
            _ => {
                proof {
                    crate::sim_core::node::lemma_follows_reflexive(*node);
                }
                Err(HandlerError::UnexpectedPayload)
            },
        }
    }
}

} // verus!
