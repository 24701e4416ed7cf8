//! The protocol's parameters.
use vstd::prelude::*;
use crate::naming::{
    chunk_producer_name, chunk_producer_prefix, decimal, lemma_decimal_len_monotonic, push_decimal,
    DASH,
};
use crate::types::shard::ShardID;

verus! {

/// The sizes of the node populations and the quorums.
#[derive(Clone, Copy, Debug)]
pub struct Config {
    pub num_shards: u32,
    pub num_block_producers: u32,
    pub num_chunk_producers_per_shard: u32,
    pub num_replicas_per_shard: u32,
    pub num_data_owners: u32,
    pub num_validators: u32,
    pub validator_sample_size: u32,
    pub num_chunk_data_parts: u32,
    pub availability_quorum: u32,
    pub endorsement_quorum: u32,
}

/// The names of the first `count` chunk producers of `shard` fit in 32 bytes.
pub open spec fn chunk_producer_names_fit(shard: nat, count: nat) -> bool {
    forall|i: nat| i < count ==> #[trigger] chunk_producer_name(shard, i).len() <= 32
}

impl Config {
    /// The configuration the simulation runs with.
    pub fn default() -> (r: Self)
        ensures
            r.num_shards == 2,
            r.num_block_producers == 2,
            r.num_chunk_producers_per_shard == 2,
            r.num_replicas_per_shard == 2,
            r.num_data_owners == 8,
            r.num_validators == 8,
            r.validator_sample_size == 4,
            r.num_chunk_data_parts == 4,
            r.availability_quorum == 3,
            r.endorsement_quorum == 3,
    {
        let num_shards: u32 = 2;
        Self {
            num_shards: 2,
            num_block_producers: 2,
            num_chunk_producers_per_shard: 2,
            num_replicas_per_shard: 2,
            num_data_owners: 8,
            num_validators: 4 * num_shards,
            validator_sample_size: 4,
            num_chunk_data_parts: 4,
            // This many out of num_chunk_data_parts stored parts yield an AvailCert.
            availability_quorum: 3,
            // This many out of validator_sample_size endorsements yield a StateCert.
            endorsement_quorum: 3,
        }
    }

    /// Every shard, in increasing order.
    pub fn all_shards(&self) -> (r: Vec<ShardID>)
        ensures
            r@ == Seq::new(self.num_shards as nat, |i: int| ShardID(i as u32)),
    {
        let mut shards: Vec<ShardID> = Vec::new();
        let mut shard: u32 = 0;
        while shard < self.num_shards
            invariant
                shard <= self.num_shards,
                shards@ == Seq::new(shard as nat, |i: int| ShardID(i as u32)),
            decreases self.num_shards - shard,
        {
            shards.push(ShardID(shard));
            shard = shard + 1;
            proof {
                assert(shards@ =~= Seq::new(shard as nat, |i: int| ShardID(i as u32)));
            }
        }
        shards
    }

    /// Every role's assignment is defined: each pool that nodes are picked
    /// from by rotation is nonempty, and every chunk producer of every shard
    /// has a name of at most 32 bytes.
    pub open spec fn supported(&self) -> bool {
        &&& self.num_block_producers > 0
        &&& self.num_data_owners > 0
        &&& self.num_validators > 0
        &&& forall|s: nat|
            s < self.num_shards ==> #[trigger] chunk_producer_names_fit(
                s,
                self.num_chunk_producers_per_shard as nat,
            )
    }

    /// What a block producer needs: producers to take turns, and chunk
    /// producer names that fit an identity, for every shard.
    pub open spec fn block_producer_supported(&self) -> bool {
        &&& self.num_block_producers > 0
        &&& forall|s: nat|
            s < self.num_shards ==> #[trigger] chunk_producer_names_fit(
                s,
                self.num_chunk_producers_per_shard as nat,
            )
    }

    /// Whether the configuration is `supported`.
    pub fn is_supported(&self) -> (r: bool)
        ensures
            r == self.supported(),
    {
        if self.num_block_producers == 0 || self.num_data_owners == 0 || self.num_validators == 0 {
            return false;
        }
        if self.num_shards == 0 {
            return true;
        }
        names_fit(self.num_shards, self.num_chunk_producers_per_shard)
    }
}

/// The number of decimal digits of `n`.
pub fn decimal_len(n: u32) -> (r: usize)
    ensures
        r == decimal(n as nat).len(),
        r <= 10,
{
    proof {
        crate::naming::lemma_decimal_len_u32(n as nat);
    }
    let mut digits: Vec<u8> = Vec::new();
    push_decimal(&mut digits, n as u64);
    assert(digits@ =~= decimal(n as nat));
    digits.len()
}

/// Whether the names of the first `count` chunk producers of every shard
/// below `num_shards` fit in 32 bytes.
fn names_fit(num_shards: u32, count: u32) -> (r: bool)
    requires
        num_shards > 0,
    ensures
        r == forall|s: nat| s < num_shards ==> #[trigger] chunk_producer_names_fit(s, count as nat),
{
    if count == 0 {
        return true;
    }
    let long = decimal_len(num_shards - 1) + decimal_len(count - 1);
    proof {
        assert(chunk_producer_prefix().len() == 15);
        if long <= 16 {
            assert forall|s: nat| s < num_shards implies #[trigger] chunk_producer_names_fit(s, count as nat) by {
                assert forall|i: nat| i < count implies #[trigger] chunk_producer_name(s, i).len() <= 32 by {
                    lemma_decimal_len_monotonic(s, (num_shards - 1) as nat);
                    lemma_decimal_len_monotonic(i, (count - 1) as nat);
                }
            }
        } else {
            let s = (num_shards - 1) as nat;
            let i = (count - 1) as nat;
            assert(chunk_producer_name(s, i).len() > 32);
            assert(!chunk_producer_names_fit(s, count as nat));
        }
    }
    long <= 16
}

} // verus!
