//! Chunks (one shard's share of a block) and their erasure-coded parts.
use vstd::prelude::*;
use crate::types::block::BlockID;
use crate::sorted_map::SortKey;
use crate::types::hash::{bytes_less, lemma_bytes_less_total, lemma_bytes_less_transitive, lemma_hash_eq};
use crate::types::shard::ShardID;
use std::cmp::Ordering;

verus! {

/// The chunk of shard `shard_id` in block `block_id`.
#[derive(Clone, Copy, Debug, Hash, PartialEq, Eq, PartialOrd, Ord)]
pub struct ChunkID {
    pub block_id: BlockID,
    pub shard_id: ShardID,
}

impl ChunkID {
    /// Whether `self` and `other` name the same chunk.
    pub fn same(&self, other: &ChunkID) -> (r: bool)
        ensures
            r == (*self == *other),
    {
        proof {
            lemma_hash_eq(self.block_id.hash, other.block_id.hash);
        }
        self.block_id.height.0 == other.block_id.height.0 && self.shard_id.0 == other.shard_id.0
            && self.block_id.hash == other.block_id.hash
    }
}

/// The order of chunks: by block height, then block hash (byte-wise), then
/// shard.
pub open spec fn chunk_less(a: ChunkID, b: ChunkID) -> bool {
    ||| a.block_id.height.0 < b.block_id.height.0
    ||| (a.block_id.height.0 == b.block_id.height.0 && bytes_less(
        a.block_id.hash@,
        b.block_id.hash@,
    ))
    ||| (a.block_id.height.0 == b.block_id.height.0 && a.block_id.hash@ == b.block_id.hash@
        && a.shard_id.0 < b.shard_id.0)
}

impl SortKey for ChunkID {
    open spec fn key_less(self, other: Self) -> bool {
        chunk_less(self, other)
    }

    proof fn lemma_key_less_irreflexive(a: Self) {
    }

    proof fn lemma_key_less_transitive(a: Self, b: Self, c: Self) {
        if a.block_id.height.0 == b.block_id.height.0 && b.block_id.height.0 == c.block_id.height.0 {
            if bytes_less(a.block_id.hash@, b.block_id.hash@) && bytes_less(b.block_id.hash@, c.block_id.hash@) {
                lemma_bytes_less_transitive(a.block_id.hash@, b.block_id.hash@, c.block_id.hash@);
            }
        }
    }

    proof fn lemma_key_less_total(a: Self, b: Self) {
        lemma_bytes_less_total(a.block_id.hash@, b.block_id.hash@);
        lemma_hash_eq(a.block_id.hash, b.block_id.hash);
    }

    fn less(&self, other: &Self) -> (r: bool) {
        let (ha, hb) = (self.block_id.height.0, other.block_id.height.0);
        if ha != hb {
            return ha < hb;
        }
        proof {
            lemma_hash_eq(self.block_id.hash, other.block_id.hash);
        }
        if self.block_id.hash.less_than(&other.block_id.hash) {
            return true;
        }
        if self.block_id.hash == other.block_id.hash {
            self.shard_id.0 < other.shard_id.0
        } else {
            false
        }
    }

    fn same_key(&self, other: &Self) -> (r: bool) {
        self.same(other)
    }
}

impl ChunkID {
    /// Compares two chunks in the order `chunk_less`.
    pub fn cmp(&self, other: &Self) -> (r: Ordering)
        ensures
            (r == Ordering::Less) <==> chunk_less(*self, *other),
            (r == Ordering::Equal) <==> *self == *other,
            (r == Ordering::Greater) <==> chunk_less(*other, *self),
    {
        proof {
            ChunkID::lemma_key_less_irreflexive(*self);
            ChunkID::lemma_key_less_total(*self, *other);
            if chunk_less(*self, *other) && chunk_less(*other, *self) {
                ChunkID::lemma_key_less_transitive(*self, *other, *self);
            }
        }
        if self.less(other) {
            Ordering::Less
        } else if self.same(other) {
            Ordering::Equal
        } else {
            Ordering::Greater
        }
    }
}

/// Names part `index` of chunk `chunk_id`.
#[derive(Clone, Copy, Debug, Hash, PartialEq, Eq)]
pub struct ChunkPartID {
    pub chunk_id: ChunkID,
    pub index: u32,
}

impl SortKey for ChunkPartID {
    open spec fn key_less(self, other: Self) -> bool {
        chunk_less(self.chunk_id, other.chunk_id) || (self.chunk_id == other.chunk_id
            && self.index < other.index)
    }

    proof fn lemma_key_less_irreflexive(a: Self) {
        ChunkID::lemma_key_less_irreflexive(a.chunk_id);
    }

    proof fn lemma_key_less_transitive(a: Self, b: Self, c: Self) {
        if chunk_less(a.chunk_id, b.chunk_id) && chunk_less(b.chunk_id, c.chunk_id) {
            ChunkID::lemma_key_less_transitive(a.chunk_id, b.chunk_id, c.chunk_id);
        }
    }

    proof fn lemma_key_less_total(a: Self, b: Self) {
        ChunkID::lemma_key_less_total(a.chunk_id, b.chunk_id);
    }

    fn less(&self, other: &Self) -> (r: bool) {
        if self.chunk_id.less(&other.chunk_id) {
            true
        } else if self.chunk_id.same(&other.chunk_id) {
            self.index < other.index
        } else {
            false
        }
    }

    fn same_key(&self, other: &Self) -> (r: bool) {
        self.chunk_id.same(&other.chunk_id) && self.index == other.index
    }
}

/// Part `index` of chunk `chunk_id`, as handed to a data owner.
#[derive(Clone, Copy, Debug, Hash, PartialEq, Eq)]
pub struct ChunkPart {
    pub chunk_id: ChunkID,
    pub index: u32,
}

impl ChunkPart {
    /// The name of this part.
    #[verifier::allow_in_spec]
    pub fn id(&self) -> ChunkPartID
        returns
            (ChunkPartID { chunk_id: self.chunk_id, index: self.index }),
    {
        ChunkPartID { chunk_id: self.chunk_id, index: self.index }
    }
}

} // verus!
