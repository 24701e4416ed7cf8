//! Blocks and their identities.
use vstd::prelude::*;
use crate::types::cert::{AvailCert, CertView, StateCert};
use crate::types::encoding::{block_encodable, encode, encode_block};
use crate::types::height::Height;

verus! {

/// What a block holds.
pub struct BlockView {
    pub height: Height,
    pub parent_hash: crate::types::hash::Hash,
    pub avail_certs: Seq<CertView>,
    pub state_certs: Seq<CertView>,
}

/// A block of the chain: its height, its parent's hash, and the certificates
/// it records.
#[derive(Clone, Debug, Hash, PartialEq, Eq)]
pub struct Block {
    pub height: Height,
    pub parent_hash: crate::types::hash::Hash,
    pub avail_certs: Vec<AvailCert>,
    pub state_certs: Vec<StateCert>,
}

impl View for Block {
    type V = BlockView;

    open spec fn view(&self) -> BlockView {
        BlockView {
            height: self.height,
            parent_hash: self.parent_hash,
            avail_certs: self.avail_certs@.map_values(|c: AvailCert| c@),
            state_certs: self.state_certs@.map_values(|c: StateCert| c@),
        }
    }
}

/// The genesis block: height 0, an all-zero parent hash, no certificates.
pub open spec fn genesis_view() -> BlockView {
    BlockView {
        height: Height(0),
        parent_hash: crate::types::hash::Hash(zero_bytes32()),
        avail_certs: Seq::empty(),
        state_certs: Seq::empty(),
    }
}

/// The all-zero 32-byte array.
pub open spec fn zero_bytes32() -> [u8; 32] {
    choose|a: [u8; 32]| a@ == Seq::new(32, |i: int| 0u8)
}

/// A name for the 32-byte BLAKE3 digest of `data`, as `blake3::hash`
/// computes it.
pub uninterp spec fn blake3_digest(data: Seq<u8>) -> Seq<u8>;

/// Calls `blake3::hash`: the BLAKE3 digest of `data`. The contract names the
/// digest `blake3_digest(data@)`; BLAKE3 is a deterministic function of its
/// input.
#[verifier::external_body]
fn blake3_hash(data: &[u8]) -> (r: [u8; 32])
    ensures
        r@ == blake3_digest(data@),
{
    *blake3::hash(data).as_bytes()
}

/// The hash of a block: the BLAKE3 digest of its encoding.
pub open spec fn block_hash(b: BlockView) -> Seq<u8> {
    blake3_digest(encode_block(b))
}

/// The identity of a block: its height and hash.
pub open spec fn block_id_of(b: BlockView) -> BlockID {
    BlockID { height: b.height, hash: crate::types::hash::hash_from(block_hash(b)) }
}

/// A copy of a list of availability certificates.
fn copy_avail_certs(certs: &Vec<AvailCert>) -> (r: Vec<AvailCert>)
    ensures
        r@.map_values(|c: AvailCert| c@) == certs@.map_values(|c: AvailCert| c@),
{
    let mut r: Vec<AvailCert> = Vec::new();
    let mut i: usize = 0;
    while i < certs.len()
        invariant
            i <= certs@.len(),
            r@.len() == i,
            forall|j: int| 0 <= j < i ==> (#[trigger] r@[j])@ == certs@[j]@,
        decreases certs@.len() - i,
    {
        r.push(certs[i].duplicate());
        i = i + 1;
    }
    proof {
        assert(r@.map_values(|c: AvailCert| c@) =~= certs@.map_values(|c: AvailCert| c@));
    }
    r
}

/// A copy of a list of state certificates.
fn copy_state_certs(certs: &Vec<StateCert>) -> (r: Vec<StateCert>)
    ensures
        r@.map_values(|c: StateCert| c@) == certs@.map_values(|c: StateCert| c@),
{
    let mut r: Vec<StateCert> = Vec::new();
    let mut i: usize = 0;
    while i < certs.len()
        invariant
            i <= certs@.len(),
            r@.len() == i,
            forall|j: int| 0 <= j < i ==> (#[trigger] r@[j])@ == certs@[j]@,
        decreases certs@.len() - i,
    {
        r.push(certs[i].duplicate());
        i = i + 1;
    }
    proof {
        assert(r@.map_values(|c: StateCert| c@) =~= certs@.map_values(|c: StateCert| c@));
    }
    r
}

impl Block {
    /// The genesis block.
    pub fn genesis() -> (r: Block)
        ensures
            r@ == genesis_view(),
    {
        let r = Block {
            height: Height(0),
            parent_hash: crate::types::hash::Hash::zero(),
            avail_certs: Vec::new(),
            state_certs: Vec::new(),
        };
        proof {
            assert(r.parent_hash.0 =~= zero_bytes32());
            assert(r@.avail_certs =~= Seq::<CertView>::empty());
            assert(r@.state_certs =~= Seq::<CertView>::empty());
        }
        r
    }

    /// The block at `height` on top of `parent_hash`, recording the given
    /// certificates.
    pub fn new(
        height: Height,
        parent_hash: crate::types::hash::Hash,
        avail_certs: Vec<AvailCert>,
        state_certs: Vec<StateCert>,
    ) -> (r: Block)
        ensures
            r.height == height,
            r.parent_hash == parent_hash,
            r.avail_certs@ == avail_certs@,
            r.state_certs@ == state_certs@,
    {
        Block { height, parent_hash, avail_certs, state_certs }
    }

    /// The hash of the block. A block with a sequence longer than a `u32`
    /// can count has no encoding, hence no hash.
    pub fn hash(&self) -> (r: crate::types::hash::Hash)
        requires
            block_encodable(self@),
        ensures
            r@ == block_hash(self@),
    {
        let bytes = encode(self);
        crate::types::hash::Hash(blake3_hash(bytes.as_slice()))
    }

    /// The block's identity: its height and hash.
    pub fn id(&self) -> (r: BlockID)
        requires
            block_encodable(self@),
        ensures
            r == block_id_of(self@),
    {
        let r = BlockID { height: self.height, hash: self.hash() };
        proof {
            crate::types::hash::lemma_hash_from(r.hash);
        }
        r
    }

    /// Whether the block is the genesis block.
    pub fn is_genesis(&self) -> (r: bool)
        ensures
            r == (self@ == genesis_view()),
    {
        let zero = crate::types::hash::Hash::zero();
        proof {
            assert(zero.0 =~= zero_bytes32());
            crate::types::hash::lemma_hash_eq(self.parent_hash, crate::types::hash::Hash(zero_bytes32()));
            if self@ == genesis_view() {
                assert(self@.avail_certs.len() == 0);
                assert(self@.state_certs.len() == 0);
            }
            if self.height.0 == 0 && self.parent_hash == zero && self.avail_certs.len() == 0
                && self.state_certs.len() == 0 {
                assert(self@.avail_certs =~= Seq::<CertView>::empty());
                assert(self@.state_certs =~= Seq::<CertView>::empty());
            }
        }
        self.height.0 == 0 && self.parent_hash == zero && self.avail_certs.len() == 0
            && self.state_certs.len() == 0
    }

    /// An independent copy of the block.
    pub fn duplicate(&self) -> (r: Block)
        ensures
            r@ == self@,
    {
        Block {
            height: self.height,
            parent_hash: self.parent_hash,
            avail_certs: copy_avail_certs(&self.avail_certs),
            state_certs: copy_state_certs(&self.state_certs),
        }
    }
}

/// A block's identity.
#[derive(Clone, Copy, Debug, Hash, PartialEq, Eq, PartialOrd, Ord)]
pub struct BlockID {
    pub height: Height,
    pub hash: crate::types::hash::Hash,
}

} // verus!
