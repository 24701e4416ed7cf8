//! The byte encoding of blocks that their hash is taken over: Borsh's, of
//! the block's fields (fields in order; `u32` little-endian; byte arrays
//! raw; a sequence as its `u32` length followed by its elements).
use vstd::prelude::*;
use crate::sim_core::node::NodeID;
use crate::types::block::{Block, BlockID, BlockView};
use crate::types::height::Height;
use crate::types::shard::ShardID;
use crate::types::cert::{AvailCert, CertView, StateCert};
use crate::types::chunk::ChunkID;

verus! {

/// The four little-endian bytes of `n`.
pub open spec fn u32_le(n: u32) -> Seq<u8> {
    seq![
        (n % 256) as u8,
        ((n / 256) % 256) as u8,
        ((n / 65536) % 256) as u8,
        ((n / 16777216) % 256) as u8,
    ]
}

/// A chunk: its block's height and hash, then its shard.
pub open spec fn encode_chunk_id(c: ChunkID) -> Seq<u8> {
    u32_le(c.block_id.height.0) + c.block_id.hash@ + u32_le(c.shard_id.0)
}

/// The identities one after another (without a length).
pub open spec fn encode_ids(ids: Seq<NodeID>) -> Seq<u8>
    decreases ids.len(),
{
    if ids.len() == 0 {
        Seq::empty()
    } else {
        encode_ids(ids.drop_last()) + ids.last()@
    }
}

/// A certificate: its chunk, then its signers with their number first.
pub open spec fn encode_cert(c: CertView) -> Seq<u8> {
    encode_chunk_id(c.chunk_id) + u32_le(c.signers.len() as u32) + encode_ids(c.signers)
}

/// The certificates one after another (without a length).
pub open spec fn encode_certs(cs: Seq<CertView>) -> Seq<u8>
    decreases cs.len(),
{
    if cs.len() == 0 {
        Seq::empty()
    } else {
        encode_certs(cs.drop_last()) + encode_cert(cs.last())
    }
}

/// A block: height, parent hash, then each list of certificates with its
/// number first; numbers are little-endian `u32`s.
pub open spec fn encode_block(b: BlockView) -> Seq<u8> {
    u32_le(b.height.0) + b.parent_hash@ + u32_le(b.avail_certs.len() as u32) + encode_certs(
        b.avail_certs,
    ) + u32_le(b.state_certs.len() as u32) + encode_certs(b.state_certs)
}

/// Every sequence in the certificate has a length that fits its `u32` prefix.
pub open spec fn cert_encodable(c: CertView) -> bool {
    c.signers.len() <= u32::MAX
}

/// Every sequence in the block has a length that fits its `u32` prefix.
pub open spec fn block_encodable(b: BlockView) -> bool {
    &&& b.avail_certs.len() <= u32::MAX
    &&& b.state_certs.len() <= u32::MAX
    &&& forall|i: int| 0 <= i < b.avail_certs.len() ==> cert_encodable(#[trigger] b.avail_certs[i])
    &&& forall|i: int| 0 <= i < b.state_certs.len() ==> cert_encodable(#[trigger] b.state_certs[i])
}

/// A chunk as plain values: (block height, block hash), shard.
pub type ChunkFields = ((u32, [u8; 32]), u32);

/// A certificate as plain values: its chunk, its signers' identity bytes.
pub type CertFields = (ChunkFields, Vec<[u8; 32]>);

/// A block as plain values: height, parent hash, availability
/// certificates, state certificates.
pub type BlockFields = (u32, [u8; 32], Vec<CertFields>, Vec<CertFields>);

/// The chunk that `c` holds.
pub open spec fn chunk_of(c: ChunkFields) -> ChunkID {
    ChunkID {
        block_id: BlockID { height: Height(c.0.0), hash: crate::types::hash::Hash(c.0.1) },
        shard_id: ShardID(c.1),
    }
}

/// The certificate that `c` holds.
pub open spec fn cert_of(c: CertFields) -> CertView {
    CertView { chunk_id: chunk_of(c.0), signers: c.1@.map_values(|s: [u8; 32]| NodeID(s)) }
}

/// The block that `v` holds.
pub open spec fn block_of(v: BlockFields) -> BlockView {
    BlockView {
        height: Height(v.0),
        parent_hash: crate::types::hash::Hash(v.1),
        avail_certs: v.2@.map_values(|c: CertFields| cert_of(c)),
        state_certs: v.3@.map_values(|c: CertFields| cert_of(c)),
    }
}

/// Calls `borsh::to_vec` on the block's fields. Borsh writes the fields in
/// order, a `u32` as four little-endian bytes, a byte array as its bytes,
/// and a `Vec` as its length (a `u32`) followed by its elements; it fails,
/// and then `None` is returned, exactly when a `Vec` is too long for its
/// length.
#[verifier::external_body]
fn borsh_bytes(v: &BlockFields) -> (r: Option<Vec<u8>>)
    ensures
        r is Some <==> block_encodable(block_of(*v)),
        r matches Some(bytes) ==> bytes@ == encode_block(block_of(*v)),
{
    match borsh::to_vec(v) {
        Ok(bytes) => Some(bytes),
        Err(_) => None,
    }
}

/// The fields of `c`.
fn chunk_fields(c: &ChunkID) -> (r: ChunkFields)
    ensures
        chunk_of(r) == *c,
{
    ((c.block_id.height.0, c.block_id.hash.0), c.shard_id.0)
}

/// The fields of a certificate for `chunk_id` signed by `signers`.
fn cert_fields(chunk_id: &ChunkID, signers: &Vec<NodeID>) -> (r: CertFields)
    ensures
        cert_of(r) == (CertView { chunk_id: *chunk_id, signers: signers@ }),
{
    let mut ids: Vec<[u8; 32]> = Vec::new();
    let mut i: usize = 0;
    while i < signers.len()
        invariant
            i <= signers@.len(),
            ids@.len() == i,
            forall|j: int| 0 <= j < i ==> NodeID(#[trigger] ids@[j]) == signers@[j],
        decreases signers@.len() - i,
    {
        ids.push(signers[i].0);
        i = i + 1;
    }
    let r = (chunk_fields(chunk_id), ids);
    proof {
        assert(r.1@.map_values(|s: [u8; 32]| NodeID(s)) =~= signers@);
    }
    r
}

/// The fields of the availability certificates `certs`.
fn avail_fields(certs: &Vec<AvailCert>) -> (r: Vec<CertFields>)
    ensures
        r@.map_values(|c: CertFields| cert_of(c)) == certs@.map_values(|c: AvailCert| c@),
{
    let mut r: Vec<CertFields> = Vec::new();
    let mut i: usize = 0;
    while i < certs.len()
        invariant
            i <= certs@.len(),
            r@.len() == i,
            forall|j: int| 0 <= j < i ==> cert_of(#[trigger] r@[j]) == certs@[j]@,
        decreases certs@.len() - i,
    {
        r.push(cert_fields(&certs[i].chunk_id, &certs[i].signers));
        i = i + 1;
    }
    proof {
        assert(r@.map_values(|c: CertFields| cert_of(c)) =~= certs@.map_values(|c: AvailCert| c@));
    }
    r
}

/// The fields of the state certificates `certs`.
fn state_fields(certs: &Vec<StateCert>) -> (r: Vec<CertFields>)
    ensures
        r@.map_values(|c: CertFields| cert_of(c)) == certs@.map_values(|c: StateCert| c@),
{
    let mut r: Vec<CertFields> = Vec::new();
    let mut i: usize = 0;
    while i < certs.len()
        invariant
            i <= certs@.len(),
            r@.len() == i,
            forall|j: int| 0 <= j < i ==> cert_of(#[trigger] r@[j]) == certs@[j]@,
        decreases certs@.len() - i,
    {
        r.push(cert_fields(&certs[i].chunk_id, &certs[i].signers));
        i = i + 1;
    }
    proof {
        assert(r@.map_values(|c: CertFields| cert_of(c)) =~= certs@.map_values(|c: StateCert| c@));
    }
    r
}

/// The encoding of `b`, as Borsh writes it.
pub fn encode(b: &Block) -> (r: Vec<u8>)
    requires
        block_encodable(b@),
    ensures
        r@ == encode_block(b@),
{
    let fields: BlockFields = (b.height.0, b.parent_hash.0, avail_fields(&b.avail_certs), state_fields(&b.state_certs));
    proof {
        assert(block_of(fields) == b@);
    }
    match borsh_bytes(&fields) {
        Some(bytes) => bytes,
        None => Vec::new(),
    }
}

/// Whether every sequence in `b` fits its `u32` length prefix.
pub fn is_encodable(b: &Block) -> (r: bool)
    ensures
        r == block_encodable(b@),
{
    if b.avail_certs.len() > 0xffff_ffff || b.state_certs.len() > 0xffff_ffff {
        return false;
    }
    let mut i: usize = 0;
    while i < b.avail_certs.len()
        invariant
            i <= b.avail_certs@.len(),
            forall|j: int| 0 <= j < i ==> cert_encodable(#[trigger] b@.avail_certs[j]),
        decreases b.avail_certs@.len() - i,
    {
        if b.avail_certs[i].signers.len() > 0xffff_ffff {
            assert(!cert_encodable(b@.avail_certs[i as int]));
            return false;
        }
        i = i + 1;
    }
    let mut i: usize = 0;
    while i < b.state_certs.len()
        invariant
            i <= b.state_certs@.len(),
            forall|j: int| 0 <= j < b.avail_certs@.len() ==> cert_encodable(#[trigger] b@.avail_certs[j]),
            forall|j: int| 0 <= j < i ==> cert_encodable(#[trigger] b@.state_certs[j]),
        decreases b.state_certs@.len() - i,
    {
        if b.state_certs[i].signers.len() > 0xffff_ffff {
            assert(!cert_encodable(b@.state_certs[i as int]));
            return false;
        }
        i = i + 1;
    }
    true
}

} // verus!
