use spice_sim::sim_core::node::NodeID;
use spice_sim::types::block::{Block, BlockID};
use spice_sim::types::cert::{AvailCert, StateCert};
use spice_sim::types::chunk::{ChunkID, ChunkPart, ChunkPartID};
use spice_sim::types::encoding::{encode, is_encodable};
use spice_sim::types::height::Height;
use spice_sim::types::shard::ShardID;
use std::cmp::Ordering;

type HashValue = spice_sim::types::hash::Hash;

type BorshChunkID = ((u32, [u8; 32]), u32);
type BorshCert = (BorshChunkID, Vec<[u8; 32]>);

fn hash_of(byte: u8) -> HashValue {
    let mut h = [0u8; 32];
    h[0] = byte;
    h[31] = byte;
    spice_sim::types::hash::Hash(h)
}

fn chunk(height: u32, hash: HashValue, shard: u32) -> ChunkID {
    ChunkID { block_id: BlockID { height: Height(height), hash }, shard_id: ShardID(shard) }
}

fn borsh_chunk(c: &ChunkID) -> BorshChunkID {
    ((c.block_id.height.0, c.block_id.hash.0), c.shard_id.0)
}

fn sample_block() -> Block {
    let c1 = chunk(0, hash_of(7), 1);
    let c2 = chunk(0, hash_of(9), 0);
    let avail = vec![AvailCert { chunk_id: c1, signers: vec![NodeID::from_str("data-owner-0"), NodeID::from_str("data-owner-3")] }];
    let state = vec![StateCert { chunk_id: c2, signers: vec![NodeID::from_str("validator-5")] }];
    Block::new(Height(1), hash_of(3), avail, state)
}

fn borsh_bytes(b: &Block) -> Vec<u8> {
    let avail: Vec<BorshCert> = b.avail_certs.iter().map(|c| (borsh_chunk(&c.chunk_id), c.signers.iter().map(|s| s.0).collect())).collect();
    let state: Vec<BorshCert> = b.state_certs.iter().map(|c| (borsh_chunk(&c.chunk_id), c.signers.iter().map(|s| s.0).collect())).collect();
    borsh::to_vec(&(b.height.0, b.parent_hash.0, avail, state)).unwrap()
}

#[test]
fn genesis_block_is_height_zero_with_zero_parent() {
    let g = Block::genesis();
    assert_eq!(g.height, Height(0));
    assert_eq!(g.parent_hash.0, [0u8; 32]);
    assert!(g.avail_certs.is_empty());
    assert!(g.state_certs.is_empty());
    assert!(g.is_genesis());
    assert!(!sample_block().is_genesis());
}

#[test]
fn genesis_encoding_matches_borsh() {
    let g = Block::genesis();
    let bytes = encode(&g);
    assert_eq!(bytes, borsh_bytes(&g));
    assert_eq!(bytes.len(), 4 + 32 + 4 + 4);
}

#[test]
fn block_with_certificates_encodes_as_borsh() {
    let b = sample_block();
    assert!(is_encodable(&b));
    assert_eq!(encode(&b), borsh_bytes(&b));
}

#[test]
fn block_hash_is_blake3_of_the_encoding() {
    for b in [Block::genesis(), sample_block()] {
        let expected = blake3::hash(&borsh_bytes(&b));
        assert_eq!(b.hash().0, *expected.as_bytes());
        assert_ne!(b.hash().0, [0u8; 32]);
    }
}

#[test]
fn block_id_pairs_height_and_hash() {
    let b = sample_block();
    let id = b.id();
    assert_eq!(id.height, Height(1));
    assert_eq!(id.hash, b.hash());
}

#[test]
fn different_blocks_hash_differently() {
    let a = sample_block();
    let mut b = sample_block();
    b.height = Height(2);
    assert_ne!(a.hash(), b.hash());
}

#[test]
fn duplicate_keeps_the_block() {
    let b = sample_block();
    let d = b.duplicate();
    assert_eq!(b, d);
    assert_eq!(b.hash(), d.hash());
}

#[test]
fn height_and_shard_arithmetic() {
    assert_eq!(Height(3).add(Height(4)), Height(7));
    assert_eq!(Height(3).mul(5), 15);
    assert_eq!(ShardID(1).add(6), 7);
    assert_eq!(u32::from(Height(9)), 9);
    assert_eq!(Height(4).checked_add(Height(5)), Some(Height(9)));
    assert_eq!(Height(u32::MAX).checked_add(Height(1)), None);
}

#[test]
fn hash_order_is_bytewise() {
    let a = hash_of(1);
    let b = hash_of(2);
    assert!(a.less_than(&b));
    assert!(!b.less_than(&a));
    assert!(!a.less_than(&a));
    assert_eq!(HashValue::zero().0, [0u8; 32]);
}

#[test]
fn chunk_order_by_height_then_hash_then_shard() {
    let base = chunk(2, hash_of(5), 1);
    assert_eq!(base.cmp(&chunk(3, hash_of(0), 0)), Ordering::Less);
    assert_eq!(base.cmp(&chunk(1, hash_of(9), 9)), Ordering::Greater);
    assert_eq!(base.cmp(&chunk(2, hash_of(6), 0)), Ordering::Less);
    assert_eq!(base.cmp(&chunk(2, hash_of(4), 7)), Ordering::Greater);
    assert_eq!(base.cmp(&chunk(2, hash_of(5), 2)), Ordering::Less);
    assert_eq!(base.cmp(&chunk(2, hash_of(5), 0)), Ordering::Greater);
    assert_eq!(base.cmp(&chunk(2, hash_of(5), 1)), Ordering::Equal);
    assert!(base.same(&chunk(2, hash_of(5), 1)));
    assert!(!base.same(&chunk(2, hash_of(5), 0)));
}

#[test]
fn chunk_part_names_its_part() {
    let c = chunk(4, hash_of(1), 1);
    let part = ChunkPart { chunk_id: c, index: 3 };
    assert_eq!(part.id(), ChunkPartID { chunk_id: c, index: 3 });
}
