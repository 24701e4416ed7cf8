use spice_sim::config::Config;
use spice_sim::core_state::CoreState;
use spice_sim::sim_core::message::HandlerError;
use spice_sim::sim_core::node::NodeID;
use spice_sim::types::block::{Block, BlockID};
use spice_sim::types::cert::{AvailCert, StateCert};
use spice_sim::types::chunk::ChunkID;
use spice_sim::types::height::Height;
use spice_sim::types::shard::ShardID;
use std::collections::HashSet;

type HashValue = spice_sim::types::hash::Hash;

fn ids(names: &[&str]) -> Vec<NodeID> {
    names.iter().map(|n| NodeID::from_str(n)).collect()
}

#[test]
fn default_config_values() {
    let c = Config::default();
    assert_eq!(c.num_shards, 2);
    assert_eq!(c.num_block_producers, 2);
    assert_eq!(c.num_chunk_producers_per_shard, 2);
    assert_eq!(c.num_replicas_per_shard, 2);
    assert_eq!(c.num_data_owners, 8);
    assert_eq!(c.num_validators, 8);
    assert_eq!(c.validator_sample_size, 4);
    assert_eq!(c.num_chunk_data_parts, 4);
    assert_eq!(c.availability_quorum, 3);
    assert_eq!(c.endorsement_quorum, 3);
    assert!(c.is_supported());
    assert_eq!(c.all_shards(), vec![ShardID(0), ShardID(1)]);
}

#[test]
fn role_identities_are_numbered_names() {
    let s = CoreState::new(Config::default());
    assert_eq!(s.block_producer_ids(), ids(&["block-producer-0", "block-producer-1"]));
    assert_eq!(s.chunk_producer_ids(ShardID(1)), ids(&["chunk-producer-1-0", "chunk-producer-1-1"]));
    assert_eq!(
        s.chunk_producer_ids_all_shards(),
        ids(&["chunk-producer-0-0", "chunk-producer-0-1", "chunk-producer-1-0", "chunk-producer-1-1"])
    );
    assert_eq!(s.replica_ids(ShardID(0)), ids(&["replica-0-0", "replica-0-1"]));
    assert_eq!(s.replica_ids_all_shards(), ids(&["replica-0-0", "replica-0-1", "replica-1-0", "replica-1-1"]));
    let owners: Vec<String> = (0..8).map(|i| format!("data-owner-{}", i)).collect();
    let owners: Vec<&str> = owners.iter().map(|s| s.as_str()).collect();
    assert_eq!(s.data_owner_ids(), ids(&owners));
    let validators: Vec<String> = (0..8).map(|i| format!("validator-{}", i)).collect();
    let validators: Vec<&str> = validators.iter().map(|s| s.as_str()).collect();
    assert_eq!(s.validator_ids(), ids(&validators));
    assert_eq!(s.config().num_validators, 8);
}

#[test]
fn all_identities_are_distinct() {
    let s = CoreState::new(Config::default());
    let mut all = Vec::new();
    all.extend(s.block_producer_ids());
    all.extend(s.chunk_producer_ids_all_shards());
    all.extend(s.replica_ids_all_shards());
    all.extend(s.data_owner_ids());
    all.extend(s.validator_ids());
    let distinct: HashSet<[u8; 32]> = all.iter().map(|id| id.0).collect();
    assert_eq!(all.len(), 2 + 4 + 4 + 8 + 8);
    assert_eq!(distinct.len(), all.len());
}

#[test]
fn producers_rotate_with_height() {
    let s = CoreState::new(Config::default());
    assert_eq!(s.block_producer_at(Height(0)), NodeID::from_str("block-producer-0"));
    assert_eq!(s.block_producer_at(Height(3)), NodeID::from_str("block-producer-1"));
    assert_eq!(s.chunk_producer_at(Height(5), ShardID(1)), NodeID::from_str("chunk-producer-1-1"));
    assert_eq!(s.chunk_producer_at(Height(4), ShardID(0)), NodeID::from_str("chunk-producer-0-0"));
    // the shard's own chunk producers take turns, however many block producers there are
    let mut c = Config::default();
    c.num_block_producers = 3;
    let s = CoreState::new(c);
    assert_eq!(s.chunk_producer_at(Height(2), ShardID(0)), NodeID::from_str("chunk-producer-0-0"));
    assert_eq!(s.chunk_producer_at(Height(3), ShardID(1)), NodeID::from_str("chunk-producer-1-1"));
    assert!(s.chunk_producer_ids(ShardID(0)).contains(&s.chunk_producer_at(Height(2), ShardID(0))));
}

#[test]
fn round_robin_assignments() {
    let s = CoreState::new(Config::default());
    // ((shard + height * shards) * parts) % owners
    assert_eq!(s.data_owner_at(Height(0), ShardID(0)), ids(&["data-owner-0", "data-owner-1", "data-owner-2", "data-owner-3"]));
    assert_eq!(s.data_owner_at(Height(0), ShardID(1)), ids(&["data-owner-4", "data-owner-5", "data-owner-6", "data-owner-7"]));
    assert_eq!(s.validators_at(Height(1), ShardID(1)), ids(&["validator-4", "validator-5", "validator-6", "validator-7"]));
    let mut c = Config::default();
    c.num_data_owners = 5;
    let s = CoreState::new(c);
    // (1 + 1 * 2) * 4 = 12, 12 % 5 = 2: owners 2, 3, 4, then wrap to 0
    assert_eq!(s.data_owner_at(Height(1), ShardID(1)), ids(&["data-owner-2", "data-owner-3", "data-owner-4", "data-owner-0"]));
    assert!(s.rotation_fits(Height(1), ShardID(1), 4));
    assert!(!s.rotation_fits(Height(u32::MAX), ShardID(1), 4));
}

#[test]
fn rotation_batches_of_one_height_are_disjoint() {
    // 2 shards * 4 parts fit in 8 data owners and 8 validators.
    let s = CoreState::new(Config::default());
    for h in 0..5u32 {
        let a = s.data_owner_at(Height(h), ShardID(0));
        let b = s.data_owner_at(Height(h), ShardID(1));
        let mut all: HashSet<NodeID> = HashSet::new();
        for id in a.iter().chain(b.iter()) {
            assert!(all.insert(*id));
        }
        assert_eq!(all.len(), 8);
        let v0 = s.validators_at(Height(h), ShardID(0));
        let v1 = s.validators_at(Height(h), ShardID(1));
        let mut vs: HashSet<NodeID> = HashSet::new();
        for id in v0.iter().chain(v1.iter()) {
            assert!(vs.insert(*id));
        }
        assert_eq!(vs.len(), 8);
    }
}

fn child_of(parent: &Block, avail: Vec<ChunkID>, state: Vec<ChunkID>) -> Block {
    Block::new(
        Height(parent.height.0 + 1),
        parent.hash(),
        avail.into_iter().map(|c| AvailCert { chunk_id: c, signers: vec![] }).collect(),
        state.into_iter().map(|c| StateCert { chunk_id: c, signers: vec![] }).collect(),
    )
}

#[test]
fn chain_starts_at_genesis() {
    let mut s = CoreState::new(Config::default());
    let g = Block::genesis();
    let not_genesis = child_of(&g, vec![], vec![]);
    assert_eq!(s.try_apply_block(not_genesis), Err(HandlerError::NonGenesisFirstBlock));
    assert!(s.canonical_block_at(Height(0)).is_none());
    assert_eq!(s.try_apply_block(Block::genesis()), Ok(()));
    assert_eq!(s.canonical_block_at(Height(0)), Some(&g));
}

#[test]
fn blocks_must_extend_the_head() {
    let mut s = CoreState::new(Config::default());
    let g = Block::genesis();
    s.apply_block(g.clone());
    let b1 = child_of(&g, vec![], vec![]);
    let stray = Block::new(Height(1), spice_sim::types::hash::Hash([5u8; 32]), vec![], vec![]);
    assert_eq!(s.check_next_block(&stray), Err(HandlerError::BlockOutOfOrder));
    assert_eq!(s.try_apply_block(stray), Err(HandlerError::BlockOutOfOrder));
    assert!(s.canonical_block_at(Height(1)).is_none());
    assert_eq!(s.check_next_block(&b1), Ok(()));
    assert_eq!(s.try_apply_block(b1.clone()), Ok(()));
    assert_eq!(s.canonical_block_at(Height(1)), Some(&b1));
    // the same block cannot be applied twice
    assert_eq!(s.try_apply_block(b1), Err(HandlerError::BlockOutOfOrder));
}

#[test]
fn certified_chunks_are_recorded() {
    let mut s = CoreState::new(Config::default());
    let g = Block::genesis();
    s.apply_block(g.clone());
    let c0 = ChunkID { block_id: BlockID { height: Height(0), hash: g.hash() }, shard_id: ShardID(0) };
    let c1 = ChunkID { block_id: BlockID { height: Height(0), hash: g.hash() }, shard_id: ShardID(1) };
    assert!(!s.chunk_available(&c0));
    let b1 = child_of(&g, vec![c0], vec![c1]);
    s.apply_block(b1);
    assert!(s.chunk_available(&c0));
    assert!(!s.chunk_available(&c1));
}
