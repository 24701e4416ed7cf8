use spice_sim::config::Config;
use spice_sim::core_state::CoreState;
use spice_sim::sim_core::message::{HandlerError, Message, MessageHandler};
use spice_sim::sim_core::node::{Node, NodeID};
use spice_sim::sim_core::simulator::Simulator;
use spice_sim::spice::availability_tracker::AvailabilityTracker;
use spice_sim::spice::block_producer::BlockProducer;
use spice_sim::spice::chunk_producer::ChunkProducer;
use spice_sim::spice::data_owner::DataOwner;
use spice_sim::spice::endorsement_tracker::EndorsementTracker;
use spice_sim::spice::payload::MessagePayload;
use spice_sim::spice::replica::Replica;
use spice_sim::spice::validator::Validator;
use spice_sim::types::block::{Block, BlockID};
use spice_sim::types::cert::AvailCert;
use spice_sim::types::chunk::{ChunkID, ChunkPart, ChunkPartID};
use spice_sim::types::height::Height;
use spice_sim::types::shard::ShardID;
use spice_sim::types::state_witness::StateWitness;

fn id(name: &str) -> NodeID {
    NodeID::from_str(name)
}

fn genesis_chunk(shard: u32) -> ChunkID {
    ChunkID { block_id: BlockID { height: Height(0), hash: Block::genesis().hash() }, shard_id: ShardID(shard) }
}

fn part(shard: u32, index: u32) -> ChunkPartID {
    ChunkPartID { chunk_id: genesis_chunk(shard), index }
}

fn msg(source: &str, dest: &str, payload: MessagePayload) -> Message<MessagePayload> {
    Message::new(0, id(source), id(dest), payload)
}

#[test]
fn availability_tracker_counts_each_part_once() {
    let mut t = AvailabilityTracker::new();
    assert!(t.add(id("data-owner-2"), &part(0, 2)));
    assert!(t.add(id("data-owner-0"), &part(0, 0)));
    assert!(!t.add(id("data-owner-5"), &part(0, 2)));
    assert!(t.add(id("data-owner-1"), &part(1, 2)));
    assert_eq!(t.count(&genesis_chunk(0)), 2);
    assert_eq!(t.count_usize(&genesis_chunk(1)), 1);
    let cert = t.certificate(genesis_chunk(0));
    assert_eq!(cert.chunk_id, genesis_chunk(0));
    // by part index, the first confirmation of each part kept
    assert_eq!(cert.signers, vec![id("data-owner-0"), id("data-owner-2")]);
    let d = AvailabilityTracker::default();
    assert_eq!(d.count(&genesis_chunk(0)), 0);
}

#[test]
fn endorsement_tracker_counts_each_validator_once() {
    let mut t = EndorsementTracker::new();
    assert!(t.add(id("validator-3"), &genesis_chunk(0)));
    assert!(t.add(id("validator-1"), &genesis_chunk(0)));
    assert!(!t.add(id("validator-3"), &genesis_chunk(0)));
    assert_eq!(t.count(&genesis_chunk(0)), 2);
    assert_eq!(t.count(&genesis_chunk(1)), 0);
    let cert = t.certificate(genesis_chunk(0));
    // in the order the endorsements came
    assert_eq!(cert.signers, vec![id("validator-3"), id("validator-1")]);
    assert_eq!(EndorsementTracker::default().count_usize(&genesis_chunk(0)), 0);
}

#[test]
fn first_block_producer_broadcasts_genesis() {
    let config = Config::default();
    let mut bp = BlockProducer::new(config);
    let mut node: Node<MessagePayload> = Node::new(id("block-producer-0"));
    bp.init(&mut node);
    let out = node.outbox_messages();
    assert_eq!(out.len(), 2 + 4 + 4 + 8);
    assert_eq!(out[0].dest, id("block-producer-0"));
    assert_eq!(out[2].dest, id("chunk-producer-0-0"));
    assert_eq!(out[6].dest, id("replica-0-0"));
    assert_eq!(out[17].dest, id("validator-7"));
    assert!(out.iter().all(|m| m.payload == MessagePayload::Block(Block::genesis()) && m.timestamp == 100));
    let mut other = BlockProducer::new(config);
    let mut node1: Node<MessagePayload> = Node::new(id("block-producer-1"));
    other.init(&mut node1);
    assert!(node1.outbox_messages().is_empty());
}

#[test]
fn next_producer_builds_on_the_block() {
    let config = Config::default();
    let mut bp = BlockProducer::new(config);
    let mut node: Node<MessagePayload> = Node::new(id("block-producer-1"));
    let g = Block::genesis();
    assert_eq!(bp.handle_message(&mut node, msg("block-producer-0", "block-producer-1", MessagePayload::Block(g.clone()))), Ok(()));
    let out = node.outbox_messages();
    assert_eq!(out.len(), 18);
    match &out[0].payload {
        MessagePayload::Block(b) => {
            assert_eq!(b.height, Height(1));
            assert_eq!(b.parent_hash, g.hash());
            assert!(b.avail_certs.is_empty());
            assert!(b.state_certs.is_empty());
        }
        other => panic!("unexpected payload {:?}", other),
    }
    // producer 0 builds nothing on genesis
    let mut bp0 = BlockProducer::new(config);
    let mut node0: Node<MessagePayload> = Node::new(id("block-producer-0"));
    assert_eq!(bp0.process_block(&mut node0, g), Ok(()));
    assert!(node0.outbox_messages().is_empty());
}

#[test]
fn block_producer_rejects_bad_blocks_and_payloads() {
    let config = Config::default();
    let mut bp = BlockProducer::new(config);
    let mut node: Node<MessagePayload> = Node::new(id("block-producer-1"));
    let stray = Block::new(Height(1), Block::genesis().hash(), vec![], vec![]);
    assert_eq!(bp.process_block(&mut node, stray), Err(HandlerError::NonGenesisFirstBlock));
    let witness = MessagePayload::StateWitness(StateWitness { chunk_id: genesis_chunk(0) });
    assert_eq!(bp.handle_message(&mut node, msg("replica-0-0", "block-producer-1", witness)), Err(HandlerError::UnexpectedPayload));
    assert!(node.outbox_messages().is_empty());
}

#[test]
fn availability_quorum_yields_a_certificate_in_the_next_block() {
    let config = Config::default();
    let mut bp = BlockProducer::new(config);
    let mut node: Node<MessagePayload> = Node::new(id("block-producer-1"));
    for (owner, index) in [("data-owner-0", 0), ("data-owner-1", 1), ("data-owner-1", 1), ("data-owner-2", 2)] {
        assert_eq!(bp.chunk_part_stored(id(owner), part(0, index)), Ok(()));
    }
    for v in ["validator-0", "validator-1", "validator-2"] {
        assert_eq!(bp.state_endorsed(id(v), genesis_chunk(1)), Ok(()));
    }
    assert_eq!(bp.process_block(&mut node, Block::genesis()), Ok(()));
    match &node.outbox_messages()[0].payload {
        MessagePayload::Block(b) => {
            assert_eq!(b.avail_certs, vec![AvailCert { chunk_id: genesis_chunk(0), signers: vec![id("data-owner-0"), id("data-owner-1"), id("data-owner-2")] }]);
            assert_eq!(b.state_certs.len(), 1);
            assert_eq!(b.state_certs[0].chunk_id, genesis_chunk(1));
            assert_eq!(b.state_certs[0].signers, vec![id("validator-0"), id("validator-1"), id("validator-2")]);
        }
        other => panic!("unexpected payload {:?}", other),
    }
}

#[test]
fn chunk_producer_disperses_parts_to_assigned_owners() {
    let config = Config::default();
    let mut cp = ChunkProducer::new(ShardID(1), config);
    let mut node: Node<MessagePayload> = Node::new(id("chunk-producer-1-0"));
    assert_eq!(cp.process_block(&mut node, Block::genesis()), Ok(()));
    let out = node.outbox_messages();
    assert_eq!(out.len(), 4);
    for (k, m) in out.iter().enumerate() {
        assert_eq!(m.dest, id(&format!("data-owner-{}", 4 + k)));
        assert_eq!(m.payload, MessagePayload::ChunkPart(ChunkPart { chunk_id: genesis_chunk(1), index: k as u32 }));
    }
    let mut idle = ChunkProducer::new(ShardID(1), config);
    let mut idle_node: Node<MessagePayload> = Node::new(id("chunk-producer-1-1"));
    assert_eq!(idle.process_block(&mut idle_node, Block::genesis()), Ok(()));
    assert!(idle_node.outbox_messages().is_empty());
}

#[test]
fn chunk_producer_without_data_owners_refuses_its_own_chunk() {
    let mut config = Config::default();
    config.num_data_owners = 0;
    let mut cp = ChunkProducer::new(ShardID(1), config);
    let mut node: Node<MessagePayload> = Node::new(id("chunk-producer-1-0"));
    assert_eq!(cp.process_block(&mut node, Block::genesis()), Err(HandlerError::EmptyPool));
    assert!(node.outbox_messages().is_empty());
    // a producer that is not assigned the chunk needs no data owners
    let mut idle = ChunkProducer::new(ShardID(1), config);
    let mut idle_node: Node<MessagePayload> = Node::new(id("chunk-producer-1-1"));
    assert_eq!(idle.process_block(&mut idle_node, Block::genesis()), Ok(()));
}

#[test]
fn chunk_producer_of_a_shard_without_producers_refuses_blocks() {
    let mut config = Config::default();
    config.num_chunk_producers_per_shard = 0;
    let mut cp = ChunkProducer::new(ShardID(0), config);
    let mut node: Node<MessagePayload> = Node::new(id("chunk-producer-0-0"));
    assert_eq!(cp.process_block(&mut node, Block::genesis()), Err(HandlerError::EmptyPool));
    assert!(node.outbox_messages().is_empty());
}

#[test]
fn data_owner_attests_to_every_block_producer() {
    let mut d = DataOwner::new(Config::default());
    let mut node: Node<MessagePayload> = Node::new(id("data-owner-4"));
    let p = ChunkPart { chunk_id: genesis_chunk(1), index: 0 };
    assert_eq!(d.handle_message(&mut node, msg("chunk-producer-1-0", "data-owner-4", MessagePayload::ChunkPart(p))), Ok(()));
    let out = node.outbox_messages();
    assert_eq!(out.len(), 2);
    assert_eq!(out[0].dest, id("block-producer-0"));
    assert_eq!(out[1].dest, id("block-producer-1"));
    assert!(out.iter().all(|m| m.payload == MessagePayload::StatementChunkPartStored(p.id())));
    assert_eq!(d.handle_message(&mut node, msg("x", "data-owner-4", MessagePayload::Block(Block::genesis()))), Err(HandlerError::UnexpectedPayload));
}

#[test]
fn validator_endorses_witnessed_chunks() {
    let mut v = Validator::new(Config::default());
    let mut node: Node<MessagePayload> = Node::new(id("validator-0"));
    let w = StateWitness { chunk_id: genesis_chunk(0) };
    assert_eq!(v.handle_message(&mut node, msg("replica-0-0", "validator-0", MessagePayload::StateWitness(w))), Ok(()));
    let out = node.outbox_messages();
    assert_eq!(out.len(), 2);
    assert!(out.iter().all(|m| m.payload == MessagePayload::StatementStateEndorsement(genesis_chunk(0))));
    assert_eq!(v.process_block(Block::genesis()), Ok(()));
    assert_eq!(v.process_block(Block::genesis()), Err(HandlerError::BlockOutOfOrder));
}

#[test]
fn replica_executes_available_chunks_in_order() {
    let config = Config::default();
    let mut r = Replica::new(ShardID(0), config);
    let mut node: Node<MessagePayload> = Node::new(id("replica-0-0"));
    let g = Block::genesis();
    assert_eq!(r.process_block(&mut node, g.clone()), Ok(()));
    assert!(node.outbox_messages().is_empty());
    let b1 = Block::new(Height(1), g.hash(), vec![AvailCert { chunk_id: genesis_chunk(0), signers: vec![] }], vec![]);
    assert_eq!(r.process_block(&mut node, b1), Ok(()));
    let out = node.outbox_messages();
    // the genesis chunk of shard 0 is executed; its witness goes to the
    // validators sampled for height 0, shard 0
    assert_eq!(out.len(), 4);
    for (k, m) in out.iter().enumerate() {
        assert_eq!(m.dest, id(&format!("validator-{}", k)));
        assert_eq!(m.payload, MessagePayload::StateWitness(StateWitness { chunk_id: genesis_chunk(0) }));
    }
}

#[test]
fn replica_without_validators_stops_at_the_first_executable_chunk() {
    let mut config = Config::default();
    config.num_validators = 0;
    let mut r = Replica::new(ShardID(0), config);
    let mut node: Node<MessagePayload> = Node::new(id("replica-0-0"));
    let g = Block::genesis();
    assert_eq!(r.process_block(&mut node, g.clone()), Ok(()));
    let b1 = Block::new(Height(1), g.hash(), vec![AvailCert { chunk_id: genesis_chunk(0), signers: vec![] }], vec![]);
    assert_eq!(r.process_block(&mut node, b1), Err(HandlerError::EmptyPool));
    assert!(node.outbox_messages().is_empty());
}

#[test]
fn default_network_runs_to_the_deadline() {
    let config = Config::default();
    let core_state = CoreState::new(config);
    let mut sim: Simulator<MessagePayload> = Simulator::new();
    for node_id in core_state.block_producer_ids() {
        sim.register(node_id, Box::new(BlockProducer::new(config)));
    }
    for i in 0..config.num_shards {
        for node_id in core_state.chunk_producer_ids(ShardID(i)) {
            sim.register(node_id, Box::new(ChunkProducer::new(ShardID(i), config)));
        }
    }
    for node_id in core_state.data_owner_ids() {
        sim.register(node_id, Box::new(DataOwner::new(config)));
    }
    for i in 0..config.num_shards {
        for node_id in core_state.replica_ids(ShardID(i)) {
            sim.register(node_id, Box::new(Replica::new(ShardID(i), config)));
        }
    }
    for node_id in core_state.validator_ids() {
        sim.register(node_id, Box::new(Validator::new(config)));
    }
    assert_eq!(sim.node_count(), 26);
    assert_eq!(sim.run(1000), Ok(()));
    // every block producer heard at least the genesis block
    assert!(sim.node(0).time() >= 100);
    assert!(sim.node(1).time() >= 100);
}

#[test]
fn producer_cannot_build_past_the_last_height() {
    let config = Config::default();
    let mut bp = BlockProducer::new(config);
    let mut node: Node<MessagePayload> = Node::new(id("block-producer-0"));
    let g = Block::genesis();
    assert_eq!(bp.process_block(&mut node, g.clone()), Ok(()));
    let last = Block::new(Height(u32::MAX), g.hash(), vec![], vec![]);
    assert_eq!(bp.process_block(&mut node, last), Err(HandlerError::ArithmeticOverflow));
    assert!(node.outbox_messages().is_empty());
}

#[test]
fn chunk_producer_reports_unassignable_heights() {
    let config = Config::default();
    let mut cp = ChunkProducer::new(ShardID(1), config);
    let mut node: Node<MessagePayload> = Node::new(id("chunk-producer-1-1"));
    let g = Block::genesis();
    assert_eq!(cp.process_block(&mut node, g.clone()), Ok(()));
    let last = Block::new(Height(u32::MAX), g.hash(), vec![], vec![]);
    assert_eq!(cp.process_block(&mut node, last), Err(HandlerError::ArithmeticOverflow));
    assert!(node.outbox_messages().is_empty());
    let stray = Block::new(Height(1), g.hash(), vec![], vec![]);
    let mut fresh = ChunkProducer::new(ShardID(0), config);
    assert_eq!(fresh.process_block(&mut node, stray), Err(HandlerError::NonGenesisFirstBlock));
}

#[test]
fn lone_producer_meets_unknown_destinations_when_its_block_is_due() {
    let mut sim: Simulator<MessagePayload> = Simulator::new();
    sim.register(id("block-producer-0"), Box::new(BlockProducer::new(Config::default())));
    match sim.run(100) {
        Err(spice_sim::sim_core::runner::SimError::UnknownDestination(d)) => assert_ne!(d, id("block-producer-0")),
        other => panic!("unexpected result {:?}", other),
    }
}

#[test]
fn lone_producer_runs_quietly_before_its_block_is_due() {
    let mut sim: Simulator<MessagePayload> = Simulator::new();
    sim.register(id("block-producer-0"), Box::new(BlockProducer::new(Config::default())));
    assert_eq!(sim.run(99), Ok(()));
    assert_eq!(sim.node(0).time(), 0);
}

#[test]
fn empty_simulation_succeeds() {
    let mut sim: Simulator<MessagePayload> = Simulator::new();
    assert_eq!(sim.run(1000), Ok(()));
}
