use spice_sim::block_producer::BlockProducer;
use spice_sim::config::Config;
use spice_sim::data_owner::DataOwner;
use spice_sim::message::{process_message, Message, MessageHandler, MessagePayload};
use spice_sim::node::{Node, NodeID};
use spice_sim::pingpong::PingPongNode;
use spice_sim::sim_core::message::HandlerError;
use spice_sim::sim_core::queue::MessageQueue;
use spice_sim::sim_core::runner::next_message;
use spice_sim::types::block::{Block, BlockID};
use spice_sim::types::chunk::{ChunkID, ChunkPart};
use spice_sim::types::height::Height;
use spice_sim::types::shard::ShardID;

fn id(name: &str) -> NodeID {
    NodeID::from_str(name)
}

fn msg(ts: u64, source: &str, dest: &str, payload: MessagePayload) -> Message {
    Message::new(ts, id(source), id(dest), payload)
}

#[test]
fn init_sends_the_first_ping_to_the_partner() {
    let mut zero = PingPongNode::new(id("0"));
    assert_eq!(zero.handle_message(msg(0, "-1", "0", MessagePayload::Init)), Ok(()));
    let out = zero.node().outbox_messages();
    assert_eq!(out.len(), 1);
    assert_eq!(out[0], msg(100, "0", "1", MessagePayload::Ping(0)));
    let mut one = PingPongNode::new(id("1"));
    assert_eq!(one.handle_message(msg(0, "-1", "1", MessagePayload::Init)), Ok(()));
    assert_eq!(one.node().outbox_messages()[0].dest, id("0"));
}

#[test]
fn a_ping_is_answered_after_thinking() {
    let mut one = PingPongNode::new(id("1"));
    let mut think_times = Vec::new();
    for k in 0..20u32 {
        let before = one.node().time();
        assert_eq!(one.handle_message(msg(before, "0", "1", MessagePayload::Ping(k))), Ok(()));
        let after = one.node().time();
        assert!(after >= before + 10 && after < before + 1000);
        think_times.push(after - before);
        let out = one.node().outbox_messages();
        let pong = &out[out.len() - 1];
        assert_eq!(*pong, msg(after + 100, "1", "0", MessagePayload::Pong(k)));
    }
    // the think time is drawn at random, not fixed at its lower bound
    assert!(think_times.iter().any(|&t| t != 10));
}

#[test]
fn a_ping_is_answered_after_the_given_think_time() {
    let mut one = PingPongNode::new(id("1"));
    assert_eq!(one.answer_ping(id("0"), 7, 25), Ok(()));
    assert_eq!(one.node().time(), 25);
    assert_eq!(one.node().outbox_messages().len(), 1);
    assert_eq!(one.node().outbox_messages()[0], msg(125, "1", "0", MessagePayload::Pong(7)));
    // thinking past the clock limit is refused and changes nothing
    assert_eq!(one.answer_ping(id("0"), 8, u64::MAX), Err(HandlerError::ArithmeticOverflow));
    assert_eq!(one.node().time(), 25);
    assert_eq!(one.node().outbox_messages().len(), 1);
}

#[test]
fn pinging_stops_after_ten_pings() {
    let mut zero = PingPongNode::new(id("0"));
    assert_eq!(zero.handle_message(msg(0, "-1", "0", MessagePayload::Init)), Ok(()));
    for k in 0..15u32 {
        assert_eq!(zero.handle_message(msg(200, "1", "0", MessagePayload::Pong(k))), Ok(()));
    }
    let out = zero.node().outbox_messages();
    assert_eq!(out.len(), 10);
    for (k, m) in out.iter().enumerate() {
        assert_eq!(m.payload, MessagePayload::Ping(k as u32));
    }
}

#[test]
fn ping_pong_refuses_other_payloads() {
    let mut zero = PingPongNode::new(id("0"));
    let r = zero.handle_message(msg(0, "1", "0", MessagePayload::Block(Block::genesis())));
    assert_eq!(r, Err(HandlerError::UnexpectedPayload));
    assert!(zero.node().outbox_messages().is_empty());
}

#[test]
fn process_message_delivers_and_flushes() {
    let mut zero = PingPongNode::new(id("0"));
    let mut one = PingPongNode::new(id("1"));
    let mut q: MessageQueue<MessagePayload> = MessageQueue::new();
    assert_eq!(process_message(&mut zero, msg(0, "-1", "0", MessagePayload::Init), &mut q), Ok(()));
    assert_eq!(q.len(), 1);
    assert!(zero.node().outbox_messages().is_empty());
    let ping = next_message(&mut q, 10_000).unwrap();
    assert_eq!(ping.timestamp, 100);
    assert_eq!(process_message(&mut one, ping, &mut q), Ok(()));
    assert!(one.node().time() >= 110);
    let pong = next_message(&mut q, 10_000).unwrap();
    assert_eq!(pong.payload, MessagePayload::Pong(0));
    assert!(pong.timestamp >= 210);
}

#[test]
fn a_full_game_ends_after_ten_rounds() {
    let mut players = [PingPongNode::new(id("0")), PingPongNode::new(id("1"))];
    let mut q: MessageQueue<MessagePayload> = MessageQueue::new();
    q.inject(msg(0, "-1", "0", MessagePayload::Init));
    q.inject(msg(0, "-1", "1", MessagePayload::Init));
    let mut delivered = 0;
    while let Some(m) = next_message(&mut q, u64::MAX) {
        let who = if m.dest == id("0") { 0 } else { 1 };
        assert_eq!(process_message(&mut players[who], m, &mut q), Ok(()));
        delivered += 1;
    }
    // 2 starts, then each player's 10 pings and their 10 pongs
    assert_eq!(delivered, 2 + 2 * (10 + 10));
}

#[test]
fn standalone_block_producer_accepts_blocks_quietly() {
    let mut bp = BlockProducer::new(id("block-producer-0"));
    bp.init();
    bp.process_block(Block::genesis());
    assert_eq!(bp.handle_message(msg(0, "x", "block-producer-0", MessagePayload::Block(Block::genesis()))), Ok(()));
    assert_eq!(bp.handle_message(msg(0, "x", "block-producer-0", MessagePayload::Init)), Ok(()));
    assert_eq!(bp.handle_message(msg(0, "x", "block-producer-0", MessagePayload::Ping(1))), Err(HandlerError::UnexpectedPayload));
    assert!(bp.node().outbox_messages().is_empty());
    assert_eq!(bp.node().id(), id("block-producer-0"));
}

#[test]
fn standalone_data_owner_attests_stored_parts() {
    let mut d = DataOwner::new(id("data-owner-1"), Config::default());
    d.init();
    let chunk = ChunkID { block_id: BlockID { height: Height(0), hash: Block::genesis().hash() }, shard_id: ShardID(0) };
    let part = ChunkPart { chunk_id: chunk, index: 1 };
    assert_eq!(d.handle_message(msg(0, "chunk-producer-0-0", "data-owner-1", MessagePayload::ChunkPart(part))), Ok(()));
    let out = d.node().outbox_messages();
    assert_eq!(out.len(), 2);
    assert_eq!(out[0].dest, id("block-producer-0"));
    assert_eq!(out[1].dest, id("block-producer-1"));
    assert!(out.iter().all(|m| m.payload == MessagePayload::StatementChunkPartStored(part.id())));
    assert_eq!(d.handle_message(msg(0, "x", "data-owner-1", MessagePayload::Pong(0))), Err(HandlerError::UnexpectedPayload));
}
