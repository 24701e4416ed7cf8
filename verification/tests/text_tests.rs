use spice_sim::message::{render_message as render_standalone_message, Message, MessagePayload as StandalonePayload};
use spice_sim::sim_core::node::NodeID;
use spice_sim::spice::payload::{render_message, MessagePayload};
use spice_sim::text::{log_line, receive_line, send_line};
use spice_sim::types::block::{Block, BlockID};
use spice_sim::types::cert::{AvailCert, StateCert};
use spice_sim::types::chunk::{ChunkID, ChunkPart, ChunkPartID};
use spice_sim::types::height::Height;
use spice_sim::types::shard::ShardID;
use spice_sim::types::state_witness::StateWitness;

type HashValue = spice_sim::types::hash::Hash;

fn text(bytes: Vec<u8>) -> String {
    String::from_utf8(bytes).unwrap()
}

fn id(name: &str) -> NodeID {
    NodeID::from_str(name)
}

fn sample_hash() -> HashValue {
    let mut h = [0u8; 32];
    h[0] = 0xab;
    h[1] = 0x05;
    h[2] = 0xf0;
    h[3] = 0x9c;
    h[4] = 0xff;
    spice_sim::types::hash::Hash(h)
}

fn sample_chunk() -> ChunkID {
    ChunkID { block_id: BlockID { height: Height(12), hash: sample_hash() }, shard_id: ShardID(1) }
}

#[test]
fn hashes_show_their_first_four_bytes() {
    assert_eq!(text(sample_hash().render()), "ab05f09c");
    assert_eq!(text(HashValue::zero().render()), "00000000");
}

#[test]
fn identities_show_their_names() {
    assert_eq!(text(id("replica-1-0").render()), "replica-1-0");
    assert_eq!(text(id("").render()), "");
    assert_eq!(text(ShardID(17).render()), "17");
}

#[test]
fn chunks_and_parts() {
    assert_eq!(text(sample_chunk().render()), "Ch(12, ab05f09c, 1)");
    let pid = ChunkPartID { chunk_id: sample_chunk(), index: 3 };
    assert_eq!(text(pid.render()), "ChPartID(Ch(12, ab05f09c, 1), 3)");
    let part = ChunkPart { chunk_id: sample_chunk(), index: 0 };
    assert_eq!(text(part.render()), "ChPart(Ch(12, ab05f09c, 1), 0)");
    assert_eq!(text(StateWitness { chunk_id: sample_chunk() }.render()), "StWit(Ch(12, ab05f09c, 1))");
}

#[test]
fn certificates_show_their_signer_count() {
    let a = AvailCert { chunk_id: sample_chunk(), signers: vec![id("data-owner-0"), id("data-owner-1")] };
    assert_eq!(text(a.render()), "AvCert(Ch(12, ab05f09c, 1), sigs:2)");
    let s = StateCert { chunk_id: sample_chunk(), signers: vec![] };
    assert_eq!(text(s.render()), "StCert(Ch(12, ab05f09c, 1), sigs:0)");
}

#[test]
fn blocks_show_height_parent_and_certificates() {
    assert_eq!(text(Block::genesis().render()), "Block(000, 00000000, [], [])");
    let a1 = AvailCert { chunk_id: sample_chunk(), signers: vec![id("d")] };
    let a2 = AvailCert { chunk_id: sample_chunk(), signers: vec![] };
    let s1 = StateCert { chunk_id: sample_chunk(), signers: vec![id("v"), id("w"), id("x")] };
    let b = Block::new(Height(7), sample_hash(), vec![a1, a2], vec![s1]);
    assert_eq!(
        text(b.render()),
        "Block(007, ab05f09c, [AvCert(Ch(12, ab05f09c, 1), sigs:1), AvCert(Ch(12, ab05f09c, 1), sigs:0)], [StCert(Ch(12, ab05f09c, 1), sigs:3)])"
    );
    let tall = Block::new(Height(1234), HashValue::zero(), vec![], vec![]);
    assert_eq!(text(tall.render()), "Block(1234, 00000000, [], [])");
}

#[test]
fn payloads_and_messages() {
    let pid = ChunkPartID { chunk_id: sample_chunk(), index: 2 };
    assert_eq!(text(MessagePayload::StatementChunkPartStored(pid).render()), "ChPartStored(ChPartID(Ch(12, ab05f09c, 1), 2))");
    assert_eq!(text(MessagePayload::StatementStateEndorsement(sample_chunk()).render()), "EndorseState(Ch(12, ab05f09c, 1))");
    let m = spice_sim::sim_core::message::Message::new(5, id("a"), id("b"), MessagePayload::Block(Block::genesis()));
    assert_eq!(text(render_message(&m)), "Msg(Block(000, 00000000, [], []))");
}

#[test]
fn standalone_payloads_and_messages() {
    assert_eq!(text(StandalonePayload::Init.render()), "Init");
    assert_eq!(text(StandalonePayload::Ping(42).render()), "Ping(42)");
    assert_eq!(text(StandalonePayload::Pong(0).render()), "Pong(0)");
    let m: Message = Message::new(1, id("0"), id("1"), StandalonePayload::Ping(3));
    let mut expected = b"Msg(0".to_vec();
    expected.extend(std::iter::repeat(0u8).take(31));
    expected.extend(b": Ping(3))");
    assert_eq!(render_standalone_message(&m), expected);
}

#[test]
fn log_lines() {
    let body = b"Msg(Init)".to_vec();
    assert_eq!(text(receive_line(42, &id("replica-0-1"), &body)), "RCV    42 replica-0-1: Msg(Init)");
    assert_eq!(text(send_line(123456, &id("a"), &id("b"), &body)), "SND 123456 a -> b: Msg(Init)");
    assert_eq!(text(log_line(7, &id("node"), &b"hello".to_vec())), "    7 node: hello");
}
