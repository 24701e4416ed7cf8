use spice_sim::sim_core::message::{dispatch_order, HandlerError, Message, MessageHandler};
use spice_sim::sim_core::node::{Node, NodeID, CLOCK_LIMIT, MESSAGE_DELAY};
use spice_sim::sim_core::queue::MessageQueue;
use spice_sim::sim_core::runner::{next_message, SimError};
use spice_sim::sim_core::simulator::Simulator;
use std::cmp::Ordering;
use std::hash::{Hash, Hasher};

fn id(name: &str) -> NodeID {
    NodeID::from_str(name)
}

fn fx(m: &Message<u32>) -> u64 {
    let mut h = fxhash::FxHasher::default();
    m.hash(&mut h);
    h.finish()
}

#[test]
fn node_id_is_the_padded_name() {
    let a = id("node-7");
    assert_eq!(&a.0[..6], b"node-7");
    assert!(a.0[6..].iter().all(|&b| b == 0));
    assert_eq!(a.name_len(), 6);
    assert_eq!(a, NodeID::from_name(b"node-7"));
    assert_ne!(a, id("node-8"));
    let full = "abcdefghijklmnopqrstuvwxyz012345";
    assert_eq!(id(full).name_len(), 32);
    assert_eq!(id("").name_len(), 0);
}

#[test]
fn sending_stamps_arrival_after_the_delay() {
    let mut n: Node<u32> = Node::new(id("a"));
    assert_eq!(n.time(), 0);
    assert_eq!(n.id(), id("a"));
    n.advance_time(25);
    n.send_message(9, id("b"));
    let out = n.outbox_messages();
    assert_eq!(out.len(), 1);
    assert_eq!(out[0], Message::new(25 + MESSAGE_DELAY, id("a"), id("b"), 9));
    assert_eq!(MESSAGE_DELAY, 100);
}

#[test]
fn receiving_moves_the_clock_forward_only() {
    let mut n: Node<u32> = Node::new(id("a"));
    n.pre_process_message(&Message::new(40, id("b"), id("a"), 1));
    assert_eq!(n.time(), 40);
    n.pre_process_message(&Message::new(10, id("b"), id("a"), 1));
    assert_eq!(n.time(), 40);
}

#[test]
fn flushing_moves_the_outbox_into_the_queue() {
    let mut n: Node<u32> = Node::new(id("a"));
    let mut q: MessageQueue<u32> = MessageQueue::new();
    n.send_message(1, id("b"));
    n.send_message(2, id("c"));
    n.flush_messages(&mut q);
    assert_eq!(q.len(), 2);
    assert!(n.outbox_messages().is_empty());
    let d: MessageQueue<u32> = MessageQueue::default();
    assert_eq!(d.len(), 0);
}

#[test]
fn dispatch_order_prefers_earlier_then_larger_hash() {
    assert_eq!(dispatch_order(1, 0, 2, 0), Ordering::Greater);
    assert_eq!(dispatch_order(3, 0, 2, 9), Ordering::Less);
    assert_eq!(dispatch_order(2, 5, 2, 9), Ordering::Less);
    assert_eq!(dispatch_order(2, 9, 2, 5), Ordering::Greater);
    assert_eq!(dispatch_order(2, 5, 2, 5), Ordering::Equal);
    let early = Message::new(1, id("a"), id("b"), 0u32);
    let late = Message::new(2, id("a"), id("b"), 0u32);
    assert_eq!(early.cmp(&late), Ordering::Greater);
    assert_eq!(late.cmp(&early), Ordering::Less);
}

#[test]
fn equal_times_are_ordered_by_message_hash() {
    let a = Message::new(5, id("a"), id("b"), 1u32);
    let b = Message::new(5, id("a"), id("b"), 2u32);
    let (ha, hb) = (fx(&a), fx(&b));
    assert_ne!(ha, hb);
    let expected = if ha > hb { Ordering::Greater } else { Ordering::Less };
    assert_eq!(a.cmp(&b), expected);
}

#[test]
fn queue_hands_out_earliest_first() {
    let mut q: MessageQueue<u32> = MessageQueue::new();
    q.inject(Message::new(30, id("a"), id("b"), 3));
    q.inject(Message::new(10, id("a"), id("b"), 1));
    q.inject(Message::new(20, id("a"), id("b"), 2));
    q.inject(Message::new(10, id("a"), id("b"), 4));
    let m1 = next_message(&mut q, 100).unwrap();
    let m2 = next_message(&mut q, 100).unwrap();
    assert_eq!(m1.timestamp, 10);
    assert_eq!(m2.timestamp, 10);
    // the larger hash goes first among equal times
    assert!(fx(&m1) > fx(&m2));
    assert_eq!(next_message(&mut q, 100).unwrap().payload, 2);
    assert_eq!(next_message(&mut q, 100).unwrap().payload, 3);
    assert!(next_message(&mut q, 100).is_none());
}

#[test]
fn messages_past_the_deadline_are_not_dispatched() {
    let mut q: MessageQueue<u32> = MessageQueue::new();
    q.inject(Message::new(30, id("a"), id("b"), 3));
    q.inject(Message::new(10, id("a"), id("b"), 1));
    assert_eq!(next_message(&mut q, 20).unwrap().payload, 1);
    assert!(next_message(&mut q, 20).is_none());
    assert_eq!(q.len(), 0);
}

/// Bounces a counter between two nodes until it reaches zero.
struct Bouncer {
    peer: NodeID,
    start: u32,
    seen: Vec<(u64, u32)>,
}

impl MessageHandler<u32> for Bouncer {
    fn init_spec(&self, _before: Node<u32>, _after: Node<u32>) -> bool {
        true
    }

    fn handle_spec(&self, _before: Node<u32>, _msg: Message<u32>, _after: Node<u32>, _r: Result<(), HandlerError>) -> bool {
        true
    }

    fn handle_message(&mut self, node: &mut Node<u32>, msg: Message<u32>) -> Result<(), HandlerError> {
        self.seen.push((node.time(), msg.payload));
        if msg.payload > 0 {
            node.send_message(msg.payload - 1, msg.source);
        }
        Ok(())
    }

    fn init(&mut self, node: &mut Node<u32>) {
        if self.start > 0 {
            node.send_message(self.start, self.peer);
        }
    }
}

#[test]
fn simulation_bounces_until_done() {
    let mut sim: Simulator<u32> = Simulator::new();
    sim.register(id("a"), Box::new(Bouncer { peer: id("b"), start: 3, seen: vec![] }));
    sim.register(id("b"), Box::new(Bouncer { peer: id("a"), start: 0, seen: vec![] }));
    assert_eq!(sim.node_count(), 2);
    assert_eq!(sim.run(1000), Ok(()));
    // 3 arrives at b at 100, 2 at a at 200, 1 at b at 300, 0 at a at 400
    assert_eq!(sim.node(0).time(), 400);
    assert_eq!(sim.node(1).time(), 300);
    assert!(sim.next_message(1000).is_none());
}

#[test]
fn simulation_stops_at_the_deadline() {
    let mut sim: Simulator<u32> = Simulator::default();
    sim.register(id("a"), Box::new(Bouncer { peer: id("b"), start: 50, seen: vec![] }));
    sim.register(id("b"), Box::new(Bouncer { peer: id("a"), start: 0, seen: vec![] }));
    assert_eq!(sim.run(250), Ok(()));
    assert_eq!(sim.node(0).time(), 200);
    assert_eq!(sim.node(1).time(), 100);
    // the message due at 300 was dropped
    assert!(sim.next_message(u64::MAX).is_none());
}

#[test]
fn registering_an_identity_again_replaces_the_node() {
    let mut sim: Simulator<u32> = Simulator::new();
    sim.register(id("a"), Box::new(Bouncer { peer: id("b"), start: 0, seen: vec![] }));
    sim.register(id("b"), Box::new(Bouncer { peer: id("a"), start: 0, seen: vec![] }));
    sim.register(id("a"), Box::new(Bouncer { peer: id("b"), start: 0, seen: vec![] }));
    assert_eq!(sim.node_count(), 2);
    assert_eq!(sim.node(0).id(), id("a"));
    assert_eq!(sim.node(1).id(), id("b"));
}

#[test]
fn unknown_destination_stops_the_run() {
    let mut sim: Simulator<u32> = Simulator::new();
    sim.register(id("a"), Box::new(Bouncer { peer: id("ghost"), start: 1, seen: vec![] }));
    assert_eq!(sim.run(1000), Err(SimError::UnknownDestination(id("ghost"))));
}

struct Refuser;

impl MessageHandler<u32> for Refuser {
    fn init_spec(&self, _before: Node<u32>, _after: Node<u32>) -> bool {
        true
    }

    fn handle_spec(&self, _before: Node<u32>, _msg: Message<u32>, _after: Node<u32>, _r: Result<(), HandlerError>) -> bool {
        true
    }

    fn handle_message(&mut self, _node: &mut Node<u32>, _msg: Message<u32>) -> Result<(), HandlerError> {
        Err(HandlerError::UnexpectedPayload)
    }

    fn init(&mut self, _node: &mut Node<u32>) {}
}

#[test]
fn handler_failure_stops_the_run() {
    let mut sim: Simulator<u32> = Simulator::new();
    sim.register(id("a"), Box::new(Bouncer { peer: id("b"), start: 1, seen: vec![] }));
    sim.register(id("b"), Box::new(Refuser));
    assert_eq!(sim.run(1000), Err(SimError::Handler(id("b"), HandlerError::UnexpectedPayload)));
}

#[test]
fn step_by_step_delivery() {
    let mut sim: Simulator<u32> = Simulator::new();
    sim.register(id("a"), Box::new(Bouncer { peer: id("b"), start: 2, seen: vec![] }));
    sim.register(id("b"), Box::new(Bouncer { peer: id("a"), start: 0, seen: vec![] }));
    for i in 0..sim.node_count() {
        assert_eq!(sim.bootstrap_node(i), Ok(()));
        sim.flush_node(i);
    }
    let m = sim.next_message(1000).unwrap();
    assert_eq!((m.timestamp, m.payload), (100, 2));
    let i = sim.receive(&m).unwrap();
    assert_eq!(i, 1);
    assert_eq!(sim.node(1).time(), 100);
    assert_eq!(sim.handle(i, m), Ok(()));
    assert_eq!(sim.node(1).outbox_messages().len(), 1);
    sim.flush_node(1);
    assert_eq!(sim.node(1).outbox_messages().len(), 0);
    let m = sim.next_message(1000).unwrap();
    assert_eq!((m.timestamp, m.payload, m.dest), (200, 1, id("a")));
}

#[test]
fn receiving_rejects_unknown_and_late_messages() {
    let mut sim: Simulator<u32> = Simulator::new();
    sim.register(id("a"), Box::new(Refuser));
    let stray = Message::new(5, id("a"), id("z"), 0u32);
    assert_eq!(sim.receive(&stray), Err(SimError::UnknownDestination(id("z"))));
    let late = Message::new(CLOCK_LIMIT + 1, id("z"), id("a"), 0u32);
    assert_eq!(sim.receive(&late), Err(SimError::ClockLimit(id("a"))));
    assert_eq!(sim.bootstrap_node(0), Err(SimError::ClockLimit(id("a"))));
}
