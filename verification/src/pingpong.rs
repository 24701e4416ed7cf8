//! Two nodes, "0" and "1", that play ping-pong: each pings the other, each
//! ping is answered after a random think time, and each node stops pinging
//! after its tenth ping.
use vstd::prelude::*;
use crate::message::{Message, MessageHandler, MessagePayload};
use crate::node::{Node, NodeID};
use crate::sim_core::message::HandlerError;
use crate::sim_core::node::{padded, CLOCK_LIMIT, MESSAGE_DELAY};

verus! {

/// Number of pings after which a node stops pinging.
pub const MAX_PINGS: u32 = 10;

/// Bounds of the think time before a pong, in logical time units: at least
/// the first, less than the second.
pub const MIN_THINK_TIME: u64 = 10;
pub const MAX_THINK_TIME: u64 = 1000;

/// The identity bytes of node "0".
pub open spec fn zero_id() -> Seq<u8> {
    padded(seq![48u8])
}

/// The identity bytes of node "1".
pub open spec fn one_id() -> Seq<u8> {
    padded(seq![49u8])
}

/// The identity bytes of the partner of the node whose identity bytes are
/// `id`.
pub open spec fn partner(id: Seq<u8>) -> Seq<u8> {
    if id == zero_id() {
        one_id()
    } else {
        zero_id()
    }
}

/// A uniformly random number in `low..high`, drawn by a generator that
/// `rand::rngs::StdRng::try_from_os_rng` seeds from the operating system,
/// through `rand::Rng::random_range(low..high)`. `None` when the operating
/// system's random source fails. The contract states only the range.
#[verifier::external_body]
fn random_in(low: u64, high: u64) -> (r: Option<u64>)
    requires
        low < high,
    ensures
        r matches Some(x) ==> low <= x < high,
{
    match <rand::rngs::StdRng as rand::SeedableRng>::try_from_os_rng() {
        Ok(mut rng) => Some(rand::Rng::random_range(&mut rng, low..high)),
        Err(_) => None,
    }
}

/// The identity of node "0".
fn node_zero() -> (r: NodeID)
    ensures
        r@ == zero_id(),
{
    let mut name: Vec<u8> = Vec::new();
    name.push(48u8);
    proof {
        assert(name@ =~= seq![48u8]);
    }
    NodeID::from_name(name.as_slice())
}

/// The identity of node "1".
fn node_one() -> (r: NodeID)
    ensures
        r@ == one_id(),
{
    let mut name: Vec<u8> = Vec::new();
    name.push(49u8);
    proof {
        assert(name@ =~= seq![49u8]);
    }
    NodeID::from_name(name.as_slice())
}

/// A ping-pong player: its framework state and the number of pings it
/// sent.
pub struct PingPongNode {
    node: Node,
    counter: u32,
}

impl PingPongNode {
    /// The node's framework state.
    pub closed spec fn state(&self) -> Node {
        self.node
    }

    /// Number of pings sent so far.
    pub closed spec fn pings(&self) -> u32 {
        self.counter
    }

    /// Node "0" or node "1"; no other node plays.
    pub fn new(own_id: NodeID) -> (r: Self)
        requires
            own_id@ == zero_id() || own_id@ == one_id(),
        ensures
            r.state().node_id() == own_id,
            r.state().clock() == 0,
            r.state().outbox().len() == 0,
            r.pings() == 0,
    {
        Self { node: Node::new(own_id), counter: 0 }
    }

    /// The other player.
    fn other_node(&self) -> (r: NodeID)
        ensures
            r@ == partner(self.state().node_id()@),
    {
        let zero = node_zero();
        if self.node.id() == zero {
            proof {
                crate::sim_core::node::lemma_node_id_eq(self.node.node_id(), zero);
            }
            node_one()
        } else {
            proof {
                crate::sim_core::node::lemma_node_id_eq(self.node.node_id(), zero);
            }
            zero
        }
    }

    /// Starts the game: sends the first ping.
    fn init(&mut self)
        requires
            old(self).state().clock() <= CLOCK_LIMIT,
            old(self).pings() < u32::MAX,
        ensures
            sent_ping(*final(self), *old(self)),
    {
        self.send_ping();
    }

    /// Pings the partner with the current count, and counts the ping.
    fn send_ping(&mut self)
        requires
            old(self).state().clock() <= CLOCK_LIMIT,
            old(self).pings() < u32::MAX,
        ensures
            sent_ping(*final(self), *old(self)),
    {
        let other = self.other_node();
        self.node.send_message(MessagePayload::Ping(self.counter), other);
        self.counter = self.counter + 1;
        proof {
            assert(self.node.outbox().drop_last() =~= old(self).node.outbox());
        }
    }

    /// Thinks for a random while, then answers the ping `counter` of
    /// `source` with a pong echoing it. Fails, changing nothing, when no
    /// random think time can be drawn.
    fn process_ping(&mut self, source: NodeID, counter: u32) -> (r: Result<(), HandlerError>)
        requires
            old(self).state().clock() <= CLOCK_LIMIT,
        ensures
            r is Err ==> ping_refused(r) && *final(self) == *old(self),
            r is Err && old(self).state().clock() + MAX_THINK_TIME <= CLOCK_LIMIT ==> r == Err::<(), HandlerError>(HandlerError::RandomnessUnavailable),
            r is Ok ==> answered_ping(*final(self), *old(self), source, counter),
            r is Ok ==> final(self).state().clock() <= CLOCK_LIMIT,
    {
        let think = match random_in(MIN_THINK_TIME, MAX_THINK_TIME) {
            Some(t) => t,
            None => {
                return Err(HandlerError::RandomnessUnavailable);
            },
        };
        self.answer_ping(source, counter, think)
    }

    /// After thinking for `think`, answers the ping `counter` of `source`
    /// with a pong echoing it, stamped `MESSAGE_DELAY` after the end of the
    /// thinking. Fails, changing nothing, when the clock would pass
    /// `CLOCK_LIMIT` while thinking.
    pub fn answer_ping(&mut self, source: NodeID, counter: u32, think: u64) -> (r: Result<(), HandlerError>)
        requires
            old(self).state().clock() <= CLOCK_LIMIT,
        ensures
            r is Err <==> old(self).state().clock() + think > CLOCK_LIMIT,
            r is Err ==> r == Err::<(), HandlerError>(HandlerError::ArithmeticOverflow) && *final(self) == *old(self),
            r is Ok ==> {
                &&& final(self).pings() == old(self).pings()
                &&& final(self).state().node_id() == old(self).state().node_id()
                &&& final(self).state().clock() == old(self).state().clock() + think
                &&& final(self).state().outbox() == old(self).state().outbox().push(
                    Message {
                        timestamp: (old(self).state().clock() + think + MESSAGE_DELAY) as u64,
                        source: old(self).state().node_id(),
                        dest: source,
                        payload: MessagePayload::Pong(counter),
                    },
                )
            },
    {
        if think > CLOCK_LIMIT - self.node.time() {
            return Err(HandlerError::ArithmeticOverflow);
        }
        self.node.advance_time(think);
        self.node.send_message(MessagePayload::Pong(counter), source);
        Ok(())
    }

    /// A pong came back: pings again unless `MAX_PINGS` pings were sent.
    fn process_pong(&mut self, _source: NodeID, _counter: u32)
        requires
            old(self).state().clock() <= CLOCK_LIMIT,
        ensures
            old(self).pings() < MAX_PINGS ==> sent_ping(*final(self), *old(self)),
            old(self).pings() >= MAX_PINGS ==> *final(self) == *old(self),
    {
        if self.counter < MAX_PINGS {
            self.send_ping();
        }
    }
}

/// `now` is `before` after one ping, stamped `MESSAGE_DELAY` after the
/// current time and carrying the count of earlier pings, went to the
/// partner.
pub open spec fn sent_ping(now: PingPongNode, before: PingPongNode) -> bool {
    &&& now.pings() == before.pings() + 1
    &&& now.state().node_id() == before.state().node_id()
    &&& now.state().clock() == before.state().clock()
    &&& now.state().outbox().len() == before.state().outbox().len() + 1
    &&& now.state().outbox().drop_last() == before.state().outbox()
    &&& now.state().outbox().last() == (Message {
        timestamp: (before.state().clock() + MESSAGE_DELAY) as u64,
        source: before.state().node_id(),
        dest: now.state().outbox().last().dest,
        payload: MessagePayload::Ping(before.pings()),
    })
    &&& now.state().outbox().last().dest@ == partner(before.state().node_id()@)
}

/// `now` is `before` after thinking for a while and answering the ping
/// `counter` of `source` with a pong echoing it.
pub open spec fn answered_ping(now: PingPongNode, before: PingPongNode, source: NodeID, counter: u32) -> bool {
    &&& now.pings() == before.pings()
    &&& now.state().node_id() == before.state().node_id()
    &&& before.state().clock() + MIN_THINK_TIME <= now.state().clock() < before.state().clock() + MAX_THINK_TIME
    &&& now.state().outbox() == before.state().outbox().push(
        Message {
            timestamp: (now.state().clock() + MESSAGE_DELAY) as u64,
            source: before.state().node_id(),
            dest: source,
            payload: MessagePayload::Pong(counter),
        },
    )
}

/// A ping goes unanswered when no think time can be drawn, or when the
/// clock would pass `CLOCK_LIMIT` while thinking.
pub open spec fn ping_refused(r: Result<(), HandlerError>) -> bool {
    r == Err::<(), HandlerError>(HandlerError::RandomnessUnavailable) || r == Err::<(), HandlerError>(HandlerError::ArithmeticOverflow)
}

/// What handling `payload` does to a player `before` that sent `pings`
/// pings, when it succeeds, and when it fails.
pub open spec fn ping_pong_outcome(now: PingPongNode, before: PingPongNode, msg: Message, r: Result<(), HandlerError>) -> bool {
    match msg.payload {
        MessagePayload::Init => if before.pings() < u32::MAX {
            r is Ok && sent_ping(now, before)
        } else {
            r == Err::<(), HandlerError>(HandlerError::ArithmeticOverflow) && now == before
        },
        MessagePayload::Ping(c) => if r is Ok {
            answered_ping(now, before, msg.source, c)
        } else {
            ping_refused(r) && now == before && (before.state().clock() + MAX_THINK_TIME <= CLOCK_LIMIT ==> r == Err::<(), HandlerError>(HandlerError::RandomnessUnavailable))
        },
        MessagePayload::Pong(_) => r is Ok && if before.pings() < MAX_PINGS {
            sent_ping(now, before)
        } else {
            now == before
        },
        _ => r == Err::<(), HandlerError>(HandlerError::UnexpectedPayload) && now == before,
    }
}

/// A player stops at `MAX_PINGS` pings: answering pings and pongs, or
/// refusing other payloads, never takes its count past `MAX_PINGS`; only a
/// start-up signal sends a ping regardless.
pub proof fn lemma_pings_bounded(now: PingPongNode, before: PingPongNode, msg: Message, r: Result<(), HandlerError>)
    requires
        ping_pong_outcome(now, before, msg, r),
        before.pings() <= MAX_PINGS,
        !(msg.payload is Init),
    ensures
        now.pings() <= MAX_PINGS,
{
}

impl PingPongNode {
    /// Plays one move in answer to `msg`.
    fn play(&mut self, msg: Message) -> (r: Result<(), HandlerError>)
        requires
            old(self).state().clock() <= CLOCK_LIMIT,
        ensures
            ping_pong_outcome(*final(self), *old(self), msg, r),
            final(self).state().follows(&old(self).state()),
    {
        match msg.payload {
            MessagePayload::Init => {
                if self.counter == u32::MAX {
                    proof {
                        crate::sim_core::node::lemma_follows_reflexive(self.node);
                    }
                    return Err(HandlerError::ArithmeticOverflow);
                }
                self.init();
                proof {
                    assert(self.node.outbox().subrange(0, old(self).node.outbox().len() as int) =~= old(self).node.outbox());
                }
                Ok(())
            },
            MessagePayload::Ping(counter) => {
                let r = self.process_ping(msg.source, counter);
                proof {
                    if r is Ok {
                        assert(self.node.outbox().subrange(0, old(self).node.outbox().len() as int) =~= old(self).node.outbox());
                    } else {
                        crate::sim_core::node::lemma_follows_reflexive(self.node);
                    }
                }
                r
            },
            MessagePayload::Pong(counter) => {
                self.process_pong(msg.source, counter);
                proof {
                    crate::sim_core::node::lemma_follows_reflexive(old(self).node);
                    assert(self.node.outbox().subrange(0, old(self).node.outbox().len() as int) =~= old(self).node.outbox());
                }
                Ok(())
            },
            _ => {
                proof {
                    crate::sim_core::node::lemma_follows_reflexive(self.node);
                }
                Err(HandlerError::UnexpectedPayload)
            },
        }
    }
}

impl MessageHandler for PingPongNode {
    open spec fn node_view(&self) -> Node {
        self.state()
    }

    open spec fn handle_spec(&self, before: Node, msg: Message, after: Node, r: Result<(), HandlerError>) -> bool {
        exists|now: PingPongNode| now.state() == after && #[trigger] ping_pong_outcome(now, *self, msg, r)
    }

    fn handle_message(&mut self, msg: Message) -> (r: Result<(), HandlerError>)
        ensures
            ping_pong_outcome(*final(self), *old(self), msg, r),
    {
        let ghost m = msg;
        let r = self.play(msg);
        proof {
            assert(ping_pong_outcome(*self, *old(self), m, r));
        }
        r
    }

    closed spec fn with_node(&self, n: Node) -> Self {
        PingPongNode { node: n, ..*self }
    }

    fn node(&mut self) -> (r: &mut Node) {
        &mut self.node
    }
}

} // verus!
