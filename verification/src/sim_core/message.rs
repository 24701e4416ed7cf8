//! Messages in flight and the interface that node logic implements.
use vstd::prelude::*;
use std::cmp::Ordering;
use std::hash::Hash;
use crate::sim_core::node::{Node, NodeID, CLOCK_LIMIT};

verus! {

/// A message in flight: scheduled to arrive at `dest` at logical time `timestamp`.
#[derive(Debug, PartialEq, Eq, Hash)]
pub struct Message<P> {
    pub timestamp: u64,
    pub source: NodeID,
    pub dest: NodeID,
    pub payload: P,
}

impl<P> Message<P> {
    /// The message carrying `payload` from `source` to `dest`, arriving at
    /// `timestamp`.
    pub fn new(timestamp: u64, source: NodeID, dest: NodeID, payload: P) -> (r: Self)
        ensures
            r == (Message { timestamp, source, dest, payload }),
    {
        Self { timestamp, source, dest, payload }
    }
}

impl<P: Hash> Message<P> {
    /// The dispatch order of messages, as a max-first comparison: a message
    /// with an earlier timestamp is greater (it goes first); between equal
    /// timestamps the message hashes are compared.
    pub fn cmp(&self, other: &Self) -> (r: Ordering)
        ensures
            self.timestamp < other.timestamp ==> r == Ordering::Greater,
            self.timestamp > other.timestamp ==> r == Ordering::Less,
    {
        let own_hash = hash_msg(self);
        let other_hash = hash_msg(other);
        dispatch_order(self.timestamp, own_hash, other.timestamp, other_hash)
    }
}

/// The dispatch comparison of two messages given their timestamps and
/// hashes: earlier timestamps compare greater; equal timestamps compare as
/// their hashes do.
pub fn dispatch_order(ts_a: u64, hash_a: u64, ts_b: u64, hash_b: u64) -> (r: Ordering)
    ensures
        r == if ts_a < ts_b {
            Ordering::Greater
        } else if ts_a > ts_b {
            Ordering::Less
        } else if hash_a < hash_b {
            Ordering::Less
        } else if hash_a > hash_b {
            Ordering::Greater
        } else {
            Ordering::Equal
        },
{
    if ts_a < ts_b {
        Ordering::Greater
    } else if ts_a > ts_b {
        Ordering::Less
    } else if hash_a < hash_b {
        Ordering::Less
    } else if hash_a > hash_b {
        Ordering::Greater
    } else {
        Ordering::Equal
    }
}

/// Digest of a message by `fxhash::FxHasher` (from `FxHasher::default()`,
/// fed through the message's derived `Hash`: timestamp, source,
/// destination, payload, then `finish`). Nothing is stated of the value: the
/// hasher works on `usize`, so the digest depends on the machine's word
/// size, and a name for it would be generic over the payload type, which
/// this crate cannot declare.
#[verifier::external_body]
pub(crate) fn hash_msg<P: Hash>(message: &Message<P>) -> u64 {
    let mut hasher = fxhash::FxHasher::default();
    Hash::hash(message, &mut hasher);
    std::hash::Hasher::finish(&hasher)
}

/// Why a handler could not process a message.
#[derive(Clone, Copy, Debug, PartialEq, Eq, Structural)]
pub enum HandlerError {
    /// The payload is of a kind this role does not handle.
    UnexpectedPayload,
    /// A block whose parent is not the current head of the chain.
    BlockOutOfOrder,
    /// A first block that is not the genesis block.
    NonGenesisFirstBlock,
    /// A number computed from the message does not fit its integer type.
    ArithmeticOverflow,
    /// A block with a sequence too long for its length prefix, which
    /// therefore has no encoding and no hash.
    Unencodable,
    /// The operating system's random source could not be read.
    RandomnessUnavailable,
    /// A node is to be picked by rotation from a pool that has no members.
    EmptyPool,
    /// A node's name is longer than the 32 bytes of an identity.
    NameTooLong,
}

/// User-implemented logic for a node. The framework calls `init` once at
/// startup and `handle_message` whenever a message destined for the node is
/// dispatched. A handler acts on the world only through its `node`: it may
/// send messages and move the clock forward. Each implementation states, in
/// `init_spec` and `handle_spec`, what its calls do to the node; the
/// framework's contracts speak of the calls it makes through them.
pub trait MessageHandler<P> {
    /// What a call of `init` on this handler may do to its node, from
    /// `before` to `after`.
    spec fn init_spec(&self, before: Node<P>, after: Node<P>) -> bool;

    /// What a call of `handle_message` on this handler may do to its node,
    /// from `before` to `after`, when handed `msg` and returning `r`.
    spec fn handle_spec(&self, before: Node<P>, msg: Message<P>, after: Node<P>, r: Result<(), HandlerError>) -> bool;

    fn handle_message(&mut self, node: &mut Node<P>, msg: Message<P>) -> (r: Result<(), HandlerError>)
        requires
            old(node).clock() <= CLOCK_LIMIT,
        ensures
            final(node).follows(old(node)),
            old(self).handle_spec(*old(node), msg, *final(node), r),
    ;

    fn init(&mut self, node: &mut Node<P>)
        requires
            old(node).clock() <= CLOCK_LIMIT,
        ensures
            final(node).follows(old(node)),
            old(self).init_spec(*old(node), *final(node)),
    ;
}

} // verus!
