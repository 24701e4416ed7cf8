//! Node identities and the per-node framework state (clock and outbox).
use vstd::prelude::*;
use vstd::string::StringSliceAdditionalSpecFns;
use crate::sim_core::message::Message;
use crate::sim_core::queue::MessageQueue;

verus! {

/// Delay, in logical time units, between sending a message and its arrival.
pub const MESSAGE_DELAY: u64 = 100;

/// The largest clock value at which a handler is given control: one at which
/// a message can still be stamped `MESSAGE_DELAY` later without overflowing
/// a `u64`.
pub const CLOCK_LIMIT: u64 = 0xffff_ffff_ffff_ff9b;

/// A node's identity: its name in ASCII, padded with zero bytes to 32 bytes.
#[derive(Clone, Copy, Debug, Hash)]
pub struct NodeID(pub [u8; 32]);

impl View for NodeID {
    type V = Seq<u8>;

    open spec fn view(&self) -> Seq<u8> {
        self.0@
    }
}

/// `name` padded with zero bytes to 32 bytes.
pub open spec fn padded(name: Seq<u8>) -> Seq<u8> {
    name + Seq::new((32 - name.len()) as nat, |i: int| 0u8)
}

/// Padding keeps names without zero bytes apart: two such names of at most
/// 32 bytes with the same padding are the same name.
pub proof fn lemma_padded_injective(a: Seq<u8>, b: Seq<u8>)
    requires
        a.len() <= 32,
        b.len() <= 32,
        forall|i: int| 0 <= i < a.len() ==> a[i] != 0u8,
        forall|i: int| 0 <= i < b.len() ==> b[i] != 0u8,
        padded(a) == padded(b),
    ensures
        a == b,
{
    if a.len() < b.len() {
        assert(padded(a)[a.len() as int] == 0u8);
        assert(padded(b)[a.len() as int] == b[a.len() as int]);
    } else if b.len() < a.len() {
        assert(padded(b)[b.len() as int] == 0u8);
        assert(padded(a)[b.len() as int] == a[b.len() as int]);
    } else {
        assert forall|i: int| 0 <= i < a.len() implies a[i] == b[i] by {
            assert(padded(a)[i] == a[i]);
            assert(padded(b)[i] == b[i]);
        }
        assert(a =~= b);
    }
}

impl PartialEq for NodeID {
    fn eq(&self, other: &Self) -> (r: bool) {
        let mut i: usize = 0;
        while i < 32
            invariant
                i <= 32,
                forall|j: int| 0 <= j < i ==> self.0@[j] == other.0@[j],
            decreases 32 - i,
        {
            if self.0[i] != other.0[i] {
                return false;
            }
            i = i + 1;
        }
        proof {
            assert(self.0 =~= other.0);
        }
        true
    }
}

impl vstd::std_specs::cmp::PartialEqSpecImpl for NodeID {
    open spec fn obeys_eq_spec() -> bool {
        true
    }

    open spec fn eq_spec(&self, other: &NodeID) -> bool {
        *self == *other
    }
}

impl Eq for NodeID {
}

/// Two identities are equal exactly when their bytes are.
pub proof fn lemma_node_id_eq(a: NodeID, b: NodeID)
    ensures
        (a == b) <==> (a@ == b@),
{
    if a@ == b@ {
        assert(a.0 =~= b.0);
    }
}

impl NodeID {
    /// The identity named `s`; a name longer than 32 bytes has no identity.
    pub fn from_str(s: &str) -> (r: NodeID)
        requires
            s.spec_bytes().len() <= 32,
        ensures
            r@ == padded(s.spec_bytes()),
    {
        let bytes = s.as_bytes();
        NodeID::from_name(bytes)
    }

    /// The identity whose name is the byte string `name`.
    pub fn from_name(name: &[u8]) -> (r: NodeID)
        requires
            name@.len() <= 32,
        ensures
            r@ == padded(name@),
    {
        let mut id = [0u8; 32];
        let mut i: usize = 0;
        while i < name.len()
            invariant
                i <= name@.len(),
                name@.len() <= 32,
                id@.len() == 32,
                forall|j: int| 0 <= j < i ==> id@[j] == name@[j],
                forall|j: int| i <= j < 32 ==> id@[j] == 0u8,
            decreases name@.len() - i,
        {
            id[i] = name[i];
            i = i + 1;
        }
        let r = NodeID(id);
        proof {
            assert(r@ =~= padded(name@));
        }
        r
    }

    /// Length of the name: the position of the first zero byte, or 32.
    pub fn name_len(&self) -> (r: usize)
        ensures
            r <= 32,
            forall|j: int| 0 <= j < r ==> self@[j] != 0u8,
            r < 32 ==> self@[r as int] == 0u8,
    {
        let mut i: usize = 0;
        while i < 32
            invariant
                i <= 32,
                forall|j: int| 0 <= j < i ==> self@[j] != 0u8,
            decreases 32 - i,
        {
            if self.0[i] == 0 {
                return i;
            }
            i = i + 1;
        }
        32
    }
}

/// The framework state of one node: its identity, its local clock and the
/// messages it has sent since the last flush.
pub struct Node<P> {
    own_id: NodeID,
    local_time: u64,
    msg_buffer: Vec<Message<P>>,
}

impl<P> Node<P> {
    /// The node's identity.
    pub closed spec fn node_id(&self) -> NodeID {
        self.own_id
    }

    /// The node's local clock.
    pub closed spec fn clock(&self) -> u64 {
        self.local_time
    }

    /// Messages sent and not yet flushed, in sending order.
    pub closed spec fn outbox(&self) -> Seq<Message<P>> {
        self.msg_buffer@
    }

    /// `self` is a state that `earlier` can reach through the node's own
    /// operations: same identity, a clock that has not gone back, and an
    /// outbox that only grew, by messages from this node stamped at least
    /// `MESSAGE_DELAY` after the earlier clock.
    pub open spec fn follows(&self, earlier: &Node<P>) -> bool {
        &&& self.node_id() == earlier.node_id()
        &&& self.clock() >= earlier.clock()
        &&& earlier.outbox().len() <= self.outbox().len()
        &&& self.outbox().subrange(0, earlier.outbox().len() as int) == earlier.outbox()
        &&& forall|i: int|
            earlier.outbox().len() <= i < self.outbox().len() ==> {
                &&& (#[trigger] self.outbox()[i]).source == self.node_id()
                &&& self.outbox()[i].timestamp >= earlier.clock() + MESSAGE_DELAY
            }
    }

    /// `self` is `earlier` after sending, one after another and at its
    /// current time, a message to each of the nodes whose identity bytes are
    /// listed in `dests`, the `k`-th with a payload `p` such that
    /// `payload_ok(k, p)`; nothing else changed.
    #[verifier::opaque]
    pub open spec fn sent_each(
        &self,
        earlier: &Node<P>,
        dests: Seq<Seq<u8>>,
        payload_ok: spec_fn(int, P) -> bool,
    ) -> bool {
        &&& self.node_id() == earlier.node_id()
        &&& self.clock() == earlier.clock()
        &&& self.outbox().len() == earlier.outbox().len() + dests.len()
        &&& self.outbox().subrange(0, earlier.outbox().len() as int) == earlier.outbox()
        &&& forall|i: int|
            earlier.outbox().len() <= i < self.outbox().len() ==> {
                &&& (#[trigger] self.outbox()[i]).timestamp == earlier.clock() + MESSAGE_DELAY
                &&& self.outbox()[i].source == earlier.node_id()
                &&& self.outbox()[i].dest@ == dests[i - earlier.outbox().len()]
                &&& payload_ok(i - earlier.outbox().len(), self.outbox()[i].payload)
            }
    }

    /// A fresh node: clock at zero, nothing sent.
    pub fn new(own_id: NodeID) -> (r: Self)
        ensures
            r.node_id() == own_id,
            r.clock() == 0,
            r.outbox() == Seq::<Message<P>>::empty(),
    {
        Self { own_id, local_time: 0, msg_buffer: Vec::new() }
    }

    /// The node's identity.
    pub fn id(&self) -> (r: NodeID)
        ensures
            r == self.node_id(),
    {
        self.own_id
    }

    /// The node's local clock.
    pub fn time(&self) -> (r: u64)
        ensures
            r == self.clock(),
    {
        self.local_time
    }

    /// Messages sent and not yet flushed.
    pub fn outbox_messages(&self) -> (r: &Vec<Message<P>>)
        ensures
            r@ == self.outbox(),
    {
        &self.msg_buffer
    }

    /// Moves the clock forward by `step`.
    pub fn advance_time(&mut self, step: u64)
        requires
            old(self).clock() + step <= u64::MAX,
        ensures
            final(self).clock() == old(self).clock() + step,
            final(self).node_id() == old(self).node_id(),
            final(self).outbox() == old(self).outbox(),
    {
        self.local_time = self.local_time + step;
    }

    /// Brings the clock up to the arrival time of `msg`.
    pub fn pre_process_message(&mut self, msg: &Message<P>)
        ensures
            final(self).clock() == if old(self).clock() >= msg.timestamp {
                old(self).clock()
            } else {
                msg.timestamp
            },
            final(self).node_id() == old(self).node_id(),
            final(self).outbox() == old(self).outbox(),
    {
        if msg.timestamp > self.local_time {
            self.local_time = msg.timestamp;
        }
    }

    /// Queues `payload` for `dest`, to arrive `MESSAGE_DELAY` after now.
    pub fn send_message(&mut self, payload: P, dest: NodeID)
        requires
            old(self).clock() + MESSAGE_DELAY <= u64::MAX,
        ensures
            final(self).outbox() == old(self).outbox().push(
                Message {
                    timestamp: (old(self).clock() + MESSAGE_DELAY) as u64,
                    source: old(self).node_id(),
                    dest,
                    payload,
                },
            ),
            final(self).clock() == old(self).clock(),
            final(self).node_id() == old(self).node_id(),
    {
        let msg = Message::new(self.local_time + MESSAGE_DELAY, self.own_id, dest, payload);
        self.msg_buffer.push(msg);
    }
}

/// The identity bytes of `ids`.
pub open spec fn id_bytes(ids: Seq<NodeID>) -> Seq<Seq<u8>> {
    ids.map_values(|d: NodeID| d@)
}

/// Holds for the `k`-th payload when it is `payloads[k]`.
pub open spec fn is_kth<P>(payloads: Seq<P>) -> spec_fn(int, P) -> bool {
    |k: int, p: P| p == payloads[k]
}

/// Sends `payloads[k]` to `dests[k]` for each `k`, in order.
pub fn send_all<P>(node: &mut Node<P>, payloads: Vec<P>, dests: &Vec<NodeID>)
    requires
        old(node).clock() <= CLOCK_LIMIT,
        payloads@.len() == dests@.len(),
    ensures
        final(node).sent_each(old(node), id_bytes(dests@), is_kth(payloads@)),
{
    reveal(Node::sent_each);
    let ghost start = *node;
    let ghost all = payloads@;
    let ghost pf = is_kth(all);
    let mut payloads = payloads;
    let mut i: usize = 0;
    proof {
        lemma_sent_each_nothing(start, pf);
        assert(id_bytes(dests@).subrange(0, 0) =~= Seq::<Seq<u8>>::empty());
    }
    while i < dests.len()
        invariant
            i <= dests@.len(),
            all.len() == dests@.len(),
            pf == is_kth(all),
            payloads@ == all.subrange(i as int, all.len() as int),
            start.clock() <= CLOCK_LIMIT,
            node.sent_each(&start, id_bytes(dests@).subrange(0, i as int), pf),
        decreases dests@.len() - i,
    {
        reveal(Node::sent_each);
        let ghost before = *node;
        let p = payloads.remove(0);
        assert(p == all[i as int]);
        node.send_message(p, dests[i]);
        proof {
            let d = id_bytes(dests@).subrange(0, i + 1);
            assert(payloads@ =~= all.subrange(i + 1, all.len() as int));
            assert(node.outbox().subrange(0, start.outbox().len() as int) =~= start.outbox()) by {
                assert forall|k: int| 0 <= k < start.outbox().len() implies node.outbox()[k] == start.outbox()[k] by {
                    assert(node.outbox()[k] == before.outbox()[k]);
                    assert(before.outbox().subrange(0, start.outbox().len() as int)[k] == start.outbox()[k]);
                }
            }
            assert forall|j: int| start.outbox().len() <= j < node.outbox().len() implies {
                &&& (#[trigger] node.outbox()[j]).timestamp == start.clock() + MESSAGE_DELAY
                &&& node.outbox()[j].source == start.node_id()
                &&& node.outbox()[j].dest@ == d[j - start.outbox().len()]
                &&& pf(j - start.outbox().len(), node.outbox()[j].payload)
            } by {
                if j < before.outbox().len() {
                    assert(node.outbox()[j] == before.outbox()[j]);
                    assert(before.outbox()[j].dest@ == id_bytes(dests@).subrange(0, i as int)[j - start.outbox().len()]);
                    assert(pf(j - start.outbox().len(), before.outbox()[j].payload));
                } else {
                    assert(j - start.outbox().len() == i);
                    assert(node.outbox()[j].payload == all[i as int]);
                    assert(node.outbox()[j].dest@ == dests@[i as int]@);
                    assert(pf(i as int, node.outbox()[j].payload));
                }
            }
        }
        i = i + 1;
    }
    proof {
        assert(id_bytes(dests@).subrange(0, dests@.len() as int) =~= id_bytes(dests@));
    }
}

impl<P: std::hash::Hash> Node<P> {
    /// Moves every message of the outbox, in sending order, into `msg_queue`.
    pub fn flush_messages(&mut self, msg_queue: &mut MessageQueue<P>)
        ensures
            final(self).outbox() == Seq::<Message<P>>::empty(),
            final(self).clock() == old(self).clock(),
            final(self).node_id() == old(self).node_id(),
            final(msg_queue).entries().len() == old(msg_queue).entries().len() + old(
                self,
            ).outbox().len(),
            final(msg_queue).entries().subrange(0, old(msg_queue).entries().len() as int)
                == old(msg_queue).entries(),
            forall|i: int|
                0 <= i < old(self).outbox().len() ==> (#[trigger] final(msg_queue).entries()[old(
                    msg_queue,
                ).entries().len() + i]).1 == old(self).outbox()[i],
    {
        let ghost queued = msg_queue.entries();
        let ghost sent = self.msg_buffer@;
        let mut buffer: Vec<Message<P>> = Vec::new();
        std::mem::swap(&mut buffer, &mut self.msg_buffer);
        let mut k: usize = 0;
        let total = buffer.len();
        assert(total == sent.len());
        while buffer.len() > 0
            invariant
                k + buffer@.len() == sent.len(),
                sent.len() <= usize::MAX,
                buffer@ == sent.subrange(k as int, sent.len() as int),
                msg_queue.entries().len() == queued.len() + k,
                msg_queue.entries().subrange(0, queued.len() as int) == queued,
                forall|i: int|
                    0 <= i < k ==> (#[trigger] msg_queue.entries()[queued.len() + i]).1 == sent[i],
            decreases buffer@.len(),
        {
            let m = buffer.remove(0);
            let ghost before = msg_queue.entries();
            msg_queue.inject(m);
            proof {
                assert(buffer@ =~= sent.subrange(k + 1, sent.len() as int));
                assert forall|i: int| 0 <= i < k + 1 implies (#[trigger] msg_queue.entries()[queued.len() + i]).1 == sent[i] by {
                    if i < k {
                        assert(msg_queue.entries()[queued.len() + i] == before[queued.len() + i]);
                    }
                }
                assert(msg_queue.entries().subrange(0, queued.len() as int) =~= queued) by {
                    assert forall|i: int| 0 <= i < queued.len() implies msg_queue.entries()[i] == queued[i] by {
                        assert(msg_queue.entries()[i] == before[i]);
                        assert(before.subrange(0, queued.len() as int)[i] == queued[i]);
                    }
                }
            }
            k = k + 1;
        }
    }
}

/// Sending messages at the current time is a way of following.
pub proof fn lemma_sent_each_follows<P>(
    after: Node<P>,
    before: Node<P>,
    dests: Seq<Seq<u8>>,
    payload_ok: spec_fn(int, P) -> bool,
)
    requires
        after.sent_each(&before, dests, payload_ok),
    ensures
        after.follows(&before),
{
    reveal(Node::sent_each);
}

/// Sending keeps the node's identity and clock.
pub proof fn lemma_sent_each_keeps<P>(
    after: Node<P>,
    before: Node<P>,
    dests: Seq<Seq<u8>>,
    payload_ok: spec_fn(int, P) -> bool,
)
    requires
        after.sent_each(&before, dests, payload_ok),
    ensures
        after.clock() == before.clock(),
        after.node_id() == before.node_id(),
{
    reveal(Node::sent_each);
}

/// A weaker description of the payloads still describes what was sent.
pub proof fn lemma_sent_each_weaken<P>(
    after: Node<P>,
    before: Node<P>,
    dests: Seq<Seq<u8>>,
    strong: spec_fn(int, P) -> bool,
    weak: spec_fn(int, P) -> bool,
)
    requires
        after.sent_each(&before, dests, strong),
        forall|k: int, p: P| 0 <= k < dests.len() && #[trigger] strong(k, p) ==> weak(k, p),
    ensures
        after.sent_each(&before, dests, weak),
{
    reveal(Node::sent_each);
    assert forall|i: int| before.outbox().len() <= i < after.outbox().len() implies weak(i - before.outbox().len(), (#[trigger] after.outbox()[i]).payload) by {
        assert(strong(i - before.outbox().len(), after.outbox()[i].payload));
    }
}

/// Two rounds of sending make one: what was sent first, then what was sent
/// next.
pub proof fn lemma_sent_each_concat<P>(
    a: Node<P>,
    b: Node<P>,
    c: Node<P>,
    d1: Seq<Seq<u8>>,
    d2: Seq<Seq<u8>>,
    pf1: spec_fn(int, P) -> bool,
    pf2: spec_fn(int, P) -> bool,
    pf: spec_fn(int, P) -> bool,
)
    requires
        b.sent_each(&a, d1, pf1),
        c.sent_each(&b, d2, pf2),
        forall|k: int, p: P| 0 <= k < d1.len() && #[trigger] pf1(k, p) ==> pf(k, p),
        forall|k: int, p: P| 0 <= k < d2.len() && #[trigger] pf2(k, p) ==> pf(k + d1.len(), p),
    ensures
        c.sent_each(&a, d1 + d2, pf),
{
    reveal(Node::sent_each);
    let la = a.outbox().len();
    let lb = b.outbox().len();
    assert(c.outbox().subrange(0, la as int) =~= a.outbox()) by {
        assert forall|k: int| 0 <= k < la implies c.outbox()[k] == a.outbox()[k] by {
            assert(c.outbox().subrange(0, lb as int)[k] == b.outbox()[k]);
            assert(b.outbox().subrange(0, la as int)[k] == a.outbox()[k]);
        }
    }
    assert forall|i: int| la <= i < c.outbox().len() implies {
        &&& (#[trigger] c.outbox()[i]).timestamp == a.clock() + MESSAGE_DELAY
        &&& c.outbox()[i].source == a.node_id()
        &&& c.outbox()[i].dest@ == (d1 + d2)[i - la]
        &&& pf(i - la, c.outbox()[i].payload)
    } by {
        if i < lb {
            assert(c.outbox().subrange(0, lb as int)[i] == b.outbox()[i]);
            assert(b.outbox()[i].dest@ == d1[i - la]);
            assert(pf1(i - la, b.outbox()[i].payload));
        } else {
            assert(pf2(i - lb, c.outbox()[i].payload));
        }
    }
}

/// Sending to no one changes nothing.
pub proof fn lemma_sent_each_nothing<P>(n: Node<P>, payload_ok: spec_fn(int, P) -> bool)
    ensures
        n.sent_each(&n, Seq::empty(), payload_ok),
{
    reveal(Node::sent_each);
    assert(n.outbox().subrange(0, n.outbox().len() as int) =~= n.outbox());
}

/// Every state follows itself.
pub proof fn lemma_follows_reflexive<P>(n: Node<P>)
    ensures
        n.follows(&n),
{
    assert(n.outbox().subrange(0, n.outbox().len() as int) =~= n.outbox());
}

/// Following is transitive: a node that follows a state that follows an
/// earlier one follows the earlier one.
pub proof fn lemma_follows_transitive<P>(a: Node<P>, b: Node<P>, c: Node<P>)
    requires
        b.follows(&a),
        c.follows(&b),
    ensures
        c.follows(&a),
{
    assert(c.outbox().subrange(0, a.outbox().len() as int) =~= a.outbox()) by {
        assert forall|i: int| 0 <= i < a.outbox().len() implies c.outbox()[i] == a.outbox()[i] by {
            assert(c.outbox().subrange(0, b.outbox().len() as int)[i] == b.outbox()[i]);
            assert(b.outbox().subrange(0, a.outbox().len() as int)[i] == a.outbox()[i]);
        }
    }
    assert forall|i: int| a.outbox().len() <= i < c.outbox().len() implies {
        &&& (#[trigger] c.outbox()[i]).source == c.node_id()
        &&& c.outbox()[i].timestamp >= a.clock() + MESSAGE_DELAY
    } by {
        if i < b.outbox().len() {
            assert(c.outbox().subrange(0, b.outbox().len() as int)[i] == b.outbox()[i]);
            assert(b.outbox()[i].source == b.node_id());
        }
    }
}

} // verus!
