//! The dispatch loop over a table of nodes and a message queue.
use vstd::prelude::*;
use vstd::multiset::Multiset;
use std::hash::Hash;
use crate::sim_core::message::{HandlerError, Message, MessageHandler};
use crate::sim_core::node::{Node, NodeID, CLOCK_LIMIT, MESSAGE_DELAY};
use crate::sim_core::queue::{dispatched_no_later, popped_first, MessageQueue};

verus! {

/// A registered node: its framework state and its logic.
pub type NodeEntry<P> = (Node<P>, Box<dyn MessageHandler<P>>);

/// Why a simulation stopped before its deadline.
#[derive(Clone, Copy, Debug, PartialEq, Eq)]
pub enum SimError {
    /// A message was addressed to a node that is not registered.
    UnknownDestination(NodeID),
    /// A node's clock passed `CLOCK_LIMIT`, beyond which its handler cannot
    /// stamp messages safely.
    ClockLimit(NodeID),
    /// A node's handler could not process a message.
    Handler(NodeID, HandlerError),
}

/// The identities of the registered nodes, in table order.
pub open spec fn table_ids<P>(nodes: Seq<NodeEntry<P>>) -> Seq<NodeID> {
    nodes.map_values(|e: NodeEntry<P>| e.0.node_id())
}

/// Number of queued messages stamped `t`.
pub open spec fn count_at<P>(s: Seq<(u64, Message<P>)>, t: u64) -> nat
    decreases s.len(),
{
    if s.len() == 0 {
        0
    } else {
        count_at(s.drop_last(), t) + if s.last().1.timestamp == t {
            1nat
        } else {
            0nat
        }
    }
}

/// Counting messages at a time adds up over concatenation.
pub proof fn lemma_count_concat<P>(a: Seq<(u64, Message<P>)>, b: Seq<(u64, Message<P>)>, t: u64)
    ensures
        count_at(a + b, t) == count_at(a, t) + count_at(b, t),
    decreases b.len(),
{
    if b.len() == 0 {
        assert(a + b =~= a);
    } else {
        lemma_count_concat(a, b.drop_last(), t);
        assert((a + b).drop_last() =~= a + b.drop_last());
    }
}

/// Removing a message lowers the count at its time by one.
pub proof fn lemma_count_remove<P>(s: Seq<(u64, Message<P>)>, i: int, t: u64)
    requires
        0 <= i < s.len(),
    ensures
        count_at(s, t) == count_at(s.remove(i), t) + if s[i].1.timestamp == t {
            1nat
        } else {
            0nat
        },
{
    let a = s.subrange(0, i);
    let m = s.subrange(i, i + 1);
    let b = s.subrange(i + 1, s.len() as int);
    assert(s =~= a + m + b);
    assert(s.remove(i) =~= a + b);
    lemma_count_concat(a + m, b, t);
    lemma_count_concat(a, m, t);
    lemma_count_concat(a, b, t);
    assert(m.len() == 1);
    assert(m.last() == s[i]);
    assert(m.drop_last() =~= Seq::<(u64, Message<P>)>::empty());
    assert(count_at(m.drop_last(), t) == 0);
    assert(count_at(m, t) == if s[i].1.timestamp == t { 1nat } else { 0nat });
}

/// No message stamped `t`, no count at `t`.
pub proof fn lemma_count_none<P>(s: Seq<(u64, Message<P>)>, t: u64)
    requires
        forall|j: int| 0 <= j < s.len() ==> (#[trigger] s[j]).1.timestamp != t,
    ensures
        count_at(s, t) == 0,
    decreases s.len(),
{
    if s.len() > 0 {
        lemma_count_none(s.drop_last(), t);
    }
}

/// What the handler returned, given what the framework reports of it.
pub open spec fn handler_result(r: Result<(), SimError>) -> Result<(), HandlerError> {
    match r {
        Ok(u) => Ok(u),
        Err(SimError::Handler(_, e)) => Err(e),
        Err(_) => Ok(()),
    }
}

/// The later of two clock values.
pub open spec fn later(a: u64, b: u64) -> u64 {
    if a >= b {
        a
    } else {
        b
    }
}

/// The position of the node registered as `id`, if any.
pub fn find_node<P>(nodes: &Vec<NodeEntry<P>>, id: NodeID) -> (r: Option<usize>)
    ensures
        r matches Some(i) ==> i < nodes@.len() && nodes@[i as int].0.node_id() == id && forall|j: int|
            0 <= j < i ==> (#[trigger] nodes@[j]).0.node_id() != id,
        r is None ==> forall|i: int| 0 <= i < nodes@.len() ==> (#[trigger] nodes@[i]).0.node_id() != id,
{
    let mut i: usize = 0;
    while i < nodes.len()
        invariant
            i <= nodes@.len(),
            forall|j: int| 0 <= j < i ==> (#[trigger] nodes@[j]).0.node_id() != id,
        decreases nodes@.len() - i,
    {
        if nodes[i].0.id() == id {
            return Some(i);
        }
        i = i + 1;
    }
    None
}

/// `now` is the table `before` after the simulation ran for a while: the
/// same nodes in the same order, none of whose clocks went back.
pub open spec fn table_progressed<P>(now: Seq<NodeEntry<P>>, before: Seq<NodeEntry<P>>) -> bool {
    &&& now.len() == before.len()
    &&& forall|j: int| 0 <= j < now.len() ==> (#[trigger] now[j]).0.node_id() == before[j].0.node_id() && now[j].0.clock() >= before[j].0.clock()
}

/// No node has unflushed messages.
pub open spec fn all_flushed<P>(nodes: Seq<NodeEntry<P>>) -> bool {
    forall|j: int| 0 <= j < nodes.len() ==> (#[trigger] nodes[j]).0.outbox().len() == 0
}

/// Every queued message is stamped at or after `t`.
pub open spec fn all_at_or_after<P>(entries: Seq<(u64, Message<P>)>, t: u64) -> bool {
    forall|j: int| 0 <= j < entries.len() ==> (#[trigger] entries[j]).1.timestamp >= t
}

/// Every queued message is stamped after `t`.
pub open spec fn all_after<P>(entries: Seq<(u64, Message<P>)>, t: u64) -> bool {
    forall|j: int| 0 <= j < entries.len() ==> (#[trigger] entries[j]).1.timestamp > t
}

/// `i` is the position of the first node registered as `id`.
pub open spec fn first_at<P>(table: Seq<NodeEntry<P>>, id: NodeID, i: int) -> bool {
    &&& 0 <= i < table.len()
    &&& table[i].0.node_id() == id
    &&& forall|j: int| 0 <= j < i ==> (#[trigger] table[j]).0.node_id() != id
}

/// `after` is `before` having received `m`: its clock brought up to the
/// arrival time, nothing else changed.
pub open spec fn received<P>(before: Node<P>, m: Message<P>, after: Node<P>) -> bool {
    &&& after.node_id() == before.node_id()
    &&& after.outbox() == before.outbox()
    &&& after.clock() == later(before.clock(), m.timestamp)
}

/// `t` and `u` differ at most at position `i`.
pub open spec fn same_except<P>(t: Seq<NodeEntry<P>>, u: Seq<NodeEntry<P>>, i: int) -> bool {
    &&& t.len() == u.len()
    &&& forall|j: int| 0 <= j < t.len() && j != i ==> #[trigger] t[j] == u[j]
}

/// One step of a run: the node at `index` of `table` either runs its
/// `init` hook (`message` is `None`) or is handed `message`, taken off
/// `queue`, which leaves `popped`. The handler is given the node as
/// `handed`, leaves it as `left`, and returns `outcome`.
#[verifier::reject_recursive_types(P)]
pub struct Step<P> {
    pub table: Seq<NodeEntry<P>>,
    pub queue: Seq<(u64, Message<P>)>,
    pub index: int,
    pub message: Option<Message<P>>,
    pub popped: Seq<(u64, Message<P>)>,
    pub handed: Node<P>,
    pub left: Node<P>,
    pub outcome: Result<(), HandlerError>,
}

/// The step is a call that the framework makes: an `init` on the node
/// as it stands, or the dispatch of the message that goes first, due by
/// `max`, to the first node registered for its destination, with the
/// clock brought up to its arrival; the handler acted as its
/// implementation states and succeeded.
pub open spec fn step_ok<P>(s: Step<P>, max: u64) -> bool {
    &&& 0 <= s.index < s.table.len()
    &&& s.left.follows(&s.handed)
    &&& match s.message {
        None => {
            &&& s.popped == s.queue
            &&& s.handed == s.table[s.index].0
            &&& s.table[s.index].1.init_spec(s.handed, s.left)
        },
        Some(m) => {
            &&& m.timestamp <= max
            &&& popped_first(s.queue, s.popped, m)
            &&& first_at(s.table, m.dest, s.index)
            &&& received(s.table[s.index].0, m, s.handed)
            &&& s.handed.clock() <= CLOCK_LIMIT
            &&& s.outcome is Ok
            &&& s.table[s.index].1.handle_spec(s.handed, m, s.left, s.outcome)
        },
    }
}

/// After the step, the nodes are `t` and the queue is `q`: the node's
/// outbox went into the queue, in order, and nothing else changed.
pub open spec fn step_done<P>(s: Step<P>, t: Seq<NodeEntry<P>>, q: Seq<(u64, Message<P>)>) -> bool {
    &&& same_except(t, s.table, s.index)
    &&& t[s.index].0.node_id() == s.left.node_id()
    &&& t[s.index].0.clock() == s.left.clock()
    &&& t[s.index].0.outbox().len() == 0
    &&& q.len() == s.popped.len() + s.left.outbox().len()
    &&& q.subrange(0, s.popped.len() as int) == s.popped
    &&& forall|k: int| 0 <= k < s.left.outbox().len() ==> (#[trigger] q[s.popped.len() + k]).1 == s.left.outbox()[k]
}

/// The nodes after step `k` of `steps`, which end at `t`.
pub open spec fn next_table<P>(steps: Seq<Step<P>>, k: int, t: Seq<NodeEntry<P>>) -> Seq<NodeEntry<P>> {
    if k + 1 < steps.len() {
        steps[k + 1].table
    } else {
        t
    }
}

/// The queue after step `k` of `steps`, which end at `q`.
pub open spec fn next_queue<P>(steps: Seq<Step<P>>, k: int, q: Seq<(u64, Message<P>)>) -> Seq<(u64, Message<P>)> {
    if k + 1 < steps.len() {
        steps[k + 1].queue
    } else {
        q
    }
}

/// Starting from nodes `t0` and queue `q0`, the steps `steps` were taken
/// one after another and left nodes `t` and queue `q`.
pub open spec fn ran<P>(
    steps: Seq<Step<P>>,
    t0: Seq<NodeEntry<P>>,
    q0: Seq<(u64, Message<P>)>,
    t: Seq<NodeEntry<P>>,
    q: Seq<(u64, Message<P>)>,
    max: u64,
) -> bool {
    &&& steps.len() == 0 ==> t == t0 && q == q0
    &&& steps.len() > 0 ==> steps[0].table == t0 && steps[0].queue == q0
    &&& forall|k: int|
        0 <= k < steps.len() ==> #[trigger] step_ok(steps[k], max) && step_done(
            steps[k],
            next_table(steps, k, t),
            next_queue(steps, k, q),
        )
}

/// Taking one more step extends a run.
pub proof fn lemma_ran_push<P>(
    steps: Seq<Step<P>>,
    t0: Seq<NodeEntry<P>>,
    q0: Seq<(u64, Message<P>)>,
    t: Seq<NodeEntry<P>>,
    q: Seq<(u64, Message<P>)>,
    s: Step<P>,
    t2: Seq<NodeEntry<P>>,
    q2: Seq<(u64, Message<P>)>,
    max: u64,
)
    requires
        ran(steps, t0, q0, t, q, max),
        s.table == t,
        s.queue == q,
        step_ok(s, max),
        step_done(s, t2, q2),
    ensures
        ran(steps.push(s), t0, q0, t2, q2, max),
{
    let all = steps.push(s);
    assert forall|k: int| 0 <= k < all.len() implies step_ok(#[trigger] all[k], max) && step_done(
        all[k],
        next_table(all, k, t2),
        next_queue(all, k, q2),
    ) by {
        if k < steps.len() {
            assert(all[k] == steps[k]);
            if k + 1 < steps.len() {
                assert(all[k + 1] == steps[k + 1]);
            } else {
                assert(all[k + 1] == s);
            }
        }
    }
}

/// The steps are first the `init` of each of the `n` nodes, in order,
/// then dispatches only.
pub open spec fn inits_first<P>(steps: Seq<Step<P>>, n: nat) -> bool {
    &&& forall|k: int| 0 <= k < steps.len() && k < n ==> (#[trigger] steps[k]).message is None && steps[k].index == k
    &&& forall|k: int| n <= k < steps.len() ==> (#[trigger] steps[k]).message is Some
}

/// After the steps left queue `q`, the loop found nothing due by `max`:
/// the queue was empty, or its first message was due later and was
/// dropped, leaving `rest`.
pub open spec fn dropped_rest<P>(q: Seq<(u64, Message<P>)>, rest: Seq<(u64, Message<P>)>, max: u64) -> bool {
    (q.len() == 0 && rest == q) || exists|m: Message<P>| m.timestamp > max && #[trigger] popped_first(q, rest, m)
}

/// Dispatching `m` from nodes `tb` failed with `e`, leaving nodes `t`.
pub open spec fn dispatch_failed<P>(e: SimError, m: Message<P>, tb: Seq<NodeEntry<P>>, t: Seq<NodeEntry<P>>) -> bool {
    match e {
        SimError::UnknownDestination(d) => d == m.dest && !table_ids(tb).contains(d) && t == tb,
        SimError::ClockLimit(d) => d == m.dest && exists|i: int|
            #[trigger] first_at(tb, d, i) && received(tb[i].0, m, t[i].0) && t[i].0.clock() > CLOCK_LIMIT && t[i].1 == tb[i].1
                && same_except(t, tb, i),
        SimError::Handler(d, err) => d == m.dest && exists|i: int, n: Node<P>|
            #[trigger] first_at(tb, d, i) && #[trigger] received(tb[i].0, m, n) && n.clock() <= CLOCK_LIMIT
                && tb[i].1.handle_spec(n, m, t[i].0, Err(err)) && same_except(t, tb, i),
    }
}

/// From nodes `tb` and queue `qb`, the message that goes first, due by
/// `max`, was taken off the queue, leaving `q`, and dispatching it failed
/// with `e`, leaving nodes `t`.
pub open spec fn stopped<P>(
    e: SimError,
    tb: Seq<NodeEntry<P>>,
    qb: Seq<(u64, Message<P>)>,
    t: Seq<NodeEntry<P>>,
    q: Seq<(u64, Message<P>)>,
    max: u64,
) -> bool {
    exists|m: Message<P>| m.timestamp <= max && #[trigger] popped_first(qb, q, m) && dispatch_failed(e, m, tb, t)
}

/// What a run from nodes `t0` and queue `q0` to the deadline `max` did,
/// through the steps `steps`, to end at nodes `t` and queue `q` with result
/// `r`: every node's `init` first, then dispatches in order; on success the
/// loop stopped when nothing was due; on failure the failing call is
/// described; and with no node and nothing due, the run succeeds.
pub open spec fn run_outcome<P>(
    r: Result<(), SimError>,
    steps: Seq<Step<P>>,
    t0: Seq<NodeEntry<P>>,
    q0: Seq<(u64, Message<P>)>,
    t: Seq<NodeEntry<P>>,
    q: Seq<(u64, Message<P>)>,
    max: u64,
) -> bool {
    &&& inits_first(steps, t0.len())
    &&& r is Ok ==> steps.len() >= t0.len() && exists|e: Seq<(u64, Message<P>)>|
        ran(steps, t0, q0, t, e, max) && #[trigger] dropped_rest(e, q, max)
    &&& (r is Err && steps.len() < t0.len()) ==> {
        &&& ran(steps, t0, q0, t, q, max)
        &&& t[steps.len() as int].0.clock() > CLOCK_LIMIT
        &&& r == Err::<(), SimError>(SimError::ClockLimit(t[steps.len() as int].0.node_id()))
    }
    &&& r matches Err(e) ==> (steps.len() >= t0.len() ==> exists|tb: Seq<NodeEntry<P>>, qb: Seq<(u64, Message<P>)>|
        ran(steps, t0, q0, tb, qb, max) && #[trigger] stopped(e, tb, qb, t, q, max))
    &&& (t0.len() == 0 && all_after(q0, max)) ==> r is Ok
}

/// The messages of a queue, counted with their repetitions.
pub open spec fn queued_messages<P>(q: Seq<(u64, Message<P>)>) -> Multiset<Message<P>> {
    q.map_values(|e: (u64, Message<P>)| e.1).to_multiset()
}

/// The messages handed to handlers in `steps`.
pub open spec fn handed_messages<P>(steps: Seq<Step<P>>) -> Multiset<Message<P>>
    decreases steps.len(),
{
    if steps.len() == 0 {
        Multiset::empty()
    } else {
        handed_messages(steps.drop_last()).add(
            match steps.last().message {
                Some(m) => Multiset::singleton(m),
                None => Multiset::empty(),
            },
        )
    }
}

/// The messages that the nodes of `steps` put in the queue.
pub open spec fn sent_messages<P>(steps: Seq<Step<P>>) -> Multiset<Message<P>>
    decreases steps.len(),
{
    if steps.len() == 0 {
        Multiset::empty()
    } else {
        sent_messages(steps.drop_last()).add(steps.last().left.outbox().to_multiset())
    }
}

/// A run neither loses nor makes up messages: what was queued at the start
/// and what the nodes sent is what is still queued and what was handed to
/// the handlers.
pub proof fn lemma_ran_conserves_messages<P>(
    steps: Seq<Step<P>>,
    t0: Seq<NodeEntry<P>>,
    q0: Seq<(u64, Message<P>)>,
    t: Seq<NodeEntry<P>>,
    q: Seq<(u64, Message<P>)>,
    max: u64,
)
    requires
        ran(steps, t0, q0, t, q, max),
    ensures
        queued_messages(q0).add(sent_messages(steps)) == queued_messages(q).add(handed_messages(steps)),
    decreases steps.len(),
{
    broadcast use vstd::multiset::group_multiset_axioms;

    if steps.len() == 0 {
        assert(queued_messages(q0).add(Multiset::empty()) =~= queued_messages(q0));
        assert(queued_messages(q).add(Multiset::empty()) =~= queued_messages(q));
    } else {
        let prefix = steps.drop_last();
        let last = steps.last();
        let n = prefix.len() as int;
        assert(last == steps[n]);
        lemma_ran_prefix(steps, t0, q0, t, q, max);
        lemma_ran_conserves_messages(prefix, t0, q0, last.table, last.queue, max);
        assert(step_ok(steps[n], max));
        assert(step_done(last, t, q));
        lemma_step_conserves_messages(last, t, q, max);
        assert(sent_messages(steps) == sent_messages(prefix).add(last.left.outbox().to_multiset()));
        assert(handed_messages(steps) == handed_messages(prefix).add(
            match last.message {
                Some(m) => Multiset::singleton(m),
                None => Multiset::empty(),
            },
        ));
        let x = match last.message {
            Some(m) => Multiset::singleton(m),
            None => Multiset::empty(),
        };
        lemma_add_shuffle(
            queued_messages(q0),
            sent_messages(prefix),
            last.left.outbox().to_multiset(),
            queued_messages(last.queue),
            handed_messages(prefix),
            queued_messages(q),
            x,
        );
    }
}

/// Every message handed over in a run was due by `max`.
proof fn lemma_handed_due<P>(steps: Seq<Step<P>>, max: u64)
    requires
        forall|k: int| 0 <= k < steps.len() ==> #[trigger] step_ok(steps[k], max),
    ensures
        forall|m: Message<P>| #[trigger] handed_messages(steps).count(m) > 0 ==> m.timestamp <= max,
    decreases steps.len(),
{
    broadcast use vstd::multiset::group_multiset_axioms;

    if steps.len() > 0 {
        let prefix = steps.drop_last();
        assert forall|k: int| 0 <= k < prefix.len() implies #[trigger] step_ok(prefix[k], max) by {
            assert(prefix[k] == steps[k]);
            assert(step_ok(steps[k], max));
        }
        lemma_handed_due(prefix, max);
        assert(step_ok(steps[steps.len() - 1], max));
        assert(steps.last() == steps[steps.len() - 1]);
        let x = match steps.last().message {
            Some(m) => Multiset::singleton(m),
            None => Multiset::empty(),
        };
        assert(handed_messages(steps) == handed_messages(prefix).add(x));
        assert forall|m: Message<P>| #[trigger] handed_messages(steps).count(m) > 0 implies m.timestamp <= max by {
            assert(handed_messages(steps).count(m) == handed_messages(prefix).count(m) + x.count(m));
            if x.count(m) > 0 {
                assert(steps.last().message == Some(m));
            }
        }
    }
}

/// A run that succeeded handed every message that was due by `max`, both
/// those queued at the start and those the nodes sent, to a handler, each
/// exactly as often as it was queued; and it handed over nothing else.
pub proof fn lemma_run_hands_every_due_message<P>(
    steps: Seq<Step<P>>,
    t0: Seq<NodeEntry<P>>,
    q0: Seq<(u64, Message<P>)>,
    t: Seq<NodeEntry<P>>,
    q: Seq<(u64, Message<P>)>,
    max: u64,
)
    requires
        run_outcome(Ok(()), steps, t0, q0, t, q, max),
    ensures
        forall|m: Message<P>|
            m.timestamp <= max ==> #[trigger] handed_messages(steps).count(m) == queued_messages(q0).add(
                sent_messages(steps),
            ).count(m),
        forall|m: Message<P>| #[trigger] handed_messages(steps).count(m) > 0 ==> m.timestamp <= max,
{
    broadcast use vstd::multiset::group_multiset_axioms;

    let e = choose|e: Seq<(u64, Message<P>)>| ran(steps, t0, q0, t, e, max) && #[trigger] dropped_rest(e, q, max);
    lemma_ran_conserves_messages(steps, t0, q0, t, e, max);
    assert forall|k: int| 0 <= k < steps.len() implies #[trigger] step_ok(steps[k], max) by {}
    lemma_handed_due(steps, max);
    let f = |x: (u64, Message<P>)| x.1;
    assert forall|m: Message<P>| m.timestamp <= max implies #[trigger] handed_messages(steps).count(m) == queued_messages(
        q0,
    ).add(sent_messages(steps)).count(m) by {
        e.map_values(f).to_multiset_ensures();
        if queued_messages(e).count(m) > 0 {
            assert(e.map_values(f).contains(m));
            let j = choose|j: int| 0 <= j < e.map_values(f).len() && e.map_values(f)[j] == m;
            assert(e[j].1 == m);
            if e.len() > 0 {
                let m2 = choose|m2: Message<P>| m2.timestamp > max && #[trigger] popped_first(e, q, m2);
                let i = choose|i: int|
                    0 <= i < e.len() && #[trigger] e[i].1 == m2 && q == e.remove(i) && forall|j: int|
                        0 <= j < e.len() ==> dispatched_no_later(e[i], #[trigger] e[j]);
                assert(dispatched_no_later(e[i], e[j]));
            }
        }
        assert(queued_messages(q0).add(sent_messages(steps)).count(m) == queued_messages(e).add(handed_messages(steps)).count(m));
    }
}

/// A run keeps the registered identities, and hands every message to a node
/// registered for its destination.
proof fn lemma_handed_registered<P>(
    steps: Seq<Step<P>>,
    t0: Seq<NodeEntry<P>>,
    q0: Seq<(u64, Message<P>)>,
    t: Seq<NodeEntry<P>>,
    q: Seq<(u64, Message<P>)>,
    max: u64,
)
    requires
        ran(steps, t0, q0, t, q, max),
    ensures
        table_ids(t) == table_ids(t0),
        forall|m: Message<P>| #[trigger] handed_messages(steps).count(m) > 0 ==> table_ids(t0).contains(m.dest),
    decreases steps.len(),
{
    broadcast use vstd::multiset::group_multiset_axioms;

    if steps.len() > 0 {
        let prefix = steps.drop_last();
        let last = steps.last();
        lemma_ran_prefix(steps, t0, q0, t, q, max);
        lemma_handed_registered(prefix, t0, q0, last.table, last.queue, max);
        let n = prefix.len() as int;
        assert(last == steps[n]);
        assert(step_ok(steps[n], max));
        assert(step_done(last, t, q));
        let i = last.index;
        assert(last.handed.node_id() == last.table[i].0.node_id());
        assert(table_ids(t) =~= table_ids(last.table)) by {
            assert forall|j: int| 0 <= j < t.len() implies t[j].0.node_id() == last.table[j].0.node_id() by {
                if j != i {
                    assert(t[j] == last.table[j]);
                }
            }
        }
        let x = match last.message {
            Some(m) => Multiset::singleton(m),
            None => Multiset::empty(),
        };
        assert(handed_messages(steps) == handed_messages(prefix).add(x));
        assert forall|m: Message<P>| #[trigger] handed_messages(steps).count(m) > 0 implies table_ids(t0).contains(m.dest) by {
            assert(handed_messages(steps).count(m) == handed_messages(prefix).count(m) + x.count(m));
            if x.count(m) > 0 {
                assert(last.message == Some(m));
                assert(first_at(last.table, m.dest, i));
                assert(table_ids(last.table)[i] == m.dest);
            }
        }
    }
}

/// A run does not succeed while a message due by `max` waits in the queue
/// for a node that is not registered: it stops with an error.
pub proof fn lemma_run_stops_on_unknown_destination<P>(
    r: Result<(), SimError>,
    steps: Seq<Step<P>>,
    t0: Seq<NodeEntry<P>>,
    q0: Seq<(u64, Message<P>)>,
    t: Seq<NodeEntry<P>>,
    q: Seq<(u64, Message<P>)>,
    max: u64,
    m: Message<P>,
)
    requires
        run_outcome(r, steps, t0, q0, t, q, max),
        queued_messages(q0).count(m) > 0,
        m.timestamp <= max,
        !table_ids(t0).contains(m.dest),
    ensures
        r is Err,
{
    broadcast use vstd::multiset::group_multiset_axioms;

    if r is Ok {
        lemma_run_hands_every_due_message(steps, t0, q0, t, q, max);
        let e = choose|e: Seq<(u64, Message<P>)>| ran(steps, t0, q0, t, e, max) && #[trigger] dropped_rest(e, q, max);
        lemma_handed_registered(steps, t0, q0, t, e, max);
        assert(handed_messages(steps).count(m) == queued_messages(q0).add(sent_messages(steps)).count(m));
    }
}

/// The time at which step `k` of `steps` handed its message over (`0` for
/// an `init`).
pub open spec fn handed_at<P>(steps: Seq<Step<P>>, k: int) -> u64 {
    match steps[k].message {
        Some(m) => m.timestamp,
        None => 0,
    }
}

/// Once the first `n` steps, the `init`s of the `n` nodes, are taken, every
/// node has handed its messages to the queue, at every later step too.
proof fn lemma_flushed_after_inits<P>(
    steps: Seq<Step<P>>,
    t0: Seq<NodeEntry<P>>,
    q0: Seq<(u64, Message<P>)>,
    t: Seq<NodeEntry<P>>,
    q: Seq<(u64, Message<P>)>,
    max: u64,
)
    requires
        ran(steps, t0, q0, t, q, max),
        inits_first(steps, t0.len()),
    ensures
        t.len() == t0.len(),
        forall|j: int| 0 <= j < steps.len() && j < t0.len() ==> (#[trigger] t[j]).0.outbox().len() == 0,
        steps.len() >= t0.len() ==> all_flushed(t),
        forall|k: int| t0.len() <= k < steps.len() ==> all_flushed(#[trigger] steps[k].table),
    decreases steps.len(),
{
    lemma_handed_registered(steps, t0, q0, t, q, max);
    assert(t.len() == table_ids(t).len());
    if steps.len() > 0 {
        let prefix = steps.drop_last();
        let last = steps.last();
        let n = prefix.len() as int;
        lemma_ran_prefix(steps, t0, q0, t, q, max);
        assert(inits_first(prefix, t0.len())) by {
            assert forall|k: int| 0 <= k < prefix.len() && k < t0.len() implies (#[trigger] prefix[k]).message is None && prefix[k].index == k by {
                assert(prefix[k] == steps[k]);
            }
            assert forall|k: int| t0.len() <= k < prefix.len() implies (#[trigger] prefix[k]).message is Some by {
                assert(prefix[k] == steps[k]);
            }
        }
        lemma_flushed_after_inits(prefix, t0, q0, last.table, last.queue, max);
        assert(last == steps[n]);
        assert(step_ok(steps[n], max));
        assert(step_done(last, t, q));
        let i = last.index;
        assert forall|j: int| 0 <= j < steps.len() && j < t0.len() implies (#[trigger] t[j]).0.outbox().len() == 0 by {
            if j != i {
                assert(t[j] == last.table[j]);
            }
        }
        if n >= t0.len() {
            assert forall|j: int| 0 <= j < t.len() implies (#[trigger] t[j]).0.outbox().len() == 0 by {
                if j != i {
                    assert(t[j] == last.table[j]);
                }
            }
        }
        assert forall|k: int| t0.len() <= k < steps.len() implies all_flushed(#[trigger] steps[k].table) by {
            if k < n {
                assert(steps[k] == prefix[k]);
            } else {
                assert(all_flushed(last.table));
            }
        }
    }
}

/// After a message stamped `ts` is handed to a node with nothing left to
/// send, every message in the queue is stamped at or after `ts`.
proof fn lemma_dispatch_floor<P>(s: Step<P>, t: Seq<NodeEntry<P>>, q: Seq<(u64, Message<P>)>, max: u64, m: Message<P>)
    requires
        step_ok(s, max),
        step_done(s, t, q),
        s.message == Some(m),
        all_flushed(s.table),
    ensures
        all_at_or_after(q, m.timestamp),
{
    lemma_dispatch_in_time_order(s.queue, s.popped, m, 0);
    let i = s.index;
    assert(s.handed.outbox().len() == 0) by {
        assert(s.table[i].0.outbox().len() == 0);
    }
    let pl = s.popped.len() as int;
    assert forall|j: int| 0 <= j < q.len() implies (#[trigger] q[j]).1.timestamp >= m.timestamp by {
        if j < pl {
            assert(q.subrange(0, pl)[j] == q[j]);
        } else {
            assert(q[pl + (j - pl)].1 == s.left.outbox()[j - pl]);
        }
    }
}

/// After the `init`s, messages are handed over in the order of their
/// timestamps: never one stamped earlier than a message handed before it.
pub proof fn lemma_handed_in_time_order<P>(
    steps: Seq<Step<P>>,
    t0: Seq<NodeEntry<P>>,
    q0: Seq<(u64, Message<P>)>,
    t: Seq<NodeEntry<P>>,
    q: Seq<(u64, Message<P>)>,
    max: u64,
)
    requires
        ran(steps, t0, q0, t, q, max),
        inits_first(steps, t0.len()),
    ensures
        forall|k1: int, k2: int|
            t0.len() <= k1 < k2 < steps.len() ==> #[trigger] handed_at(steps, k1) <= #[trigger] handed_at(steps, k2),
        steps.len() > t0.len() ==> all_at_or_after(q, handed_at(steps, steps.len() - 1)),
    decreases steps.len(),
{
    if steps.len() > t0.len() {
        let prefix = steps.drop_last();
        let last = steps.last();
        let n = prefix.len() as int;
        lemma_ran_prefix(steps, t0, q0, t, q, max);
        assert(inits_first(prefix, t0.len())) by {
            assert forall|k: int| 0 <= k < prefix.len() && k < t0.len() implies (#[trigger] prefix[k]).message is None && prefix[k].index == k by {
                assert(prefix[k] == steps[k]);
            }
            assert forall|k: int| t0.len() <= k < prefix.len() implies (#[trigger] prefix[k]).message is Some by {
                assert(prefix[k] == steps[k]);
            }
        }
        lemma_handed_in_time_order(prefix, t0, q0, last.table, last.queue, max);
        lemma_flushed_after_inits(steps, t0, q0, t, q, max);
        assert(last == steps[n]);
        assert(step_ok(steps[n], max));
        assert(step_done(last, t, q));
        let m = last.message->0;
        assert(last.message is Some);
        assert(all_flushed(steps[n].table));
        lemma_dispatch_floor(last, t, q, max, m);
        assert(handed_at(steps, n) == m.timestamp);
        if n > t0.len() {
            assert(all_at_or_after(last.queue, handed_at(prefix, n - 1)));
            lemma_dispatch_in_time_order(last.queue, last.popped, m, handed_at(prefix, n - 1));
            assert forall|k1: int, k2: int| t0.len() <= k1 < k2 < steps.len() implies #[trigger] handed_at(steps, k1) <= #[trigger] handed_at(steps, k2) by {
                assert(handed_at(steps, k1) == handed_at(prefix, k1));
                if k2 < n {
                    assert(handed_at(steps, k2) == handed_at(prefix, k2));
                } else {
                    assert(handed_at(steps, n - 1) == handed_at(prefix, n - 1));
                    if k1 < n - 1 {
                        assert(handed_at(prefix, k1) <= handed_at(prefix, n - 1));
                    }
                }
            }
        }
    }
}

/// Rearranging sums of multisets: from `a + s == l + h` and
/// `l + o == q + x`, `a + (s + o) == q + (h + x)`.
proof fn lemma_add_shuffle<A>(
    a: Multiset<A>,
    s: Multiset<A>,
    o: Multiset<A>,
    l: Multiset<A>,
    h: Multiset<A>,
    q: Multiset<A>,
    x: Multiset<A>,
)
    requires
        a.add(s) == l.add(h),
        l.add(o) == q.add(x),
    ensures
        a.add(s.add(o)) == q.add(h.add(x)),
{
    broadcast use vstd::multiset::group_multiset_axioms;

    assert(a.add(s.add(o)) =~= q.add(h.add(x))) by {
        assert forall|v: A| #[trigger] a.add(s.add(o)).count(v) == q.add(h.add(x)).count(v) by {
            assert(a.add(s).count(v) == l.add(h).count(v));
            assert(l.add(o).count(v) == q.add(x).count(v));
            assert(a.add(s).count(v) == a.count(v) + s.count(v));
            assert(l.add(h).count(v) == l.count(v) + h.count(v));
            assert(l.add(o).count(v) == l.count(v) + o.count(v));
            assert(q.add(x).count(v) == q.count(v) + x.count(v));
            assert(s.add(o).count(v) == s.count(v) + o.count(v));
            assert(h.add(x).count(v) == h.count(v) + x.count(v));
        }
    }
}

/// A run of several steps is, without its last step, a run up to where
/// that step started.
#[verifier::spinoff_prover]
proof fn lemma_ran_prefix<P>(
    steps: Seq<Step<P>>,
    t0: Seq<NodeEntry<P>>,
    q0: Seq<(u64, Message<P>)>,
    t: Seq<NodeEntry<P>>,
    q: Seq<(u64, Message<P>)>,
    max: u64,
)
    requires
        ran(steps, t0, q0, t, q, max),
        steps.len() > 0,
    ensures
        ran(steps.drop_last(), t0, q0, steps.last().table, steps.last().queue, max),
{
    let prefix = steps.drop_last();
    let last = steps.last();
    assert forall|k: int| 0 <= k < prefix.len() implies step_ok(#[trigger] prefix[k], max) && step_done(
        prefix[k],
        next_table(prefix, k, last.table),
        next_queue(prefix, k, last.queue),
    ) by {
        assert(prefix[k] == steps[k]);
        assert(step_ok(steps[k], max) && step_done(steps[k], next_table(steps, k, t), next_queue(steps, k, q)));
        assert(next_table(prefix, k, last.table) == next_table(steps, k, t));
        assert(next_queue(prefix, k, last.queue) == next_queue(steps, k, q));
    }
    if prefix.len() > 0 {
        assert(prefix[0] == steps[0]);
    }
}

/// One step: the queue before it and what the node put in the queue are
/// the queue after it and the message handed over, if any.
proof fn lemma_step_conserves_messages<P>(s: Step<P>, t: Seq<NodeEntry<P>>, q: Seq<(u64, Message<P>)>, max: u64)
    requires
        step_ok(s, max),
        step_done(s, t, q),
    ensures
        queued_messages(s.queue).add(s.left.outbox().to_multiset()) == queued_messages(q).add(
            match s.message {
                Some(m) => Multiset::singleton(m),
                None => Multiset::empty(),
            },
        ),
{
    broadcast use vstd::multiset::group_multiset_axioms;
    broadcast use vstd::seq_lib::to_multiset_remove;

    let f = |e: (u64, Message<P>)| e.1;
    let out = s.left.outbox();
    let pl = s.popped.len() as int;
    assert(q.map_values(f) =~= s.popped.map_values(f) + out) by {
        assert forall|j: int| 0 <= j < q.len() implies q.map_values(f)[j] == (s.popped.map_values(f) + out)[j] by {
            if j < pl {
                assert(q.subrange(0, pl)[j] == q[j]);
            } else {
                assert(q[pl + (j - pl)].1 == out[j - pl]);
            }
        }
    }
    vstd::seq_lib::lemma_multiset_commutative(s.popped.map_values(f), out);
    match s.message {
        Some(m) => {
            let i = choose|i: int|
                0 <= i < s.queue.len() && #[trigger] s.queue[i].1 == m && s.popped == s.queue.remove(i)
                    && forall|j: int| 0 <= j < s.queue.len() ==> dispatched_no_later(s.queue[i], #[trigger] s.queue[j]);
            assert(s.queue.remove(i).map_values(f) =~= s.queue.map_values(f).remove(i));
            assert(s.queue.map_values(f)[i] == m);
            assert(queued_messages(s.popped) == queued_messages(s.queue).remove(m));
            assert(queued_messages(s.queue).count(m) > 0) by {
                s.queue.map_values(f).to_multiset_ensures();
                assert(s.queue.map_values(f).contains(m));
            }
            assert(queued_messages(s.queue).add(out.to_multiset()) =~= queued_messages(q).add(Multiset::singleton(m)));
        },
        None => {
            assert(queued_messages(s.queue).add(out.to_multiset()) =~= queued_messages(q).add(Multiset::empty()));
        },
    }
}

/// Dispatch never goes back in time: when every queued message is stamped
/// at or after `floor`, the message taken next is stamped at or after
/// `floor`, and every message left in the queue at or after it.
pub proof fn lemma_dispatch_in_time_order<P>(
    before: Seq<(u64, Message<P>)>,
    after: Seq<(u64, Message<P>)>,
    m: Message<P>,
    floor: u64,
)
    requires
        all_at_or_after(before, floor),
        popped_first(before, after, m),
    ensures
        m.timestamp >= floor,
        all_at_or_after(after, m.timestamp),
{
    let k = choose|k: int|
        0 <= k < before.len() && #[trigger] before[k].1 == m && after == before.remove(k) && forall|j: int|
            0 <= j < before.len() ==> dispatched_no_later(before[k], #[trigger] before[j]);
    assert(before[k].1.timestamp >= floor);
    assert forall|j: int| 0 <= j < after.len() implies (#[trigger] after[j]).1.timestamp >= m.timestamp by {
        if j < k {
            assert(after[j] == before[j]);
            assert(dispatched_no_later(before[k], before[j]));
        } else {
            assert(after[j] == before[j + 1]);
            assert(dispatched_no_later(before[k], before[j + 1]));
        }
    }
}

/// Lets node `i` run its `init` hook; its messages stay in its outbox. A
/// node whose clock is past `CLOCK_LIMIT` is not run.
pub fn bootstrap_node<P>(nodes: &mut Vec<NodeEntry<P>>, i: usize) -> (r: Result<(), SimError>)
    requires
        i < old(nodes)@.len(),
    ensures
        final(nodes)@.len() == old(nodes)@.len(),
        forall|j: int| 0 <= j < old(nodes)@.len() && j != i ==> #[trigger] final(nodes)@[j] == old(nodes)@[j],
        r is Err <==> old(nodes)@[i as int].0.clock() > CLOCK_LIMIT,
        r is Err ==> r == Err::<(), SimError>(SimError::ClockLimit(old(nodes)@[i as int].0.node_id())) && final(nodes)@ == old(nodes)@,
        r is Ok ==> final(nodes)@[i as int].0.follows(&old(nodes)@[i as int].0),
        r is Ok ==> old(nodes)@[i as int].1.init_spec(old(nodes)@[i as int].0, final(nodes)@[i as int].0),
{
    let mut entry = nodes.remove(i);
    let id = entry.0.id();
    if entry.0.time() > CLOCK_LIMIT {
        nodes.insert(i, entry);
        proof {
            assert(nodes@ =~= old(nodes)@);
        }
        return Err(SimError::ClockLimit(id));
    }
    entry.1.init(&mut entry.0);
    nodes.insert(i, entry);
    Ok(())
}

/// Moves node `i`'s outbox into the queue.
pub fn flush_node<P: Hash>(nodes: &mut Vec<NodeEntry<P>>, i: usize, queue: &mut MessageQueue<P>)
    requires
        i < old(nodes)@.len(),
    ensures
        final(nodes)@.len() == old(nodes)@.len(),
        forall|j: int| 0 <= j < old(nodes)@.len() && j != i ==> #[trigger] final(nodes)@[j] == old(nodes)@[j],
        final(nodes)@[i as int].0.outbox().len() == 0,
        final(nodes)@[i as int].0.clock() == old(nodes)@[i as int].0.clock(),
        final(nodes)@[i as int].0.node_id() == old(nodes)@[i as int].0.node_id(),
        final(queue).entries().len() == old(queue).entries().len() + old(nodes)@[i as int].0.outbox().len(),
        final(queue).entries().subrange(0, old(queue).entries().len() as int) == old(queue).entries(),
        forall|k: int|
            0 <= k < old(nodes)@[i as int].0.outbox().len() ==> (#[trigger] final(queue).entries()[old(queue).entries().len() + k]).1 == old(nodes)@[i as int].0.outbox()[k],
        final(nodes)@[i as int].1 == old(nodes)@[i as int].1,
{
    let mut entry = nodes.remove(i);
    entry.0.flush_messages(queue);
    nodes.insert(i, entry);
}

/// Takes the message to dispatch next off the queue. `None` when the queue
/// is empty or the next message is due after `max_simulation_time`; that
/// message is dropped.
pub fn next_message<P: Hash>(queue: &mut MessageQueue<P>, max_simulation_time: u64) -> (r: Option<Message<P>>)
    ensures
        r is None ==> all_after(final(queue).entries(), max_simulation_time),
        r is None ==> (old(queue).entries().len() == 0 && final(queue).entries() == old(queue).entries()) || exists|m: Message<P>|
            m.timestamp > max_simulation_time && #[trigger] popped_first(old(queue).entries(), final(queue).entries(), m),
        r matches Some(m) ==> m.timestamp <= max_simulation_time && popped_first(old(queue).entries(), final(queue).entries(), m),
{
    match queue.pop() {
        None => None,
        Some(message) => {
            if message.timestamp > max_simulation_time {
                proof {
                    let i = choose|i: int|
                        0 <= i < old(queue).entries().len() && #[trigger] old(queue).entries()[i].1 == message
                            && queue.entries() == old(queue).entries().remove(i) && forall|j: int|
                            0 <= j < old(queue).entries().len() ==> dispatched_no_later(
                                old(queue).entries()[i],
                                #[trigger] old(queue).entries()[j],
                            );
                    assert forall|j: int| 0 <= j < queue.entries().len() implies (#[trigger] queue.entries()[j]).1.timestamp > max_simulation_time by {
                        if j < i {
                            assert(queue.entries()[j] == old(queue).entries()[j]);
                            assert(dispatched_no_later(old(queue).entries()[i], old(queue).entries()[j]));
                        } else {
                            assert(queue.entries()[j] == old(queue).entries()[j + 1]);
                            assert(dispatched_no_later(old(queue).entries()[i], old(queue).entries()[j + 1]));
                        }
                    }
                }
                None
            } else {
                Some(message)
            }
        },
    }
}

/// Finds the destination of `msg` (the first node registered under its
/// identity) and brings its clock up to the arrival time. Fails for an
/// unregistered destination, and for a clock past `CLOCK_LIMIT`.
pub fn receive<P>(nodes: &mut Vec<NodeEntry<P>>, msg: &Message<P>) -> (r: Result<usize, SimError>)
    ensures
        final(nodes)@.len() == old(nodes)@.len(),
        (r == Err::<usize, SimError>(SimError::UnknownDestination(msg.dest))) <==> !table_ids(old(nodes)@).contains(msg.dest),
        !table_ids(old(nodes)@).contains(msg.dest) ==> final(nodes)@ == old(nodes)@,
        r is Err ==> r == Err::<usize, SimError>(SimError::UnknownDestination(msg.dest)) || r == Err::<usize, SimError>(SimError::ClockLimit(msg.dest)),
        r matches Ok(i) ==> {
            &&& i < old(nodes)@.len()
            &&& old(nodes)@[i as int].0.node_id() == msg.dest
            &&& forall|j: int| 0 <= j < i ==> (#[trigger] old(nodes)@[j]).0.node_id() != msg.dest
            &&& final(nodes)@[i as int].0.clock() == later(old(nodes)@[i as int].0.clock(), msg.timestamp)
            &&& final(nodes)@[i as int].0.clock() <= CLOCK_LIMIT
            &&& forall|j: int| 0 <= j < old(nodes)@.len() && j != i ==> #[trigger] final(nodes)@[j] == old(nodes)@[j]
        },
        r matches Ok(i) ==> first_at(old(nodes)@, msg.dest, i as int) && received(old(nodes)@[i as int].0, *msg, final(nodes)@[i as int].0)
            && final(nodes)@[i as int].1 == old(nodes)@[i as int].1 && same_except(final(nodes)@, old(nodes)@, i as int),
        r == Err::<usize, SimError>(SimError::ClockLimit(msg.dest)) ==> exists|i: int|
            #[trigger] first_at(old(nodes)@, msg.dest, i) && received(old(nodes)@[i].0, *msg, final(nodes)@[i].0)
                && final(nodes)@[i].0.clock() > CLOCK_LIMIT && final(nodes)@[i].1 == old(nodes)@[i].1 && same_except(final(nodes)@, old(nodes)@, i),
        forall|i: int| #[trigger] first_at(old(nodes)@, msg.dest, i) && later(old(nodes)@[i].0.clock(), msg.timestamp) <= CLOCK_LIMIT ==> r == Ok::<usize, SimError>(i as usize),
        forall|j: int| #![trigger final(nodes)@[j]]
            0 <= j < old(nodes)@.len() ==> {
                &&& final(nodes)@[j].0.node_id() == old(nodes)@[j].0.node_id()
                &&& final(nodes)@[j].0.outbox() == old(nodes)@[j].0.outbox()
                &&& final(nodes)@[j].1 == old(nodes)@[j].1
                &&& final(nodes)@[j].0.clock() >= old(nodes)@[j].0.clock()
                &&& (final(nodes)@[j].0.clock() == old(nodes)@[j].0.clock() || final(nodes)@[j].0.clock() == msg.timestamp)
            },
{
    match find_node(nodes, msg.dest) {
        None => {
            proof {
                if table_ids(old(nodes)@).contains(msg.dest) {
                    let k = choose|k: int| 0 <= k < table_ids(old(nodes)@).len() && table_ids(old(nodes)@)[k] == msg.dest;
                    assert(old(nodes)@[k].0.node_id() == msg.dest);
                }
            }
            Err(SimError::UnknownDestination(msg.dest))
        },
        Some(i) => {
            proof {
                assert(table_ids(old(nodes)@)[i as int] == msg.dest);
            }
            let mut entry = nodes.remove(i);
            entry.0.pre_process_message(msg);
            let late = entry.0.time() > CLOCK_LIMIT;
            let ghost e = entry;
            nodes.insert(i, entry);
            proof {
                assert(nodes@[i as int] == e);
                assert forall|j: int| 0 <= j < old(nodes)@.len() && j != i implies #[trigger] nodes@[j] == old(nodes)@[j] by {
                }
            }
            if late {
                proof {
                    assert(first_at(old(nodes)@, msg.dest, i as int));
                    assert(same_except(nodes@, old(nodes)@, i as int));
                }
                Err(SimError::ClockLimit(msg.dest))
            } else {
                Ok(i)
            }
        },
    }
}

/// Hands `msg` to the handler of node `i`.
pub fn handle<P>(nodes: &mut Vec<NodeEntry<P>>, i: usize, msg: Message<P>) -> (r: Result<(), SimError>)
    requires
        i < old(nodes)@.len(),
        old(nodes)@[i as int].0.clock() <= CLOCK_LIMIT,
    ensures
        final(nodes)@.len() == old(nodes)@.len(),
        forall|j: int| 0 <= j < old(nodes)@.len() && j != i ==> #[trigger] final(nodes)@[j] == old(nodes)@[j],
        final(nodes)@[i as int].0.follows(&old(nodes)@[i as int].0),
        r matches Err(e) ==> e matches SimError::Handler(d, _) && d == old(nodes)@[i as int].0.node_id(),
        old(nodes)@[i as int].1.handle_spec(old(nodes)@[i as int].0, msg, final(nodes)@[i as int].0, handler_result(r)),
{
    let mut entry = nodes.remove(i);
    let id = entry.0.id();
    let ghost before = entry.0;
    let result = entry.1.handle_message(&mut entry.0, msg);
    let ghost after = entry.0;
    nodes.insert(i, entry);
    proof {
        assert(nodes@[i as int].0 == after);
        assert(old(nodes)@[i as int].1.handle_spec(before, msg, after, result));
    }
    match result {
        Ok(u) => Ok(u),
        Err(e) => Err(SimError::Handler(id, e)),
    }
}

/// `n` is a node `id` as registered: clock at zero, nothing sent.
pub open spec fn fresh_node<P>(n: Node<P>, id: NodeID) -> bool {
    n.node_id() == id && n.clock() == 0 && n.outbox().len() == 0
}

/// Puts `entry` in the table: in place of the first node registered under
/// its identity if there is one, else at the end.
pub fn register_node<P>(nodes: &mut Vec<NodeEntry<P>>, entry: NodeEntry<P>)
    ensures
        table_ids(old(nodes)@).contains(entry.0.node_id()) ==> exists|i: int|
            0 <= i < old(nodes)@.len() && (#[trigger] old(nodes)@[i]).0.node_id() == entry.0.node_id()
                && (forall|j: int| 0 <= j < i ==> (#[trigger] old(nodes)@[j]).0.node_id() != entry.0.node_id())
                && final(nodes)@ == old(nodes)@.update(i, entry),
        !table_ids(old(nodes)@).contains(entry.0.node_id()) ==> final(nodes)@ == old(nodes)@.push(entry),
{
    let id = entry.0.id();
    match find_node(nodes, id) {
        Some(i) => {
            proof {
                assert(table_ids(old(nodes)@)[i as int] == id);
            }
            nodes.set(i, entry);
        },
        None => {
            proof {
                if table_ids(old(nodes)@).contains(id) {
                    let k = choose|k: int| 0 <= k < table_ids(old(nodes)@).len() && table_ids(old(nodes)@)[k] == id;
                    assert(old(nodes)@[k].0.node_id() == id);
                }
            }
            nodes.push(entry);
        },
    }
}

/// Recording one more step keeps the inits first, as long as the step after
/// the first `n` is a dispatch.
proof fn lemma_inits_push<P>(log: Seq<Step<P>>, n: nat, s: Step<P>)
    requires
        inits_first(log, n),
        log.len() >= n,
        s.message is Some,
    ensures
        inits_first(log.push(s), n),
{
    let all = log.push(s);
    assert forall|k: int| 0 <= k < all.len() && k < n implies (#[trigger] all[k]).message is None && all[k].index == k by {
        assert(all[k] == log[k]);
    }
    assert forall|k: int| n <= k < all.len() implies (#[trigger] all[k]).message is Some by {
        if k < log.len() {
            assert(all[k] == log[k]);
        }
    }
}

/// When the message that goes first is taken from a queue whose messages
/// are all due after `max`, it is due after `max` too.
proof fn lemma_first_due_after<P>(q: Seq<(u64, Message<P>)>, rest: Seq<(u64, Message<P>)>, m: Message<P>, max: u64)
    requires
        all_after(q, max),
        popped_first(q, rest, m),
    ensures
        m.timestamp > max,
{
    let k = choose|k: int|
        0 <= k < q.len() && #[trigger] q[k].1 == m && rest == q.remove(k) && forall|j: int|
            0 <= j < q.len() ==> dispatched_no_later(q[k], #[trigger] q[j]);
    assert(q[k].1.timestamp > max);
}

/// After the message that goes first, stamped `t`, was taken from `qb`
/// (leaving `q1`) and the messages it caused were appended (giving `q2`),
/// every queued message is stamped at or after `t`, and if `t` is still
/// `floor`, fewer messages are stamped `floor` than before.
proof fn lemma_queue_advances<P>(
    qb: Seq<(u64, Message<P>)>,
    q1: Seq<(u64, Message<P>)>,
    q2: Seq<(u64, Message<P>)>,
    m: Message<P>,
    floor: u64,
)
    requires
        all_at_or_after(qb, floor),
        popped_first(qb, q1, m),
        q2.len() >= q1.len(),
        q2.subrange(0, q1.len() as int) == q1,
        forall|k: int| q1.len() <= k < q2.len() ==> (#[trigger] q2[k]).1.timestamp >= m.timestamp + MESSAGE_DELAY,
    ensures
        m.timestamp >= floor,
        all_at_or_after(q2, m.timestamp),
        m.timestamp == floor ==> count_at(q2, floor) < count_at(qb, floor),
{
    let t = m.timestamp;
    lemma_dispatch_in_time_order(qb, q1, m, floor);
    let suffix = q2.subrange(q1.len() as int, q2.len() as int);
    assert(q2 =~= q1 + suffix) by {
        assert forall|j: int| 0 <= j < q1.len() implies q2[j] == q1[j] by {
            assert(q2.subrange(0, q1.len() as int)[j] == q2[j]);
        }
    }
    assert forall|j: int| 0 <= j < suffix.len() implies (#[trigger] suffix[j]).1.timestamp != t by {
        assert(suffix[j] == q2[q1.len() + j]);
    }
    lemma_count_none(suffix, t);
    lemma_count_concat(q1, suffix, t);
    assert forall|j: int| 0 <= j < q2.len() implies (#[trigger] q2[j]).1.timestamp >= t by {
        if j < q1.len() {
            assert(q2[j] == q1[j]);
        } else {
            assert(q2[j] == suffix[j - q1.len()]);
        }
    }
    if t == floor {
        let k = choose|k: int|
            0 <= k < qb.len() && #[trigger] qb[k].1 == m && q1 == qb.remove(k) && forall|j: int|
                0 <= j < qb.len() ==> dispatched_no_later(qb[k], #[trigger] qb[j]);
        lemma_count_remove(qb, k, floor);
    }
}

/// Lets every node run its `init` hook, flushing its messages after it, then
/// dispatches messages in (timestamp, hash) order until the queue is empty or
/// the next message is due after `max_simulation_time`. Returns the result
/// with the record of the steps taken.
#[verifier::spinoff_prover]
pub fn run<P: Hash>(
    nodes: &mut Vec<NodeEntry<P>>,
    message_queue: &mut MessageQueue<P>,
    max_simulation_time: u64,
) -> (out: (Result<(), SimError>, Ghost<Seq<Step<P>>>))
    ensures
        run_outcome(out.0, out.1@, old(nodes)@, old(message_queue).entries(), final(nodes)@, final(message_queue).entries(), max_simulation_time),
        table_progressed(final(nodes)@, old(nodes)@),
        out.0 is Ok ==> all_flushed(final(nodes)@),
        out.0 is Ok ==> all_after(final(message_queue).entries(), max_simulation_time),
        out.0 matches Err(SimError::UnknownDestination(d)) ==> !table_ids(final(nodes)@).contains(d),
        out.0 matches Err(SimError::ClockLimit(d)) ==> table_ids(final(nodes)@).contains(d),
        out.0 matches Err(SimError::Handler(d, _)) ==> table_ids(final(nodes)@).contains(d),
{
    let ghost t0 = nodes@;
    let ghost q0 = message_queue.entries();
    let ghost max = max_simulation_time;
    let ghost mut log: Seq<Step<P>> = Seq::empty();
    let mut i: usize = 0;
    while i < nodes.len()
        invariant
            i <= nodes@.len(),
            nodes@.len() == t0.len(),
            t0 == old(nodes)@,
            q0 == old(message_queue).entries(),
            max == max_simulation_time,
            table_progressed(nodes@, old(nodes)@),
            forall|j: int| 0 <= j < i ==> (#[trigger] nodes@[j]).0.outbox().len() == 0,
            log.len() == i,
            inits_first(log, t0.len()),
            ran(log, t0, q0, nodes@, message_queue.entries(), max),
        decreases nodes@.len() - i,
    {
        let ghost before = nodes@;
        let ghost qb = message_queue.entries();
        match bootstrap_node(nodes, i) {
            Err(e) => {
                proof {
                    assert(table_ids(nodes@)[i as int] == nodes@[i as int].0.node_id());
                }
                return (Err(e), Ghost(log));
            },
            Ok(()) => {},
        }
        let ghost middle = nodes@;
        flush_node(nodes, i, message_queue);
        proof {
            let st = Step {
                table: before,
                queue: qb,
                index: i as int,
                message: None,
                popped: qb,
                handed: before[i as int].0,
                left: middle[i as int].0,
                outcome: Ok(()),
            };
            assert(same_except(nodes@, before, i as int)) by {
                assert forall|j: int| 0 <= j < nodes@.len() && j != i implies #[trigger] nodes@[j] == before[j] by {
                    assert(nodes@[j] == middle[j]);
                }
            }
            assert(step_done(st, nodes@, message_queue.entries()));
            lemma_ran_push(log, t0, q0, before, qb, st, nodes@, message_queue.entries(), max);
            log = log.push(st);
            assert(inits_first(log, t0.len())) by {
                assert forall|k: int| 0 <= k < log.len() && k < t0.len() implies (#[trigger] log[k]).message is None && log[k].index == k by {
                    if k < i {
                        assert(log[k] == log.drop_last()[k]);
                    }
                }
            }
            assert(middle[i as int].0.follows(&before[i as int].0));
            assert forall|j: int| 0 <= j < nodes@.len() implies (#[trigger] nodes@[j]).0.node_id() == old(nodes)@[j].0.node_id() && nodes@[j].0.clock() >= old(nodes)@[j].0.clock() by {
                assert(before[j].0.node_id() == old(nodes)@[j].0.node_id());
                if j != i {
                    assert(nodes@[j] == before[j]);
                }
            }
            assert forall|j: int| 0 <= j < i + 1 implies (#[trigger] nodes@[j]).0.outbox().len() == 0 by {
                if j < i {
                    assert(nodes@[j] == before[j]);
                }
            }
        }
        i = i + 1;
    }
    let ghost mut floor: u64 = 0;
    loop
        invariant
            nodes@.len() == t0.len(),
            t0 == old(nodes)@,
            q0 == old(message_queue).entries(),
            max == max_simulation_time,
            table_progressed(nodes@, old(nodes)@),
            all_flushed(nodes@),
            all_at_or_after(message_queue.entries(), floor),
            floor <= max_simulation_time,
            log.len() >= t0.len(),
            inits_first(log, t0.len()),
            ran(log, t0, q0, nodes@, message_queue.entries(), max),
            t0.len() == 0 && all_after(q0, max) ==> message_queue.entries() == q0,
        decreases max_simulation_time - floor, count_at(message_queue.entries(), floor),
    {
        let ghost qb = message_queue.entries();
        let message = match next_message(message_queue, max_simulation_time) {
            None => {
                proof {
                    assert(dropped_rest(qb, message_queue.entries(), max));
                }
                return (Ok(()), Ghost(log));
            },
            Some(m) => m,
        };
        let ghost t = message.timestamp;
        let ghost q1 = message_queue.entries();
        proof {
            lemma_dispatch_in_time_order(qb, q1, message, floor);
            if t0.len() == 0 && all_after(q0, max) {
                lemma_first_due_after(q0, q1, message, max);
            }
        }
        let ghost n0 = nodes@;
        let (res, step) = dispatch_step(nodes, message_queue, message, Ghost(qb), Ghost(max));
        match res {
            Err(e) => {
                proof {
                    assert(stopped(e, n0, qb, nodes@, message_queue.entries(), max));
                }
                return (Err(e), Ghost(log));
            },
            Ok(()) => {},
        }
        proof {
            let q2 = message_queue.entries();
            lemma_ran_push(log, t0, q0, n0, qb, step@, nodes@, q2, max);
            lemma_inits_push(log, t0.len(), step@);
            log = log.push(step@);
            assert(q2.subrange(0, q1.len() as int) == q1);
            lemma_queue_advances(qb, q1, q2, message, floor);
            floor = t;
        }
    }
}

/// Dispatches `message`, just taken off the queue `qb` as the message that
/// goes first and due by `max`: its destination receives it, runs its
/// handler on it, and has its outbox flushed. Returns the result with the
/// step taken.
fn dispatch_step<P: Hash>(
    nodes: &mut Vec<NodeEntry<P>>,
    message_queue: &mut MessageQueue<P>,
    message: Message<P>,
    Ghost(qb): Ghost<Seq<(u64, Message<P>)>>,
    Ghost(max): Ghost<u64>,
) -> (out: (Result<(), SimError>, Ghost<Step<P>>))
    requires
        message.timestamp <= max,
        popped_first(qb, old(message_queue).entries(), message),
        all_flushed(old(nodes)@),
    ensures
        table_progressed(final(nodes)@, old(nodes)@),
        out.0 matches Err(e) ==> stopped(e, old(nodes)@, qb, final(nodes)@, final(message_queue).entries(), max),
        out.0 matches Err(SimError::UnknownDestination(d)) ==> !table_ids(final(nodes)@).contains(d),
        out.0 matches Err(SimError::ClockLimit(d)) ==> table_ids(final(nodes)@).contains(d),
        out.0 matches Err(SimError::Handler(d, _)) ==> table_ids(final(nodes)@).contains(d),
        out.0 is Ok ==> {
            &&& out.1@.table == old(nodes)@
            &&& out.1@.queue == qb
            &&& out.1@.message == Some(message)
            &&& out.1@.popped == old(message_queue).entries()
            &&& step_ok(out.1@, max)
            &&& step_done(out.1@, final(nodes)@, final(message_queue).entries())
            &&& all_flushed(final(nodes)@)
            &&& final(message_queue).entries().len() >= old(message_queue).entries().len()
            &&& forall|k: int|
                old(message_queue).entries().len() <= k < final(message_queue).entries().len() ==> (#[trigger] final(message_queue).entries()[k]).1.timestamp >= message.timestamp + MESSAGE_DELAY
        },
{
    let ghost q1 = message_queue.entries();
    let ghost n0 = nodes@;
    let ghost unset = Step {
        table: n0,
        queue: qb,
        index: 0,
        message: Some(message),
        popped: q1,
        handed: n0[0].0,
        left: n0[0].0,
        outcome: Ok(()),
    };
    let i = match receive(nodes, &message) {
        Err(e) => {
            proof {
                assert forall|j: int| 0 <= j < nodes@.len() implies (#[trigger] nodes@[j]).0.node_id() == n0[j].0.node_id() && nodes@[j].0.clock() >= n0[j].0.clock() by {
                    assert(nodes@[j].0.node_id() == n0[j].0.node_id());
                }
                assert(table_ids(nodes@) =~= table_ids(n0));
                assert(dispatch_failed(e, message, n0, nodes@));
            }
            return (Err(e), Ghost(unset));
        },
        Ok(i) => i,
    };
    let ghost n1 = nodes@;
    proof {
        assert(n1[i as int].0.outbox().len() == 0) by {
            assert(n1[i as int].0.outbox() == n0[i as int].0.outbox());
        }
    }
    let handled = handle(nodes, i, message);
    let ghost n2 = nodes@;
    match handled {
        Err(e) => {
            proof {
                assert forall|j: int| 0 <= j < nodes@.len() implies (#[trigger] nodes@[j]).0.node_id() == n0[j].0.node_id() && nodes@[j].0.clock() >= n0[j].0.clock() by {
                    assert(n1[j].0.node_id() == n0[j].0.node_id());
                    if j != i {
                        assert(nodes@[j] == n1[j]);
                    }
                }
                assert(table_ids(nodes@)[i as int] == nodes@[i as int].0.node_id());
                assert(same_except(nodes@, n0, i as int)) by {
                    assert forall|j: int| 0 <= j < nodes@.len() && j != i implies #[trigger] nodes@[j] == n0[j] by {
                        assert(nodes@[j] == n1[j]);
                    }
                }
                assert(first_at(n0, message.dest, i as int));
                assert(received(n0[i as int].0, message, n1[i as int].0));
                assert(dispatch_failed(e, message, n0, nodes@));
            }
            return (Err(e), Ghost(unset));
        },
        Ok(()) => {},
    }
    let ghost sent = n2[i as int].0.outbox();
    flush_node(nodes, i, message_queue);
    let ghost st = Step {
        table: n0,
        queue: qb,
        index: i as int,
        message: Some(message),
        popped: q1,
        handed: n1[i as int].0,
        left: n2[i as int].0,
        outcome: handler_result(handled),
    };
    proof {
        let q2 = message_queue.entries();
        assert(same_except(nodes@, n0, i as int)) by {
            assert forall|j: int| 0 <= j < nodes@.len() && j != i implies #[trigger] nodes@[j] == n0[j] by {
                assert(nodes@[j] == n2[j]);
                assert(n2[j] == n1[j]);
            }
        }
        assert(step_ok(st, max));
        assert(step_done(st, nodes@, q2));
        assert forall|k: int| q1.len() <= k < q2.len() implies (#[trigger] q2[k]).1.timestamp >= message.timestamp + MESSAGE_DELAY by {
            let j = k - q1.len();
            assert(q2[q1.len() + j].1 == sent[j]);
            assert(n2[i as int].0.follows(&n1[i as int].0));
        }
        assert forall|j: int| 0 <= j < nodes@.len() implies (#[trigger] nodes@[j]).0.node_id() == n0[j].0.node_id() && nodes@[j].0.clock() >= n0[j].0.clock() by {
            assert(n1[j].0.node_id() == n0[j].0.node_id());
            if j != i {
                assert(nodes@[j] == n2[j]);
                assert(n2[j] == n1[j]);
            }
        }
        assert forall|j: int| 0 <= j < nodes@.len() implies (#[trigger] nodes@[j]).0.outbox().len() == 0 by {
            if j != i {
                assert(nodes@[j] == n2[j]);
                assert(n2[j] == n1[j]);
                assert(n1[j].0.outbox() == n0[j].0.outbox());
            }
        }
    }
    (Ok(()), Ghost(st))
}

} // verus!
