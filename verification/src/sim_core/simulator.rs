//! The simulator: every node's framework state and logic, the shared message
//! queue, and the dispatch loop over them.
use vstd::prelude::*;
use std::hash::Hash;
use crate::sim_core::message::{Message, MessageHandler};
use crate::sim_core::node::{Node, NodeID, CLOCK_LIMIT};
use crate::sim_core::queue::{popped_first, MessageQueue};
use crate::sim_core::runner::{
    all_after, all_flushed, first_at, fresh_node, handler_result, later, received, run_outcome, same_except, table_ids,
    table_progressed, NodeEntry, SimError, Step,
};

verus! {

/// Owns every node's framework state and the shared message queue, and
/// drives the simulation.
#[verifier::reject_recursive_types(P)]
pub struct Simulator<P> {
    nodes: Vec<NodeEntry<P>>,
    queue: MessageQueue<P>,
    record: Ghost<Seq<Step<P>>>,
}

impl<P> Simulator<P> {
    /// The registered nodes, in registration order.
    pub closed spec fn table(&self) -> Seq<NodeEntry<P>> {
        self.nodes@
    }

    /// The messages in flight.
    pub closed spec fn in_flight(&self) -> Seq<(u64, Message<P>)> {
        self.queue.entries()
    }

    /// The steps the last `run` took: each `init` and each dispatch.
    pub closed spec fn steps(&self) -> Seq<Step<P>> {
        self.record@
    }

    /// No nodes, nothing in flight.
    pub fn new() -> (r: Self)
        ensures
            r.table() == Seq::<NodeEntry<P>>::empty(),
            r.in_flight() == Seq::<(u64, Message<P>)>::empty(),
    {
        Self { nodes: Vec::new(), queue: MessageQueue::new(), record: Ghost(Seq::empty()) }
    }

    /// Registers `handler` as the logic of a fresh node `id`, replacing the
    /// node registered under `id` before, if any. The handler is taken
    /// boxed, so that the contract can say that it is the one stored.
    pub fn register(&mut self, id: NodeID, handler: Box<dyn MessageHandler<P>>)
        ensures
            final(self).in_flight() == old(self).in_flight(),
            table_ids(old(self).table()).contains(id) ==> exists|i: int|
                0 <= i < old(self).table().len() && (#[trigger] old(self).table()[i]).0.node_id() == id
                    && (forall|j: int| 0 <= j < i ==> (#[trigger] old(self).table()[j]).0.node_id() != id)
                    && final(self).table() == old(self).table().update(i, final(self).table()[i])
                    && fresh_node(final(self).table()[i].0, id)
                    && final(self).table()[i].1 == handler,
            !table_ids(old(self).table()).contains(id) ==> {
                &&& final(self).table().len() == old(self).table().len() + 1
                &&& final(self).table().drop_last() == old(self).table()
                &&& fresh_node(final(self).table().last().0, id)
                &&& final(self).table().last().1 == handler
            },
    {
        let ghost given = handler;
        let entry = (Node::new(id), handler);
        proof {
            assert(entry.1 == given);
            assert(given == handler);
        }
        crate::sim_core::runner::register_node(&mut self.nodes, entry);
    }

    /// Number of registered nodes.
    pub fn node_count(&self) -> (r: usize)
        ensures
            r == self.table().len(),
    {
        self.nodes.len()
    }

    /// The framework state of node `i`.
    pub fn node(&self, i: usize) -> (r: &Node<P>)
        requires
            i < self.table().len(),
        ensures
            *r == self.table()[i as int].0,
    {
        &self.nodes[i].0
    }

    /// Lets node `i` run its `init` hook; its messages stay in its outbox
    /// until `flush_node`.
    pub fn bootstrap_node(&mut self, i: usize) -> (r: Result<(), SimError>)
        requires
            i < old(self).table().len(),
        ensures
            final(self).in_flight() == old(self).in_flight(),
            final(self).table().len() == old(self).table().len(),
            forall|j: int| 0 <= j < old(self).table().len() && j != i ==> #[trigger] final(self).table()[j] == old(self).table()[j],
            r is Err <==> old(self).table()[i as int].0.clock() > CLOCK_LIMIT,
            r is Err ==> r == Err::<(), SimError>(SimError::ClockLimit(old(self).table()[i as int].0.node_id())) && final(self).table() == old(self).table(),
            r is Ok ==> final(self).table()[i as int].0.follows(&old(self).table()[i as int].0),
            r is Ok ==> old(self).table()[i as int].1.init_spec(old(self).table()[i as int].0, final(self).table()[i as int].0),
    {
        crate::sim_core::runner::bootstrap_node(&mut self.nodes, i)
    }

    /// Finds the destination of `msg` (the first node registered under its
    /// identity) and brings its clock up to the arrival time. Fails for an
    /// unregistered destination, and for a clock past `CLOCK_LIMIT`.
    /// Returns the position of the destination.
    pub fn receive(&mut self, msg: &Message<P>) -> (r: Result<usize, SimError>)
        ensures
            final(self).in_flight() == old(self).in_flight(),
            final(self).table().len() == old(self).table().len(),
            (r == Err::<usize, SimError>(SimError::UnknownDestination(msg.dest))) <==> !table_ids(old(self).table()).contains(msg.dest),
            !table_ids(old(self).table()).contains(msg.dest) ==> final(self).table() == old(self).table(),
            r is Err ==> r == Err::<usize, SimError>(SimError::UnknownDestination(msg.dest)) || r == Err::<usize, SimError>(SimError::ClockLimit(msg.dest)),
            r matches Ok(i) ==> {
                &&& i < old(self).table().len()
                &&& old(self).table()[i as int].0.node_id() == msg.dest
                &&& forall|j: int| 0 <= j < i ==> (#[trigger] old(self).table()[j]).0.node_id() != msg.dest
                &&& final(self).table()[i as int].0.clock() == later(old(self).table()[i as int].0.clock(), msg.timestamp)
                &&& final(self).table()[i as int].0.clock() <= CLOCK_LIMIT
                &&& forall|j: int| 0 <= j < old(self).table().len() && j != i ==> #[trigger] final(self).table()[j] == old(self).table()[j]
            },
            r matches Ok(i) ==> first_at(old(self).table(), msg.dest, i as int) && received(old(self).table()[i as int].0, *msg, final(self).table()[i as int].0)
                && final(self).table()[i as int].1 == old(self).table()[i as int].1 && same_except(final(self).table(), old(self).table(), i as int),
            r == Err::<usize, SimError>(SimError::ClockLimit(msg.dest)) ==> exists|i: int|
                #[trigger] first_at(old(self).table(), msg.dest, i) && received(old(self).table()[i].0, *msg, final(self).table()[i].0)
                    && final(self).table()[i].0.clock() > CLOCK_LIMIT && final(self).table()[i].1 == old(self).table()[i].1 && same_except(final(self).table(), old(self).table(), i),
            forall|i: int| #[trigger] first_at(old(self).table(), msg.dest, i) && later(old(self).table()[i].0.clock(), msg.timestamp) <= CLOCK_LIMIT ==> r == Ok::<usize, SimError>(i as usize),
            forall|j: int| #![trigger final(self).table()[j]]
                0 <= j < old(self).table().len() ==> {
                    &&& final(self).table()[j].0.node_id() == old(self).table()[j].0.node_id()
                    &&& final(self).table()[j].0.outbox() == old(self).table()[j].0.outbox()
                    &&& final(self).table()[j].1 == old(self).table()[j].1
                    &&& final(self).table()[j].0.clock() >= old(self).table()[j].0.clock()
                    &&& (final(self).table()[j].0.clock() == old(self).table()[j].0.clock() || final(self).table()[j].0.clock() == msg.timestamp)
                },
    {
        crate::sim_core::runner::receive(&mut self.nodes, msg)
    }

    /// Hands `msg` to the handler of node `i`; the messages it sends stay
    /// in the node's outbox until `flush_node`.
    pub fn handle(&mut self, i: usize, msg: Message<P>) -> (r: Result<(), SimError>)
        requires
            i < old(self).table().len(),
            old(self).table()[i as int].0.clock() <= CLOCK_LIMIT,
        ensures
            final(self).in_flight() == old(self).in_flight(),
            final(self).table().len() == old(self).table().len(),
            forall|j: int| 0 <= j < old(self).table().len() && j != i ==> #[trigger] final(self).table()[j] == old(self).table()[j],
            final(self).table()[i as int].0.follows(&old(self).table()[i as int].0),
            r matches Err(e) ==> e matches SimError::Handler(d, _) && d == old(self).table()[i as int].0.node_id(),
            old(self).table()[i as int].1.handle_spec(old(self).table()[i as int].0, msg, final(self).table()[i as int].0, handler_result(r)),
    {
        crate::sim_core::runner::handle(&mut self.nodes, i, msg)
    }
}

impl<P: Hash> Simulator<P> {
    /// Moves node `i`'s outbox into the queue.
    pub fn flush_node(&mut self, i: usize)
        requires
            i < old(self).table().len(),
        ensures
            final(self).table().len() == old(self).table().len(),
            forall|j: int| 0 <= j < old(self).table().len() && j != i ==> #[trigger] final(self).table()[j] == old(self).table()[j],
            final(self).table()[i as int].0.outbox().len() == 0,
            final(self).table()[i as int].0.clock() == old(self).table()[i as int].0.clock(),
            final(self).table()[i as int].0.node_id() == old(self).table()[i as int].0.node_id(),
            final(self).in_flight().len() == old(self).in_flight().len() + old(self).table()[i as int].0.outbox().len(),
            final(self).in_flight().subrange(0, old(self).in_flight().len() as int) == old(self).in_flight(),
            forall|k: int|
                0 <= k < old(self).table()[i as int].0.outbox().len() ==> (#[trigger] final(self).in_flight()[old(self).in_flight().len() + k]).1
                    == old(self).table()[i as int].0.outbox()[k],
            final(self).table()[i as int].1 == old(self).table()[i as int].1,
    {
        crate::sim_core::runner::flush_node(&mut self.nodes, i, &mut self.queue)
    }

    /// Takes the message to dispatch next: the earliest, and among equally
    /// early ones the one with the largest hash. `None` when nothing is due
    /// by `max_simulation_time`; a message due later is dropped.
    pub fn next_message(&mut self, max_simulation_time: u64) -> (r: Option<Message<P>>)
        ensures
            final(self).table() == old(self).table(),
            r is None ==> all_after(final(self).in_flight(), max_simulation_time),
            r is None ==> (old(self).in_flight().len() == 0 && final(self).in_flight() == old(self).in_flight()) || exists|m: Message<P>|
                m.timestamp > max_simulation_time && #[trigger] popped_first(old(self).in_flight(), final(self).in_flight(), m),
            r matches Some(m) ==> m.timestamp <= max_simulation_time && popped_first(old(self).in_flight(), final(self).in_flight(), m),
    {
        let r = crate::sim_core::runner::next_message(&mut self.queue, max_simulation_time);
        proof {
            if r is None && !(old(self).in_flight().len() == 0 && self.in_flight() == old(self).in_flight()) {
                let m = choose|m: Message<P>|
                    m.timestamp > max_simulation_time && #[trigger] popped_first(old(self).queue.entries(), self.queue.entries(), m);
                assert(popped_first(old(self).in_flight(), self.in_flight(), m));
            }
        }
        r
    }

    /// Bootstraps every node (running its `init` hook and flushing its
    /// messages), then dispatches messages in (timestamp, hash) order until
    /// none is due by `max_simulation_time`. The steps it took are kept in
    /// `steps()`.
    pub fn run(&mut self, max_simulation_time: u64) -> (r: Result<(), SimError>)
        ensures
            run_outcome(r, final(self).steps(), old(self).table(), old(self).in_flight(), final(self).table(), final(self).in_flight(), max_simulation_time),
            table_progressed(final(self).table(), old(self).table()),
            r is Ok ==> all_flushed(final(self).table()),
            r is Ok ==> all_after(final(self).in_flight(), max_simulation_time),
            r matches Err(SimError::UnknownDestination(d)) ==> !table_ids(final(self).table()).contains(d),
            r matches Err(SimError::ClockLimit(d)) ==> table_ids(final(self).table()).contains(d),
            r matches Err(SimError::Handler(d, _)) ==> table_ids(final(self).table()).contains(d),
    {
        let (r, record) = crate::sim_core::runner::run(&mut self.nodes, &mut self.queue, max_simulation_time);
        self.record = record;
        r
    }
}

impl<P> Default for Simulator<P> {
    fn default() -> (r: Self)
        ensures
            r.table() == Seq::<NodeEntry<P>>::empty(),
            r.in_flight() == Seq::<(u64, Message<P>)>::empty(),
    {
        Self::new()
    }
}

} // verus!
