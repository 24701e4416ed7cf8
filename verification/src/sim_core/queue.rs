//! The priority queue of messages in flight.
use vstd::prelude::*;
use std::hash::Hash;
use crate::sim_core::message::{hash_msg, Message};

verus! {

/// `a` is dispatched no later than `b`: an earlier timestamp first, and
/// between equal timestamps the larger hash first.
pub open spec fn dispatched_no_later<P>(a: (u64, Message<P>), b: (u64, Message<P>)) -> bool {
    a.1.timestamp < b.1.timestamp || (a.1.timestamp == b.1.timestamp && a.0 >= b.0)
}

/// `after` is `before` without an entry holding `m` that is dispatched no
/// later than any entry of `before`.
pub open spec fn popped_first<P>(
    before: Seq<(u64, Message<P>)>,
    after: Seq<(u64, Message<P>)>,
    m: Message<P>,
) -> bool {
    exists|i: int|
        0 <= i < before.len() && #[trigger] before[i].1 == m && after == before.remove(i)
            && forall|j: int| 0 <= j < before.len() ==> dispatched_no_later(before[i], #[trigger] before[j])
}

/// Messages in flight, each kept with its hash; consumption (`pop`) is
/// reserved for the simulator.
pub struct MessageQueue<P> {
    entries: Vec<(u64, Message<P>)>,
}

impl<P> MessageQueue<P> {
    /// The queued messages with their hashes, in no particular order.
    pub closed spec fn entries(&self) -> Seq<(u64, Message<P>)> {
        self.entries@
    }

    /// An empty queue.
    pub fn new() -> (r: Self)
        ensures
            r.entries() == Seq::<(u64, Message<P>)>::empty(),
    {
        Self { entries: Vec::new() }
    }

    /// Number of messages in flight.
    pub fn len(&self) -> (r: usize)
        ensures
            r == self.entries().len(),
    {
        self.entries.len()
    }
}

impl<P: Hash> MessageQueue<P> {
    /// Adds `msg`, keyed by its hash.
    pub fn inject(&mut self, msg: Message<P>)
        ensures
            final(self).entries().len() == old(self).entries().len() + 1,
            final(self).entries().drop_last() == old(self).entries(),
            final(self).entries().last().1 == msg,
    {
        let key = hash_msg(&msg);
        self.entries.push((key, msg));
        proof {
            assert(self.entries@.drop_last() =~= old(self).entries@);
        }
    }

    /// Removes and returns the message to dispatch next: the earliest
    /// timestamp, and among those the largest hash. `None` when empty.
    pub(crate) fn pop(&mut self) -> (r: Option<Message<P>>)
        ensures
            r is None <==> old(self).entries().len() == 0,
            r is None ==> final(self).entries() == old(self).entries(),
            r matches Some(m) ==> popped_first(old(self).entries(), final(self).entries(), m),
    {
        if self.entries.len() == 0 {
            return None;
        }
        let mut best: usize = 0;
        let mut k: usize = 1;
        while k < self.entries.len()
            invariant
                1 <= k <= self.entries@.len(),
                best < k,
                self.entries@ == old(self).entries@,
                forall|j: int| 0 <= j < k ==> dispatched_no_later(self.entries@[best as int], #[trigger] self.entries@[j]),
            decreases self.entries@.len() - k,
        {
            let (kt, kh) = (self.entries[k].1.timestamp, self.entries[k].0);
            let (bt, bh) = (self.entries[best].1.timestamp, self.entries[best].0);
            if kt < bt || (kt == bt && kh > bh) {
                best = k;
            }
            k = k + 1;
        }
        let ghost i = best as int;
        let (_, m) = self.entries.remove(best);
        proof {
            assert(old(self).entries()[i].1 == m);
        }
        Some(m)
    }
}

impl<P> Default for MessageQueue<P> {
    fn default() -> (r: Self)
        ensures
            r.entries() == Seq::<(u64, Message<P>)>::empty(),
    {
        Self::new()
    }
}

} // verus!
