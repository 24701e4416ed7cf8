//! Collects validators' endorsements of executed chunks.
use vstd::prelude::*;
use crate::sim_core::node::NodeID;
use crate::sorted_map::SortedMap;
use crate::types::cert::{copy_ids, StateCert};
use crate::types::chunk::ChunkID;

verus! {

/// Tracks distinct state endorsements received per chunk so a block producer
/// can decide when enough validators have endorsed a chunk's execution to
/// issue a `StateCert`. Signers are kept in the order their endorsements
/// arrived, which is deterministic given the simulator's deterministic
/// message dispatch: every block producer observes the same sequence.
pub struct EndorsementTracker {
    received: SortedMap<ChunkID, Vec<NodeID>>,
}

impl EndorsementTracker {
    /// The tracker's map is sorted, and no chunk lists a validator twice.
    pub closed spec fn wf(&self) -> bool {
        &&& self.received.wf()
        &&& forall|c: ChunkID| #[trigger] self.received@.contains_key(c) ==> self.received@[c]@.no_duplicates()
    }

    /// A chunk's signers are distinct.
    pub proof fn lemma_signers_distinct(&self, chunk_id: ChunkID)
        requires
            self.wf(),
        ensures
            self.signers(chunk_id).no_duplicates(),
    {
    }

    /// The validators that endorsed `chunk_id`, in arrival order.
    pub closed spec fn signers(&self, chunk_id: ChunkID) -> Seq<NodeID> {
        if self.received@.contains_key(chunk_id) {
            self.received@[chunk_id]@
        } else {
            Seq::empty()
        }
    }

    /// `self` is `before` after recording an endorsement from `validator`
    /// for `chunk_id`: the validator is appended to the chunk's signers
    /// unless it is among them already; nothing else changes.
    pub open spec fn recorded(&self, before: &Self, validator: NodeID, chunk_id: ChunkID) -> bool {
        &&& !before.signers(chunk_id).contains(validator) ==> self.signers(chunk_id) == before.signers(chunk_id).push(validator)
        &&& before.signers(chunk_id).contains(validator) ==> self.signers(chunk_id) == before.signers(chunk_id)
        &&& forall|c: ChunkID| c != chunk_id ==> #[trigger] self.signers(c) == before.signers(c)
    }

    /// An endorsement is counted once: after `validator` endorsed
    /// `chunk_id`, its second endorsement changes nothing.
    pub proof fn lemma_endorse_twice(first: &Self, second: &Self, third: &Self, validator: NodeID, chunk_id: ChunkID)
        requires
            second.recorded(first, validator, chunk_id),
            third.recorded(second, validator, chunk_id),
        ensures
            forall|c: ChunkID| #[trigger] third.signers(c) == second.signers(c),
    {
        if !first.signers(chunk_id).contains(validator) {
            assert(second.signers(chunk_id).last() == validator);
            assert(second.signers(chunk_id).contains(validator)) by {
                assert(second.signers(chunk_id)[second.signers(chunk_id).len() - 1] == validator);
            }
        }
    }

    /// No endorsements.
    pub fn new() -> (r: Self)
        ensures
            r.wf(),
            forall|c: ChunkID| #[trigger] r.signers(c) == Seq::<NodeID>::empty(),
    {
        Self { received: SortedMap::new() }
    }

    /// Records an endorsement from `validator` for `chunk_id`. Returns `true`
    /// if newly recorded; `false` if this validator already endorsed this
    /// chunk.
    pub fn add(&mut self, validator: NodeID, chunk_id: &ChunkID) -> (r: bool)
        requires
            old(self).wf(),
        ensures
            final(self).wf(),
            r == !old(self).signers(*chunk_id).contains(validator),
            final(self).recorded(old(self), validator, *chunk_id),
    {
        let mut signers: Vec<NodeID> = match self.received.remove(chunk_id) {
            Some(v) => v,
            None => Vec::new(),
        };
        let ghost before = signers@;
        assert(before == old(self).signers(*chunk_id));
        let mut present = false;
        let mut i: usize = 0;
        while i < signers.len()
            invariant
                i <= signers@.len(),
                signers@ == before,
                present == exists|j: int| 0 <= j < i && signers@[j] == validator,
            decreases signers@.len() - i,
        {
            if signers[i] == validator {
                present = true;
            }
            i = i + 1;
        }
        proof {
            if !old(self).received@.contains_key(*chunk_id) {
                assert(before.len() == 0);
            }
            assert(before.no_duplicates());
        }
        if !present {
            signers.push(validator);
            proof {
                assert(!before.contains(validator));
                assert forall|a: int, b: int| 0 <= a < b < signers@.len() implies signers@[a] != signers@[b] by {
                    if b == before.len() {
                        assert(signers@[a] == before[a]);
                    } else {
                        assert(signers@[a] == before[a]);
                        assert(signers@[b] == before[b]);
                    }
                }
            }
        }
        self.received.insert(*chunk_id, signers);
        proof {
            assert(self.received@ =~= old(self).received@.insert(*chunk_id, signers));
            assert forall|c: ChunkID| #[trigger] self.received@.contains_key(c) implies self.received@[c]@.no_duplicates() by {
                if c != *chunk_id {
                    assert(old(self).received@.contains_key(c));
                }
            }
        }
        !present
    }

    /// Number of distinct endorsements recorded for `chunk_id`.
    pub fn count(&self, chunk_id: &ChunkID) -> (r: u32)
        requires
            self.wf(),
            self.signers(*chunk_id).len() <= u32::MAX,
        ensures
            r == self.signers(*chunk_id).len(),
    {
        match self.received.get(chunk_id) {
            Some(v) => v.len() as u32,
            None => 0,
        }
    }

    /// Number of distinct endorsements recorded for `chunk_id`, as a `usize`.
    pub fn count_usize(&self, chunk_id: &ChunkID) -> (r: usize)
        requires
            self.wf(),
        ensures
            r == self.signers(*chunk_id).len(),
    {
        match self.received.get(chunk_id) {
            Some(v) => v.len(),
            None => 0,
        }
    }

    /// Build a state certificate from the recorded endorsements.
    pub fn certificate(&self, chunk_id: ChunkID) -> (r: StateCert)
        requires
            self.wf(),
        ensures
            r.chunk_id == chunk_id,
            r.signers@ == self.signers(chunk_id),
            r.signers@.no_duplicates(),
    {
        let signers = match self.received.get(&chunk_id) {
            Some(v) => copy_ids(v),
            None => Vec::new(),
        };
        StateCert { chunk_id, signers }
    }
}

impl Default for EndorsementTracker {
    fn default() -> (r: Self)
        ensures
            r.wf(),
            forall|c: ChunkID| #[trigger] r.signers(c) == Seq::<NodeID>::empty(),
    {
        Self::new()
    }
}

} // verus!
