//! Counts data owners' confirmations that chunk parts are stored.
use vstd::prelude::*;
use crate::sim_core::node::NodeID;
use crate::sorted_map::{entry_values, has_key, seq_to_map, SortedMap};
use crate::types::cert::AvailCert;
use crate::types::chunk::{ChunkID, ChunkPartID};

verus! {

/// For each chunk, the data owner that confirmed each part, by part index.
pub struct AvailabilityTracker {
    received: SortedMap<ChunkID, SortedMap<u32, NodeID>>,
}

impl AvailabilityTracker {
    /// Every map of the tracker is sorted.
    pub closed spec fn wf(&self) -> bool {
        &&& self.received.wf()
        &&& forall|c: ChunkID| #[trigger] self.received@.contains_key(c) ==> self.received@[c].wf()
    }

    /// The confirmations recorded for `chunk_id`, as (part index, data owner)
    /// in increasing part order.
    pub closed spec fn confirmations(&self, chunk_id: ChunkID) -> Seq<(u32, NodeID)> {
        if self.received@.contains_key(chunk_id) {
            self.received@[chunk_id].entries()
        } else {
            Seq::empty()
        }
    }

    /// Part indices strictly increase along every chunk's confirmations.
    pub proof fn lemma_sorted(&self, chunk_id: ChunkID)
        requires
            self.wf(),
        ensures
            crate::sorted_map::strictly_sorted(self.confirmations(chunk_id)),
    {
    }

    /// `self` is `before` after recording a confirmation from `data_owner`
    /// for `part`: the part's chunk gains the entry if its index had none;
    /// nothing else changes.
    pub open spec fn recorded(&self, before: &Self, data_owner: NodeID, part: ChunkPartID) -> bool {
        &&& !has_key(before.confirmations(part.chunk_id), part.index) ==> seq_to_map(
            self.confirmations(part.chunk_id),
        ) == seq_to_map(before.confirmations(part.chunk_id)).insert(part.index, data_owner)
        &&& has_key(before.confirmations(part.chunk_id), part.index) ==> self.confirmations(
            part.chunk_id,
        ) == before.confirmations(part.chunk_id)
        &&& forall|c: ChunkID|
            c != part.chunk_id ==> #[trigger] self.confirmations(c) == before.confirmations(c)
    }

    /// Confirming a part that is already confirmed changes nothing: after
    /// one confirmation of `part`, a second one, from any data owner, leaves
    /// every chunk's confirmations as they were.
    pub proof fn lemma_confirm_twice(
        first: &Self,
        second: &Self,
        third: &Self,
        owner1: NodeID,
        owner2: NodeID,
        part: ChunkPartID,
    )
        requires
            second.recorded(first, owner1, part),
            third.recorded(second, owner2, part),
        ensures
            forall|c: ChunkID| #[trigger] third.confirmations(c) == second.confirmations(c),
    {
        if !has_key(first.confirmations(part.chunk_id), part.index) {
            assert(seq_to_map(second.confirmations(part.chunk_id)).contains_key(part.index));
        }
        assert(has_key(second.confirmations(part.chunk_id), part.index));
    }

    /// No confirmations.
    pub fn new() -> (r: Self)
        ensures
            r.wf(),
            forall|c: ChunkID| #[trigger] r.confirmations(c) == Seq::<(u32, NodeID)>::empty(),
    {
        Self { received: SortedMap::new() }
    }

    /// Records a confirmation from `data_owner` for `chunk_part_id`.
    /// Returns `true` if newly recorded; `false` if a confirmation for that
    /// chunk part was already present (the existing entry is kept).
    pub fn add(&mut self, data_owner: NodeID, chunk_part_id: &ChunkPartID) -> (r: bool)
        requires
            old(self).wf(),
        ensures
            final(self).wf(),
            r == !has_key(old(self).confirmations(chunk_part_id.chunk_id), chunk_part_id.index),
            final(self).recorded(old(self), data_owner, *chunk_part_id),
    {
        let chunk = chunk_part_id.chunk_id;
        let index = chunk_part_id.index;
        match self.received.position(&chunk) {
            Some(i) => {
                proof {
                    crate::sorted_map::lemma_entry_in_map(self.received.entries(), i as int);
                }
                let mut parts = self.received.replace_value_at(i, SortedMap::new());
                let added = if parts.contains_key(&index) {
                    false
                } else {
                    parts.insert(index, data_owner);
                    true
                };
                self.received.replace_value_at(i, parts);
                proof {
                    assert(self.received@ =~= old(self).received@.insert(chunk, parts));
                }
                added
            },
            None => {
                let mut parts: SortedMap<u32, NodeID> = SortedMap::new();
                parts.insert(index, data_owner);
                self.received.insert(chunk, parts);
                proof {
                    assert(seq_to_map(Seq::<(u32, NodeID)>::empty()) =~= Map::<u32, NodeID>::empty());
                }
                true
            },
        }
    }

    /// Number of distinct confirmations recorded for `chunk_id`.
    pub fn count(&self, chunk_id: &ChunkID) -> (r: u32)
        requires
            self.wf(),
            self.confirmations(*chunk_id).len() <= u32::MAX,
        ensures
            r == self.confirmations(*chunk_id).len(),
    {
        match self.received.get(chunk_id) {
            Some(parts) => parts.len() as u32,
            None => 0,
        }
    }

    /// Number of distinct confirmations recorded for `chunk_id`, as a `usize`.
    pub fn count_usize(&self, chunk_id: &ChunkID) -> (r: usize)
        requires
            self.wf(),
        ensures
            r == self.confirmations(*chunk_id).len(),
    {
        match self.received.get(chunk_id) {
            Some(parts) => parts.len(),
            None => 0,
        }
    }

    /// Data owners that confirmed parts of `chunk_id`, one entry per
    /// confirmed part, in increasing part order.
    pub fn certificate(&self, chunk_id: ChunkID) -> (r: AvailCert)
        requires
            self.wf(),
        ensures
            r.chunk_id == chunk_id,
            r.signers@ == entry_values(self.confirmations(chunk_id)),
    {
        let mut signers: Vec<NodeID> = Vec::new();
        match self.received.get(&chunk_id) {
            None => {
                proof {
                    assert(signers@ =~= entry_values(self.confirmations(chunk_id)));
                }
            },
            Some(parts) => {
                let n = parts.len();
                let mut i: usize = 0;
                while i < n
                    invariant
                        n == parts.entries().len(),
                        i <= n,
                        signers@ == entry_values(parts.entries()).subrange(0, i as int),
                    decreases n - i,
                {
                    signers.push(*parts.value_at(i));
                    i = i + 1;
                    proof {
                        assert(signers@ =~= entry_values(parts.entries()).subrange(0, i as int));
                    }
                }
                proof {
                    assert(signers@ =~= entry_values(self.confirmations(chunk_id)));
                }
            },
        }
        AvailCert { chunk_id, signers }
    }
}

impl Default for AvailabilityTracker {
    fn default() -> (r: Self)
        ensures
            r.wf(),
            forall|c: ChunkID| #[trigger] r.confirmations(c) == Seq::<(u32, NodeID)>::empty(),
    {
        Self::new()
    }
}

} // verus!
