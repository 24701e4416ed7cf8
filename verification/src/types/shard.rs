//! Shard identifiers.
use vstd::prelude::*;

verus! {

/// A shard, numbered from 0.
#[derive(Clone, Copy, Debug, Hash, PartialEq, Eq, Structural, PartialOrd, Ord)]
pub struct ShardID(pub u32);

impl ShardID {
    /// The shard number plus `rhs`.
    pub fn add(self, rhs: u32) -> (r: u32)
        requires
            self.0 + rhs <= u32::MAX,
        ensures
            r == self.0 + rhs,
    {
        self.0 + rhs
    }
}

} // verus!
