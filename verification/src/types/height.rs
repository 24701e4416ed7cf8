//! Block heights.
use vstd::prelude::*;

verus! {

/// The height of a block in the chain; the genesis block has height 0.
#[derive(Clone, Copy, Debug, Hash, PartialEq, Eq, Structural, PartialOrd, Ord)]
pub struct Height(pub u32);

impl From<Height> for u32 {
    fn from(value: Height) -> (r: u32) {
        value.0
    }
}

impl vstd::std_specs::convert::FromSpecImpl<Height> for u32 {
    open spec fn obeys_from_spec() -> bool {
        true
    }

    open spec fn from_spec(v: Height) -> u32 {
        v.0
    }
}

impl Height {
    /// The height `rhs` above `self`.
    pub fn add(self, rhs: Height) -> (r: Height)
        requires
            self.0 + rhs.0 <= u32::MAX,
        ensures
            r.0 == self.0 + rhs.0,
    {
        Height(self.0 + rhs.0)
    }

    /// The height times `rhs`.
    pub fn mul(self, rhs: u32) -> (r: u32)
        requires
            self.0 * rhs <= u32::MAX,
        ensures
            r == self.0 * rhs,
    {
        self.0 * rhs
    }

    /// The height `rhs` above `self`, when it fits a `u32`.
    pub fn checked_add(self, rhs: Height) -> (r: Option<Height>)
        ensures
            r == if self.0 + rhs.0 <= u32::MAX {
                Some(Height((self.0 + rhs.0) as u32))
            } else {
                None::<Height>
            },
    {
        match self.0.checked_add(rhs.0) {
            Some(h) => Some(Height(h)),
            None => None,
        }
    }
}

} // verus!
