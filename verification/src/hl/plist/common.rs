//! Settings that several property lists have.

use vstd::prelude::*;

verus! {

/// When the attributes of an object go from its header to an index and back.
#[derive(Clone, Copy, Debug, PartialEq, Eq, Structural)]
pub struct AttrPhaseChange {
    pub max_compact: u32,
    pub min_dense: u32,
}

impl Default for AttrPhaseChange {
    fn default() -> (r: Self)
        ensures
            r == (AttrPhaseChange { max_compact: 8, min_dense: 6 }),
    {
        AttrPhaseChange { max_compact: 8, min_dense: 6 }
    }
}

/// Whether the creation order of attributes is kept (bit 0) and indexed (bit 1).
#[derive(Clone, Copy, Debug, PartialEq, Eq, Structural)]
pub struct AttrCreationOrder {
    pub bits: u32,
}

impl Default for AttrCreationOrder {
    fn default() -> (r: Self)
        ensures
            r.bits == 0,
    {
        AttrCreationOrder { bits: 0 }
    }
}

impl AttrCreationOrder {
    pub fn kept() -> (r: Self)
        ensures
            r.bits == 1,
    {
        AttrCreationOrder { bits: 1 }
    }

    pub fn indexed() -> (r: Self)
        ensures
            r.bits == 2,
    {
        AttrCreationOrder { bits: 2 }
    }

    /// The flags of both.
    pub fn with(self, other: Self) -> (r: Self)
        ensures
            r.bits == self.bits | other.bits,
    {
        AttrCreationOrder { bits: self.bits | other.bits }
    }
}

} // verus!
