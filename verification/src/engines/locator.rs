//! Record locators.
use vstd::prelude::*;

verus! {

/// Where one record lies: the epoch of its segment, the offset of its first
/// byte in that segment and its length in bytes, the final newline included.
#[derive(Clone, Copy, Debug, PartialEq, Eq, Structural)]
pub struct Locator {
    pub epoch: u64,
    pub offset: u64,
    pub length: u32,
}

impl Locator {
    /// The offset just past the record.
    pub open spec fn end(self) -> int {
        self.offset + self.length
    }

    /// Whether `self` lies strictly before `other` in replay order: in an
    /// older epoch, or earlier in the same one.
    pub open spec fn before(self, other: Locator) -> bool {
        self.epoch < other.epoch || (self.epoch == other.epoch && self.offset < other.offset)
    }

    pub fn new(epoch: u64, offset: u64, length: u32) -> (r: Locator)
        ensures
            r == (Locator { epoch, offset, length }),
    {
        Locator { epoch, offset, length }
    }
}

} // verus!
