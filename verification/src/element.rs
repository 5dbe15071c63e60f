//! A ready-made element type carrying its own checksum.

use vstd::prelude::*;
use crate::volatile::Volatile;

verus! {

/// A value together with a checksum column.
///
/// The checksum is one more than the value, so the all-zero pair can never
/// be produced by [`CheckSummed::new`]: the pair doubles as a torn-write
/// detector and satisfies the sentinel constraint of [`Volatile`].
#[derive(Clone, Copy, PartialEq, Eq, Structural, Debug)]
pub struct CheckSummed {
    /// The stored value.
    pub val: usize,
    /// Always `val + 1` when built by [`CheckSummed::new`].
    pub checksum: usize,
}

impl CheckSummed {
    /// Pair `val` with its checksum `val + 1`.
    pub fn new(val: usize) -> (c: CheckSummed)
        requires
            val < usize::MAX,
        ensures
            c.val == val,
            c.checksum == val + 1,
            !c.is_zeroed(),
    {
        CheckSummed { val, checksum: val + 1 }
    }

    /// Whether the checksum column still matches the value.
    pub fn is_consistent(&self) -> (b: bool)
        ensures
            b == (self.val < usize::MAX && self.checksum == self.val + 1),
    {
        self.val < usize::MAX && self.checksum == self.val + 1
    }
}

impl Volatile for CheckSummed {
    open spec fn is_zeroed(self) -> bool {
        self.val == 0 && self.checksum == 0
    }

    fn zeroed() -> (z: Self)
        ensures
            z.is_zeroed(),
    {
        CheckSummed { val: 0, checksum: 0 }
    }

    fn is_zero(&self) -> (b: bool)
        ensures
            b == self.is_zeroed(),
    {
        self.val == 0 && self.checksum == 0
    }
}

} // verus!
