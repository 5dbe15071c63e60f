//! The element contract of the container.

use vstd::prelude::*;

verus! {

/// A type that can be stored in a [`crate::DiskVec`].
///
/// The container reserves one distinguished value of the type — its all-zero
/// representation — as a sentinel meaning "slot never written". A value that
/// `is_zeroed` therefore must never be appended; freshly created slots hold
/// exactly such a value.
pub trait Volatile: Copy + Sized {
    /// Whether this value is the reserved all-zero sentinel.
    spec fn is_zeroed(self) -> bool;

    /// The sentinel value itself, used to fill freshly created slots.
    fn zeroed() -> (z: Self)
        ensures
            z.is_zeroed(),
    ;

    /// Test a value against the sentinel.
    fn is_zero(&self) -> (b: bool)
        ensures
            b == self.is_zeroed(),
    ;
}

} // verus!
