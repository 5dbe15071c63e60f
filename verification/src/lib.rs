//! A verified, append-mostly vector laid out in doubling ranks.
//!
//! Elements live in a sequence of ranks: rank `r` holds exactly `2^r` slots,
//! so the total capacity after `n` ranks is `2^n - 1`. A logical index is
//! converted to a `(rank, offset)` pair by the index algebra in [`index`].
//! The all-zero value of an element type is reserved as a sentinel meaning
//! "slot never written"; the logical length of a container is recovered from
//! the slot contents alone by a binary search over the highest rank.

pub mod diskvec;
pub mod element;
pub mod index;
pub mod recovery;
pub mod volatile;

pub use diskvec::DiskVec;
pub use element::CheckSummed;
pub use volatile::Volatile;
