//! The length-recovery search, step by step.
//!
//! At open time the logical length is re-derived from the slot contents: a
//! binary search inside the highest rank narrows down the boundary between
//! written slots and sentinel slots. [`Search`] carries the state of that
//! search and decides every move; the caller only reads the probed slot and
//! reports whether it held a written value. [`crate::DiskVec::open`] drives
//! it over in-memory rank rows; a caller holding the rank files in mapped
//! memory can drive it over those in the same way, one slot read per step.

use vstd::prelude::*;
use crate::index::{min_max, pow2, rank_capacity};

verus! {

/// The closed interval of logical indices still to be searched, inside the
/// highest rank. The boundary being searched for always lies between the
/// lower end and one past the upper end.
pub struct Search {
    min: usize,
    max: usize,
}

impl Search {
    /// The lowest logical index still in play.
    pub closed spec fn lo(self) -> nat {
        self.min as nat
    }

    /// The highest logical index still in play.
    pub closed spec fn hi(self) -> nat {
        self.max as nat
    }

    /// The interval is never empty and leaves room for the answer one past
    /// its upper end.
    pub closed spec fn wf(self) -> bool {
        self.min <= self.max < usize::MAX
    }

    /// Start the search over the whole of rank `top`.
    pub fn new(top: usize) -> (s: Search)
        requires
            pow2(top as nat + 1) - 2 < usize::MAX,
        ensures
            s.wf(),
            s.lo() == rank_capacity(top as nat),
            s.hi() + 1 == rank_capacity(top as nat + 1),
    {
        let mm = min_max(top);
        Search { min: mm.0, max: mm.1 }
    }

    /// The logical index whose slot should be read next: the midpoint of
    /// the remaining interval.
    pub fn probe(&self) -> (p: usize)
        requires
            self.wf(),
        ensures
            p as nat == self.lo() + (self.hi() - self.lo()) / 2,
            self.lo() <= p <= self.hi(),
    {
        self.min + (self.max - self.min) / 2
    }

    /// Advance by the observation made at the probed slot: a written slot
    /// moves the lower end past the probe, a sentinel slot caps the upper
    /// end at it. Once the interval has closed to a point, the recovered
    /// length is that point, plus one if the last probe was written.
    pub fn step(&mut self, nonzero: bool) -> (done: Option<usize>)
        requires
            old(self).wf(),
        ensures
            ({
                let p = old(self).lo() + (old(self).hi() - old(self).lo()) / 2;
                match done {
                    Some(len) => {
                        &&& old(self).lo() == old(self).hi()
                        &&& len == if nonzero {
                            old(self).lo() + 1
                        } else {
                            old(self).lo()
                        }
                        &&& *final(self) == *old(self)
                    },
                    None => {
                        &&& old(self).lo() < old(self).hi()
                        &&& final(self).wf()
                        &&& final(self).lo() == if nonzero {
                            p + 1
                        } else {
                            old(self).lo() as int
                        }
                        &&& final(self).hi() == if nonzero {
                            old(self).hi() as int
                        } else {
                            p
                        }
                        &&& final(self).hi() - final(self).lo() < old(self).hi() - old(self).lo()
                    },
                }
            }),
    {
        let probe: usize = self.min + (self.max - self.min) / 2;
        if nonzero {
            if self.min == self.max {
                return Some(self.min + 1);
            }
            self.min = probe + 1;
        } else {
            if self.min == self.max {
                return Some(self.min);
            }
            self.max = probe;
        }
        None
    }
}

} // verus!
