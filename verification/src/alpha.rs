//! Similarity thresholds, held exactly as integer ratios.

use vstd::prelude::*;

verus! {

/// A similarity threshold held exactly as the ratio `num / den`.
///
/// Keeping the threshold as a ratio of integers lets every comparison
/// against it be decided by exact integer arithmetic.
#[derive(Clone, Copy, Debug, PartialEq, Eq, Structural)]
pub struct Alpha {
    pub num: i64,
    pub den: i64,
}

impl Alpha {
    /// The denominator is positive and small enough that products of two
    /// threshold components and two feature-set sizes stay inside `u128`.
    pub open spec fn wf(self) -> bool {
        1 <= self.den <= 0xFFFF_FFFFi64
    }

    /// A threshold is usable iff it lies in (0, 1].
    pub open spec fn is_valid(self) -> bool {
        0 < self.num <= self.den
    }

    pub fn new(num: i64, den: i64) -> (r: Alpha)
        requires
            1 <= den <= 0xFFFF_FFFFi64,
        ensures
            r.num == num,
            r.den == den,
            r.wf(),
    {
        Alpha { num, den }
    }

    /// True iff the threshold lies in (0, 1].
    pub fn valid(&self) -> (r: bool)
        ensures
            r == self.is_valid(),
    {
        0 < self.num && self.num <= self.den
    }

    /// `self <= other` as rationals.
    pub open spec fn spec_le(self, other: Alpha) -> bool {
        self.num * other.den <= other.num * self.den
    }
}

} // verus!
