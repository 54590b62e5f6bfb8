//! Exact similarity scores.

use crate::alpha::Alpha;
use vstd::prelude::*;

verus! {

/// An exact similarity score with value `num / sqrt(den_sq)`.
///
/// Every measure's score is either a ratio `c / d` (stored as `c / sqrt(d*d)`)
/// or a ratio with a square-rooted denominator such as `c / sqrt(x*y)`,
/// so this one shape holds all of them exactly, and comparisons against a
/// threshold or between two scores are decided by integer arithmetic alone.
#[derive(Clone, Copy, Debug, PartialEq, Eq, Structural)]
pub struct Score {
    pub num: u64,
    pub den_sq: u64,
}

/// Products of nonnegative numbers respect upper bounds on their factors.
pub proof fn lemma_mul_bound(x: int, y: int, xb: int, yb: int)
    by (nonlinear_arith)
    requires
        0 <= x <= xb,
        0 <= y <= yb,
    ensures
        x * y <= xb * yb,
        0 <= x * y,
{
}

impl Score {
    /// Bounds under which all comparison arithmetic stays inside `u128`.
    pub open spec fn wf(self) -> bool {
        &&& self.num <= 0xFFFF_FFFFu64
        &&& 1 <= self.den_sq
    }

    /// `self >= a` as real numbers, i.e. `num / sqrt(den_sq) >= a.num / a.den`,
    /// stated squared and cross-multiplied (sound since all parts are nonnegative
    /// once `a` is valid).
    pub open spec fn spec_ge_alpha(self, a: Alpha) -> bool {
        (self.num * a.den) * (self.num * a.den) >= a.num * a.num * self.den_sq
    }

    /// `self >= other` as real numbers, squared and cross-multiplied.
    pub open spec fn spec_ge(self, other: Score) -> bool {
        self.num * self.num * other.den_sq >= other.num * other.num * self.den_sq
    }

    /// `self > other` as real numbers.
    pub open spec fn spec_gt(self, other: Score) -> bool {
        self.num * self.num * other.den_sq > other.num * other.num * self.den_sq
    }

    /// Decides `self >= a` exactly.
    pub fn at_least(&self, a: &Alpha) -> (r: bool)
        requires
            self.wf(),
            a.wf(),
            a.is_valid(),
        ensures
            r == self.spec_ge_alpha(*a),
    {
        proof {
            lemma_mul_bound(self.num as int, a.den as int, 0xFFFF_FFFFint, 0xFFFF_FFFFint);
        }
        let n: u128 = (self.num as u128) * (a.den as u128);
        proof {
            lemma_mul_bound(n as int, n as int, 0xFFFF_FFFFint * 0xFFFF_FFFFint, 0xFFFF_FFFFint * 0xFFFF_FFFFint);
        }
        let lhs: u128 = n * n;
        proof {
            lemma_mul_bound(a.num as int, a.num as int, 0xFFFF_FFFFint, 0xFFFF_FFFFint);
        }
        let an: u128 = (a.num as u128) * (a.num as u128);
        proof {
            lemma_mul_bound(an as int, self.den_sq as int, 0xFFFF_FFFFint * 0xFFFF_FFFFint, u64::MAX as int);
        }
        let rhs: u128 = an * (self.den_sq as u128);
        lhs >= rhs
    }

    /// Decides `self > other` exactly.
    pub fn greater_than(&self, other: &Score) -> (r: bool)
        requires
            self.wf(),
            other.wf(),
        ensures
            r == self.spec_gt(*other),
    {
        proof {
            lemma_mul_bound(self.num as int, self.num as int, 0xFFFF_FFFFint, 0xFFFF_FFFFint);
        }
        let l: u128 = (self.num as u128) * (self.num as u128);
        proof {
            lemma_mul_bound(l as int, other.den_sq as int, 0xFFFF_FFFFint * 0xFFFF_FFFFint, u64::MAX as int);
        }
        let lhs: u128 = l * (other.den_sq as u128);
        proof {
            lemma_mul_bound(other.num as int, other.num as int, 0xFFFF_FFFFint, 0xFFFF_FFFFint);
        }
        let r2: u128 = (other.num as u128) * (other.num as u128);
        proof {
            lemma_mul_bound(r2 as int, self.den_sq as int, 0xFFFF_FFFFint * 0xFFFF_FFFFint, u64::MAX as int);
        }
        let rhs: u128 = r2 * (self.den_sq as u128);
        lhs > rhs
    }
}

} // verus!
