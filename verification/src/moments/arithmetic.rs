//! The arithmetic that the formulas of the estimators are written in.
//!
//! The estimators compute in binary64. Their formulas are stated once, over
//! any arithmetic, so that what they give in exact arithmetic can be stated
//! too.

use vstd::prelude::*;
use crate::binary64::format::Binary64;

verus! {

/// Numbers with the four operations and a way to take in a count.
pub trait Arithmetic: Sized {
    /// The number `n`.
    spec fn count(n: nat) -> Self;

    /// `self + rhs`.
    spec fn plus(self, rhs: Self) -> Self;

    /// `self - rhs`.
    spec fn minus(self, rhs: Self) -> Self;

    /// `self * rhs`.
    spec fn times(self, rhs: Self) -> Self;

    /// `self / rhs`.
    spec fn over(self, rhs: Self) -> Self;
}

/// Binary64 arithmetic: every operation rounds to nearest, ties to even.
impl Arithmetic for Binary64 {
    open spec fn count(n: nat) -> Binary64 {
        Binary64::of_integer(n)
    }

    open spec fn plus(self, rhs: Binary64) -> Binary64 {
        self.sum(rhs)
    }

    open spec fn minus(self, rhs: Binary64) -> Binary64 {
        self.difference(rhs)
    }

    open spec fn times(self, rhs: Binary64) -> Binary64 {
        self.product(rhs)
    }

    open spec fn over(self, rhs: Binary64) -> Binary64 {
        self.quotient(rhs)
    }
}

/// Exact arithmetic.
impl Arithmetic for real {
    open spec fn count(n: nat) -> real {
        n as real
    }

    open spec fn plus(self, rhs: real) -> real {
        self + rhs
    }

    open spec fn minus(self, rhs: real) -> real {
        self - rhs
    }

    open spec fn times(self, rhs: real) -> real {
        self * rhs
    }

    open spec fn over(self, rhs: real) -> real {
        self / rhs
    }
}

} // verus!
