//! Doubles carried by bit pattern.
//!
//! Times, rates and factors reach this library as IEEE-754 doubles that it
//! only ever compares, so a [`Real`] is the 64-bit pattern of the double
//! (`f64::to_bits`) and the comparisons work on that pattern.

use vstd::prelude::*;

verus! {

/// Bit pattern weight of the sign.
pub const SIGN: u64 = 0x8000_0000_0000_0000;

/// Bit pattern of positive infinity; anything above is not a number.
pub const INFINITY_BITS: u64 = 0x7ff0_0000_0000_0000;

/// Bit pattern of one.
pub const ONE_BITS: u64 = 0x3ff0_0000_0000_0000;

/// A double, by its bit pattern.
#[derive(Clone, Copy, Debug, PartialEq, Eq, Structural)]
pub struct Real {
    pub bits: u64,
}

impl Real {
    /// The pattern without its sign.
    pub open spec fn magnitude(self) -> int {
        self.bits as int % SIGN as int
    }

    /// Not a number.
    pub open spec fn nan(self) -> bool {
        self.magnitude() > INFINITY_BITS
    }

    /// Neither infinite nor not a number.
    pub open spec fn finite(self) -> bool {
        self.magnitude() < INFINITY_BITS
    }

    /// An integer that orders the numbers as the doubles are ordered; both
    /// zeros rank zero.
    pub open spec fn rank(self) -> int {
        if self.bits >= SIGN {
            -self.magnitude()
        } else {
            self.magnitude()
        }
    }

    /// `self < other` on doubles: false when either is not a number.
    pub open spec fn lt(self, other: Real) -> bool {
        !self.nan() && !other.nan() && self.rank() < other.rank()
    }

    /// `self <= other` on doubles.
    pub open spec fn le(self, other: Real) -> bool {
        !self.nan() && !other.nan() && self.rank() <= other.rank()
    }

    /// `self == other` on doubles: both zeros are equal, nothing equals a
    /// value that is not a number.
    pub open spec fn same(self, other: Real) -> bool {
        !self.nan() && !other.nan() && self.rank() == other.rank()
    }

    /// Zero.
    pub open spec fn zero() -> Real {
        Real { bits: 0 }
    }

    /// One.
    pub open spec fn one() -> Real {
        Real { bits: ONE_BITS }
    }

    /// The smaller of two doubles; a value that is not a number gives way to
    /// the other.
    pub open spec fn smaller(self, other: Real) -> Real {
        if self.nan() || other.lt(self) {
            other
        } else {
            self
        }
    }

    /// The larger of two doubles; a value that is not a number gives way to
    /// the other.
    pub open spec fn larger(self, other: Real) -> Real {
        if self.nan() || self.lt(other) {
            other
        } else {
            self
        }
    }

    /// Whether the value is a finite double.
    pub fn is_finite(self) -> (r: bool)
        ensures
            r == self.finite(),
    {
        self.bits % SIGN < INFINITY_BITS
    }

    /// Whether the value is not a number.
    pub fn is_nan(self) -> (r: bool)
        ensures
            r == self.nan(),
    {
        self.bits % SIGN > INFINITY_BITS
    }

    fn rank_of(self) -> (r: i128)
        ensures
            r == self.rank(),
    {
        let m: u64 = self.bits % SIGN;
        if self.bits >= SIGN {
            -(m as i128)
        } else {
            m as i128
        }
    }

    /// `self < other`.
    pub fn is_below(self, other: Real) -> (r: bool)
        ensures
            r == self.lt(other),
    {
        !self.is_nan() && !other.is_nan() && self.rank_of() < other.rank_of()
    }

    /// `self <= other`.
    pub fn is_at_most(self, other: Real) -> (r: bool)
        ensures
            r == self.le(other),
    {
        !self.is_nan() && !other.is_nan() && self.rank_of() <= other.rank_of()
    }

    /// `self == other`.
    pub fn is_same(self, other: Real) -> (r: bool)
        ensures
            r == self.same(other),
    {
        !self.is_nan() && !other.is_nan() && self.rank_of() == other.rank_of()
    }

    /// The smaller of two.
    pub fn smaller_of(self, other: Real) -> (r: Real)
        ensures
            r == self.smaller(other),
    {
        if self.is_nan() || other.is_below(self) {
            other
        } else {
            self
        }
    }

    /// The larger of two.
    pub fn larger_of(self, other: Real) -> (r: Real)
        ensures
            r == self.larger(other),
    {
        if self.is_nan() || self.is_below(other) {
            other
        } else {
            self
        }
    }

    /// Whether the value is finite and above zero, as a rate must be.
    pub fn is_rate(self) -> (r: bool)
        ensures
            r == (self.finite() && Real::zero().lt(self)),
    {
        self.is_finite() && (Real { bits: 0 }).is_below(self)
    }
}

/// Comparison of doubles is a strict order wherever both are numbers.
pub proof fn law_order_is_total(a: Real, b: Real, c: Real)
    requires
        !a.nan(),
        !b.nan(),
        !c.nan(),
    ensures
        a.lt(b) || b.lt(a) || a.same(b),
        !(a.lt(b) && b.lt(a)),
        a.lt(b) && b.lt(c) ==> a.lt(c),
        a.le(b) <==> !b.lt(a),
{
}

/// How bit patterns compare: numbers above zero by their patterns, numbers
/// below zero by their patterns the other way round, and any number below zero
/// lies below any above it; both zeros are the same number.
pub proof fn law_patterns_order_numbers(a: Real, b: Real)
    ensures
        a.bits <= 0x7ff0_0000_0000_0000 && b.bits <= 0x7ff0_0000_0000_0000 ==> (a.lt(b) <==> a.bits
            < b.bits) && (a.same(b) <==> a.bits == b.bits),
        0x8000_0000_0000_0000 <= a.bits <= 0xfff0_0000_0000_0000 && 0x8000_0000_0000_0000 <= b.bits
            <= 0xfff0_0000_0000_0000 ==> (a.lt(b) <==> a.bits > b.bits) && (a.same(b) <==> a.bits
            == b.bits),
        0x8000_0000_0000_0000 <= a.bits <= 0xfff0_0000_0000_0000 && b.bits <= 0x7ff0_0000_0000_0000
            ==> (a.lt(b) <==> a.bits != 0x8000_0000_0000_0000 || b.bits != 0) && !b.lt(a) && (a.same(
            b,
        ) <==> a.bits == 0x8000_0000_0000_0000 && b.bits == 0),
        0x7ff0_0000_0000_0000 < a.bits < 0x8000_0000_0000_0000 || 0xfff0_0000_0000_0000 < a.bits
            ==> !a.lt(b) && !b.lt(a) && !a.same(b) && !b.same(a) && !a.le(b) && !b.le(a),
        a.le(b) <==> a.lt(b) || a.same(b),
        a.finite() <==> a.bits < 0x7ff0_0000_0000_0000 || 0x8000_0000_0000_0000 <= a.bits
            < 0xfff0_0000_0000_0000,
        Real::zero().bits == 0,
        Real::one().bits == 0x3ff0_0000_0000_0000,
{
}

/// The smaller and the larger of two numbers are one of them each, on the right
/// side of both; beside a number, what is none gives way.
pub proof fn law_smaller_and_larger(a: Real, b: Real)
    ensures
        a.smaller(b) == a || a.smaller(b) == b,
        a.larger(b) == a || a.larger(b) == b,
        a.same(a) && b.same(b) ==> a.smaller(b).le(a) && a.smaller(b).le(b) && a.le(a.larger(b))
            && b.le(a.larger(b)),
        a.same(a) && !b.same(b) ==> a.smaller(b) == a && a.larger(b) == a,
        !a.same(a) ==> a.smaller(b) == b && a.larger(b) == b,
{
}

} // verus!
