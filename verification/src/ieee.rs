//! Floating-point numbers held by their bit patterns.
//!
//! Vectors, scores and thresholds are IEEE 754 numbers. The library never does arithmetic on
//! them (see [`crate::kernels::Kernels`]); it compares them and ranks by them, and for that the
//! bit pattern is enough: read as sign and magnitude, the bits of two numbers that are not NaN
//! stand in the same order as the numbers.

use vstd::prelude::*;

verus! {

/// The bit that holds the sign of a single-precision number.
pub const SINGLE_SIGN: u32 = 0x8000_0000;

/// The magnitude bits of single-precision infinity; a larger magnitude is a NaN.
pub const SINGLE_INFINITY: u32 = 0x7f80_0000;

/// The bit that holds the sign of a double-precision number.
pub const DOUBLE_SIGN: u64 = 0x8000_0000_0000_0000;

/// The magnitude bits of double-precision infinity; a larger magnitude is a NaN.
pub const DOUBLE_INFINITY: u64 = 0x7ff0_0000_0000_0000;

/// A single-precision number.
#[derive(Clone, Copy, Debug, PartialEq, Eq, Structural)]
pub struct Real {
    pub bits: u32,
}

impl Real {
    /// The bits without the sign.
    pub open spec fn magnitude(self) -> int {
        if self.bits >= SINGLE_SIGN {
            self.bits - SINGLE_SIGN
        } else {
            self.bits as int
        }
    }

    pub open spec fn nan(self) -> bool {
        self.magnitude() > SINGLE_INFINITY
    }

    /// Where the number stands among the numbers that are not NaN; both zeros stand at 0.
    pub open spec fn place(self) -> int {
        if self.bits >= SINGLE_SIGN {
            -self.magnitude()
        } else {
            self.magnitude()
        }
    }

    /// The IEEE relation `self < other`; false as soon as one side is NaN.
    pub open spec fn less(self, other: Real) -> bool {
        !self.nan() && !other.nan() && self.place() < other.place()
    }

    /// The IEEE relation `self <= other`; false as soon as one side is NaN.
    pub open spec fn at_most(self, other: Real) -> bool {
        !self.nan() && !other.nan() && self.place() <= other.place()
    }

    /// The rank of a distance: the nearer, the smaller, and NaN after everything else.
    pub open spec fn near_rank(self) -> int {
        if self.nan() {
            SINGLE_INFINITY + 1
        } else {
            self.place()
        }
    }

    /// The rank of a score: the higher the score, the smaller, and NaN after everything else.
    pub open spec fn best_rank(self) -> int {
        if self.nan() {
            SINGLE_INFINITY + 1
        } else {
            -self.place()
        }
    }

    /// The number with its sign flipped.
    pub open spec fn opposite(self) -> Real {
        Real {
            bits: if self.bits >= SINGLE_SIGN {
                (self.bits - SINGLE_SIGN) as u32
            } else {
                (self.bits + SINGLE_SIGN) as u32
            },
        }
    }

    fn signed_magnitude(&self) -> (r: i64)
        ensures
            r == self.place(),
            -0x8000_0000 < r < 0x8000_0000,
    {
        if self.bits >= SINGLE_SIGN {
            -((self.bits - SINGLE_SIGN) as i64)
        } else {
            self.bits as i64
        }
    }

    pub fn is_nan(&self) -> (r: bool)
        ensures
            r == self.nan(),
    {
        if self.bits >= SINGLE_SIGN {
            self.bits - SINGLE_SIGN > SINGLE_INFINITY
        } else {
            self.bits > SINGLE_INFINITY
        }
    }

    /// `self < other` as IEEE 754 has it.
    pub fn lt(&self, other: Real) -> (r: bool)
        ensures
            r == self.less(other),
    {
        !self.is_nan() && !other.is_nan() && self.signed_magnitude() < other.signed_magnitude()
    }

    /// `self >= other` as IEEE 754 has it.
    pub fn ge(&self, other: Real) -> (r: bool)
        ensures
            r == other.at_most(*self),
    {
        !self.is_nan() && !other.is_nan() && self.signed_magnitude() >= other.signed_magnitude()
    }

    pub fn rank_near(&self) -> (r: i64)
        ensures
            r == self.near_rank(),
            -0x8000_0000 < r < 0x8000_0000,
    {
        if self.is_nan() {
            SINGLE_INFINITY as i64 + 1
        } else {
            self.signed_magnitude()
        }
    }

    pub fn rank_best(&self) -> (r: i64)
        ensures
            r == self.best_rank(),
            -0x8000_0000 < r < 0x8000_0000,
    {
        if self.is_nan() {
            SINGLE_INFINITY as i64 + 1
        } else {
            -self.signed_magnitude()
        }
    }

    pub fn negated(&self) -> (r: Real)
        ensures
            r == self.opposite(),
    {
        if self.bits >= SINGLE_SIGN {
            Real { bits: self.bits - SINGLE_SIGN }
        } else {
            Real { bits: self.bits + SINGLE_SIGN }
        }
    }
}

/// A double-precision number.
#[derive(Clone, Copy, Debug, PartialEq, Eq, Structural)]
pub struct Double {
    pub bits: u64,
}

impl Double {
    pub open spec fn magnitude(self) -> int {
        if self.bits >= DOUBLE_SIGN {
            self.bits - DOUBLE_SIGN
        } else {
            self.bits as int
        }
    }

    pub open spec fn nan(self) -> bool {
        self.magnitude() > DOUBLE_INFINITY
    }

    /// Neither infinite nor NaN.
    pub open spec fn finite(self) -> bool {
        self.magnitude() < DOUBLE_INFINITY
    }

    pub open spec fn place(self) -> int {
        if self.bits >= DOUBLE_SIGN {
            -self.magnitude()
        } else {
            self.magnitude()
        }
    }

    /// The IEEE relation `self < other`.
    pub open spec fn less(self, other: Double) -> bool {
        !self.nan() && !other.nan() && self.place() < other.place()
    }

    /// The IEEE relation `self <= other`.
    pub open spec fn at_most(self, other: Double) -> bool {
        !self.nan() && !other.nan() && self.place() <= other.place()
    }

    /// The IEEE relation `self == other`: a NaN equals nothing, the two zeros are equal.
    pub open spec fn same(self, other: Double) -> bool {
        !self.nan() && !other.nan() && self.place() == other.place()
    }

    fn signed_magnitude(&self) -> (r: i128)
        ensures
            r == self.place(),
    {
        if self.bits >= DOUBLE_SIGN {
            -((self.bits - DOUBLE_SIGN) as i128)
        } else {
            self.bits as i128
        }
    }

    pub fn is_nan(&self) -> (r: bool)
        ensures
            r == self.nan(),
    {
        if self.bits >= DOUBLE_SIGN {
            self.bits - DOUBLE_SIGN > DOUBLE_INFINITY
        } else {
            self.bits > DOUBLE_INFINITY
        }
    }

    pub fn is_finite(&self) -> (r: bool)
        ensures
            r == self.finite(),
    {
        if self.bits >= DOUBLE_SIGN {
            self.bits - DOUBLE_SIGN < DOUBLE_INFINITY
        } else {
            self.bits < DOUBLE_INFINITY
        }
    }

    /// `self < other` as IEEE 754 has it.
    pub fn lt(&self, other: Double) -> (r: bool)
        ensures
            r == self.less(other),
    {
        !self.is_nan() && !other.is_nan() && self.signed_magnitude() < other.signed_magnitude()
    }

    /// `self <= other` as IEEE 754 has it.
    pub fn le(&self, other: Double) -> (r: bool)
        ensures
            r == self.at_most(other),
    {
        !self.is_nan() && !other.is_nan() && self.signed_magnitude() <= other.signed_magnitude()
    }

    /// `self == other` as IEEE 754 has it.
    pub fn equals(&self, other: Double) -> (r: bool)
        ensures
            r == self.same(other),
    {
        !self.is_nan() && !other.is_nan() && self.signed_magnitude() == other.signed_magnitude()
    }
}

/// Flipping the sign twice gives the number back, and flipping turns the order round.
pub proof fn law_opposite(a: Real, b: Real)
    ensures
        a.opposite().opposite() == a,
        a.opposite().nan() == a.nan(),
        a.opposite().less(b.opposite()) == b.less(a),
{
}

} // verus!
