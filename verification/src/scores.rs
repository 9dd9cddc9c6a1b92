//! Numbers that come from outside and are only compared: floating-point values by their bit
//! patterns, and exact shares.

use vstd::prelude::*;

verus! {

/// An IEEE 754 single-precision value, held by its bit pattern.
#[derive(Debug, Clone, Copy, PartialEq, Eq, Structural)]
pub struct Score {
    pub bits: u32,
}

impl Score {
    /// The value is not a number.
    pub open spec fn nan(self) -> bool {
        self.bits % 0x8000_0000 > 0x7f80_0000
    }

    /// The place of the value among those that are numbers: both zeros share one place.
    pub open spec fn place(self) -> int {
        if self.bits < 0x8000_0000 {
            self.bits as int
        } else {
            0x8000_0000 - self.bits
        }
    }

    /// Less than, as single-precision values compare: nothing is less than what is not a number.
    pub open spec fn lt(self, other: Score) -> bool {
        !self.nan() && !other.nan() && self.place() < other.place()
    }

    /// At least, as single-precision values compare.
    pub open spec fn ge(self, other: Score) -> bool {
        !self.nan() && !other.nan() && self.place() >= other.place()
    }

    /// The value with the given bit pattern.
    pub fn from_bits(bits: u32) -> (r: Self)
        ensures
            r.bits == bits,
    {
        Score { bits }
    }

    /// Zero.
    pub fn zero() -> (r: Self)
        ensures
            r == (Score { bits: 0 }),
    {
        Score { bits: 0 }
    }

    /// One.
    pub fn one() -> (r: Self)
        ensures
            r == (Score { bits: 0x3f80_0000 }),
    {
        Score { bits: 0x3f80_0000 }
    }

    /// One half.
    pub fn half() -> (r: Self)
        ensures
            r == (Score { bits: 0x3f00_0000 }),
    {
        Score { bits: 0x3f00_0000 }
    }

    /// Whether the value is not a number.
    pub fn is_nan(self) -> (r: bool)
        ensures
            r == self.nan(),
    {
        self.bits % 0x8000_0000 > 0x7f80_0000
    }

    /// The place of the value among those that are numbers.
    pub fn rank(self) -> (r: i64)
        ensures
            r == self.place(),
    {
        if self.bits < 0x8000_0000 {
            self.bits as i64
        } else {
            0x8000_0000i64 - self.bits as i64
        }
    }

    /// Whether this value is less than `other`.
    pub fn less_than(self, other: Score) -> (r: bool)
        ensures
            r == self.lt(other),
    {
        !self.is_nan() && !other.is_nan() && self.rank() < other.rank()
    }

    /// Whether this value is at least `other`.
    pub fn at_least(self, other: Score) -> (r: bool)
        ensures
            r == self.ge(other),
    {
        !self.is_nan() && !other.is_nan() && self.rank() >= other.rank()
    }

    /// The lesser of two values; of a number and what is none, the number.
    pub open spec fn lesser(self, other: Score) -> Score {
        if other.nan() {
            self
        } else if self.nan() || other.place() < self.place() {
            other
        } else {
            self
        }
    }

    /// The greater of two values; of a number and what is none, the number.
    pub open spec fn greater(self, other: Score) -> Score {
        if other.nan() {
            self
        } else if self.nan() || other.place() > self.place() {
            other
        } else {
            self
        }
    }

    /// The lesser of two values.
    pub fn min(self, other: Score) -> (r: Score)
        ensures
            r == self.lesser(other),
    {
        if other.is_nan() {
            self
        } else if self.is_nan() || other.rank() < self.rank() {
            other
        } else {
            self
        }
    }

    /// The greater of two values.
    pub fn max(self, other: Score) -> (r: Score)
        ensures
            r == self.greater(other),
    {
        if other.is_nan() {
            self
        } else if self.is_nan() || other.rank() > self.rank() {
            other
        } else {
            self
        }
    }
}

/// Of two numbers exactly one of less-than and at-least holds.
pub proof fn law_scores_compare(a: Score, b: Score)
    requires
        !a.nan(),
        !b.nan(),
    ensures
        a.lt(b) != a.ge(b),
{
}

/// An IEEE 754 double-precision value, held by its bit pattern.
#[derive(Debug, Clone, Copy, PartialEq, Eq, Structural)]
pub struct Amount {
    pub bits: u64,
}

/// An exact share: a numerator over a denominator that is not zero.
#[derive(Debug, Clone, Copy, PartialEq, Eq, Structural)]
pub struct Share {
    pub numerator: i128,
    pub denominator: u64,
}

/// Values order as numbers: without the sign bit by their bits, with it the other way round, and those
/// with it before those without, but that both zeros are equal. What is not a number has no place: it
/// is neither less than, nor at least, anything.
pub proof fn law_scores_order_as_numbers(a: Score, b: Score)
    ensures
        !a.nan() && !b.nan() && a.bits < 0x8000_0000 && b.bits < 0x8000_0000 ==> (a.lt(b)
            <==> a.bits < b.bits),
        !a.nan() && !b.nan() && a.bits >= 0x8000_0000 && b.bits >= 0x8000_0000 ==> (a.lt(b)
            <==> a.bits > b.bits),
        !a.nan() && !b.nan() && a.bits > 0x8000_0000 && b.bits < 0x8000_0000 ==> a.lt(b)
            && !b.lt(a),
        a.bits == 0x8000_0000 && b.bits == 0 ==> !a.lt(b) && !b.lt(a) && a.ge(b) && b.ge(a),
        a.nan() || b.nan() ==> !a.lt(b) && !a.ge(b),
        a.bits <= 0x7f80_0000 ==> !a.nan(),
        0x7f80_0000 < a.bits < 0x8000_0000 ==> a.nan(),
        0x8000_0000 <= a.bits <= 0xff80_0000 ==> !a.nan(),
        0xff80_0000 < a.bits ==> a.nan(),
{
}

/// The lesser and the greater of two values are among them, the lesser at most and the greater at
/// least both where both are numbers; where one is not, both are the other.
pub proof fn law_lesser_and_greater(a: Score, b: Score)
    ensures
        a.lesser(b) == a || a.lesser(b) == b,
        a.greater(b) == a || a.greater(b) == b,
        !a.nan() && !b.nan() ==> a.lesser(b).place() <= a.place() && a.lesser(b).place()
            <= b.place() && a.greater(b).place() >= a.place() && a.greater(b).place() >= b.place(),
        !a.nan() && !b.nan() && a.place() == b.place() ==> a.lesser(b) == a && a.greater(b) == a,
        a.nan() && !b.nan() ==> a.lesser(b) == b && a.greater(b) == b,
        !a.nan() && b.nan() ==> a.lesser(b) == a && a.greater(b) == a,
{
}

} // verus!
