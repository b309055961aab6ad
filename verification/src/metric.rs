//! Measured quantities, held by the bit pattern of their binary64 number.
use vstd::prelude::*;

verus! {

/// The bits of a binary64 number that give its sign.
pub const SIGN_BIT: u64 = 0x8000_0000_0000_0000;

/// The bits of positive infinity; a larger magnitude is not a number.
pub const INFINITY_BITS: u64 = 0x7ff0_0000_0000_0000;

/// A binary64 number, held by its bits. Numbers are compared here; they are computed and
/// printed where they are measured.
#[derive(Clone, Copy, Debug, PartialEq, Eq, Structural)]
pub struct Metric {
    pub bits: u64,
}

impl Metric {
    /// The bits without the sign.
    pub open spec fn magnitude(self) -> int {
        if self.bits >= SIGN_BIT {
            self.bits - SIGN_BIT
        } else {
            self.bits as int
        }
    }

    /// Whether the bits are those of a number, infinity included.
    pub open spec fn is_number(self) -> bool {
        self.magnitude() <= INFINITY_BITS
    }

    /// Where the number stands in the order of numbers: both zeros have rank 0.
    pub open spec fn rank(self) -> int {
        if self.bits >= SIGN_BIT {
            -self.magnitude()
        } else {
            self.magnitude()
        }
    }

    /// Whether `self >= other` holds of the two numbers; it does not where either is no number.
    pub open spec fn at_least(self, other: Metric) -> bool {
        self.is_number() && other.is_number() && self.rank() >= other.rank()
    }

    /// The metric with these bits.
    pub fn from_bits(bits: u64) -> (r: Metric)
        ensures
            r.bits == bits,
    {
        Metric { bits }
    }

    /// Zero.
    pub fn zero() -> (r: Metric)
        ensures
            r.bits == 0,
            r.is_number(),
            r.rank() == 0,
    {
        Metric { bits: 0 }
    }

    /// The rank of the number.
    pub fn to_rank(self) -> (r: i128)
        ensures
            r == self.rank(),
    {
        if self.bits >= SIGN_BIT {
            -((self.bits - SIGN_BIT) as i128)
        } else {
            self.bits as i128
        }
    }

    /// Whether the bits are those of a number.
    pub fn number(self) -> (r: bool)
        ensures
            r == self.is_number(),
    {
        if self.bits >= SIGN_BIT {
            self.bits - SIGN_BIT <= INFINITY_BITS
        } else {
            self.bits <= INFINITY_BITS
        }
    }

    /// Whether `self >= other` holds of the two numbers.
    pub fn reaches(self, other: Metric) -> (r: bool)
        ensures
            r == self.at_least(other),
    {
        self.number() && other.number() && self.to_rank() >= other.to_rank()
    }

    /// Whether the number is greater than zero.
    pub fn is_positive(self) -> (r: bool)
        ensures
            r == (self.is_number() && self.rank() > 0),
    {
        self.number() && self.to_rank() > 0
    }

    /// Whether the number is less than zero.
    pub fn is_negative(self) -> (r: bool)
        ensures
            r == (self.is_number() && self.rank() < 0),
    {
        self.number() && self.to_rank() < 0
    }
}

/// Of bits without their sign, those up to infinity are numbers; of two numbers the one with the
/// larger bits is the greater where both are positive and the lesser where both are negative, and
/// none that is negative is greater than one that is not. What is no number reaches nothing and is
/// not reached.
pub proof fn law_comparison(a: Metric, b: Metric)
    ensures
        a.is_number() <==> a.bits % SIGN_BIT <= INFINITY_BITS,
        a.at_least(b) ==> a.is_number() && b.is_number(),
        a.is_number() && b.is_number() ==> {
            &&& a.bits < SIGN_BIT && b.bits < SIGN_BIT ==> (a.at_least(b) <==> a.bits >= b.bits)
            &&& a.bits >= SIGN_BIT && b.bits >= SIGN_BIT ==> (a.at_least(b) <==> a.bits <= b.bits)
            &&& a.bits < SIGN_BIT && b.bits >= SIGN_BIT ==> a.at_least(b)
            &&& a.bits > SIGN_BIT && b.bits < SIGN_BIT ==> !a.at_least(b)
            &&& a.bits == SIGN_BIT && b.bits < SIGN_BIT ==> (a.at_least(b) <==> b.bits == 0)
            &&& a.rank() >= b.rank() <==> a.at_least(b)
            &&& a.rank() > 0 <==> 0 < a.bits < SIGN_BIT
            &&& a.rank() < 0 <==> a.bits > SIGN_BIT
        },
{
}

} // verus!
