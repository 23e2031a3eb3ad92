use vstd::prelude::*;

verus! {

/// A numeric literal, held as the bit pattern of an IEEE-754 binary64 value.
///
/// The library never does floating-point arithmetic itself: it only asks
/// whether a value is zero or one, copies values, and creates a few constants.
/// Arithmetic on two literals is supplied by the caller (see the simplifier).
#[derive(Clone, Copy, Debug, PartialEq, Eq, Structural)]
pub struct Number {
    pub bits: u64,
}

pub const ZERO_BITS: u64 = 0x0000_0000_0000_0000;

pub const NEG_ZERO_BITS: u64 = 0x8000_0000_0000_0000;

pub const ONE_BITS: u64 = 0x3FF0_0000_0000_0000;

pub const MINUS_ONE_BITS: u64 = 0xBFF0_0000_0000_0000;

pub const TWO_BITS: u64 = 0x4000_0000_0000_0000;

/// The value compares equal to `0.0`: positive or negative zero.
pub open spec fn spec_is_zero(n: Number) -> bool {
    n.bits == ZERO_BITS || n.bits == NEG_ZERO_BITS
}

/// The value compares equal to `1.0`.
pub open spec fn spec_is_one(n: Number) -> bool {
    n.bits == ONE_BITS
}

pub open spec fn num(bits: u64) -> Number {
    Number { bits }
}

impl Number {
    pub fn from_bits(bits: u64) -> (r: Number)
        ensures
            r.bits == bits,
    {
        Number { bits }
    }

    pub fn to_bits(&self) -> (r: u64)
        ensures
            r == self.bits,
    {
        self.bits
    }

    pub fn zero() -> (r: Number)
        ensures
            r == num(ZERO_BITS),
    {
        Number { bits: ZERO_BITS }
    }

    pub fn one() -> (r: Number)
        ensures
            r == num(ONE_BITS),
    {
        Number { bits: ONE_BITS }
    }

    pub fn minus_one() -> (r: Number)
        ensures
            r == num(MINUS_ONE_BITS),
    {
        Number { bits: MINUS_ONE_BITS }
    }

    pub fn two() -> (r: Number)
        ensures
            r == num(TWO_BITS),
    {
        Number { bits: TWO_BITS }
    }

    /// Whether the value compares equal to zero (either sign).
    pub fn is_zero(&self) -> (r: bool)
        ensures
            r == spec_is_zero(*self),
    {
        self.bits == ZERO_BITS || self.bits == NEG_ZERO_BITS
    }

    /// Whether the value compares equal to one.
    pub fn is_one(&self) -> (r: bool)
        ensures
            r == spec_is_one(*self),
    {
        self.bits == ONE_BITS
    }
}

} // verus!
