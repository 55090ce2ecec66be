//! Single-precision numbers, held by their 32-bit pattern.
//!
//! A pattern has a sign bit, eight exponent bits and twenty-three fraction
//! bits. The pattern without its sign bit is the magnitude; magnitudes order
//! the way the absolute values they stand for do.
use vstd::prelude::*;

verus! {

/// The sign bit of a pattern.
pub const SIGN_BIT: u32 = 0x8000_0000;

/// The magnitude of both infinities; every larger magnitude is not a number.
pub const INFINITY_MAGNITUDE: u32 = 0x7F80_0000;

/// The magnitude of the largest finite value.
pub const MAX_MAGNITUDE: u32 = 0x7F7F_FFFF;

/// The pattern every invalid operation returns. Machines differ in which
/// non-number their arithmetic gives; the library always gives this one.
pub const NAN_BITS: u32 = 0x7FC0_0000;

/// A single-precision number.
#[derive(Clone, Copy, Debug)]
pub struct Single {
    pub bits: u32,
}

impl Single {
    /// The pattern without its sign bit.
    pub open spec fn magnitude(self) -> u32 {
        (self.bits % 0x8000_0000) as u32
    }

    /// Whether the sign bit is set (it may be on a zero or on a non-number).
    pub open spec fn is_negative(self) -> bool {
        self.bits >= 0x8000_0000
    }

    /// Not a number: a magnitude above that of infinity.
    pub open spec fn is_nan(self) -> bool {
        self.magnitude() > INFINITY_MAGNITUDE
    }

    /// Positive or negative infinity.
    pub open spec fn is_infinite(self) -> bool {
        self.magnitude() == INFINITY_MAGNITUDE
    }

    /// Neither infinite nor a non-number.
    pub open spec fn is_finite(self) -> bool {
        self.magnitude() < INFINITY_MAGNITUDE
    }

    /// Either zero, the positive or the negative one.
    pub open spec fn is_zero(self) -> bool {
        self.magnitude() == 0
    }

    /// Above zero: a number, not zero, without the sign bit. Positive
    /// infinity is above zero.
    pub open spec fn is_positive(self) -> bool {
        !self.is_nan() && !self.is_zero() && !self.is_negative()
    }

    /// The number with the given sign and magnitude.
    pub open spec fn compose(negative: bool, magnitude: u32) -> Single {
        Single { bits: if negative { (magnitude + 0x8000_0000) as u32 } else { magnitude } }
    }

    /// The non-number that every invalid operation returns.
    pub open spec fn nan() -> Single {
        Single { bits: NAN_BITS }
    }

    /// The positive zero.
    pub open spec fn zero() -> Single {
        Single { bits: 0 }
    }

    /// Positive infinity.
    pub open spec fn infinity() -> Single {
        Single { bits: INFINITY_MAGNITUDE }
    }

    /// Negative infinity.
    pub open spec fn neg_infinity() -> Single {
        Single { bits: 0xFF80_0000 }
    }

    /// The largest finite value.
    pub open spec fn max() -> Single {
        Single { bits: MAX_MAGNITUDE }
    }

    /// The smallest finite value, the negative of the largest.
    pub open spec fn min() -> Single {
        Single { bits: 0xFF7F_FFFF }
    }

    /// The same magnitude under the opposite sign, for every pattern.
    pub open spec fn negation(self) -> Single {
        Single::compose(!self.is_negative(), self.magnitude())
    }

    /// The number with the given pattern.
    pub fn from_bits(bits: u32) -> (r: Single)
        ensures
            r.bits == bits,
    {
        Single { bits }
    }

    /// The pattern of the number.
    pub fn to_bits(self) -> (bits: u32)
        ensures
            bits == self.bits,
    {
        self.bits
    }

    /// Whether the sign bit is set.
    pub fn sign(self) -> (negative: bool)
        ensures
            negative == self.is_negative(),
    {
        self.bits >= SIGN_BIT
    }

    /// The pattern without its sign bit.
    pub fn magnitude_bits(self) -> (m: u32)
        ensures
            m == self.magnitude(),
            m < 0x8000_0000,
    {
        self.bits % SIGN_BIT
    }

    /// Puts a sign on a magnitude.
    pub fn with_sign(negative: bool, magnitude: u32) -> (r: Single)
        requires
            magnitude < 0x8000_0000,
        ensures
            r == Single::compose(negative, magnitude),
            r.magnitude() == magnitude,
            r.is_negative() == negative,
    {
        if negative {
            Single { bits: magnitude + SIGN_BIT }
        } else {
            Single { bits: magnitude }
        }
    }

    /// Whether the number compares equal to zero.
    pub fn equals_zero(self) -> (r: bool)
        ensures
            r == self.is_zero(),
    {
        self.magnitude_bits() == 0
    }

    /// Flips the sign bit and nothing else.
    pub fn neg(self) -> (r: Single)
        ensures
            r == self.negation(),
    {
        Single::with_sign(!self.sign(), self.magnitude_bits())
    }
}

} // verus!
