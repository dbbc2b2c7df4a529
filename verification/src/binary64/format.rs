//! The binary64 interchange format: sign, biased exponent and fraction.

use vstd::prelude::*;

verus! {

/// The sign bit, `2^63`.
pub const SIGN_BIT: u64 = 0x8000_0000_0000_0000;

/// The implicit leading bit of a normal significand, `2^52`.
pub const HIDDEN_BIT: u64 = 0x0010_0000_0000_0000;

/// The magnitude bits of an infinity: exponent field all ones, fraction zero.
pub const INFINITY_BITS: u64 = 0x7ff0_0000_0000_0000;

/// The bits of the one NaN that the operations of this library produce.
pub const NAN_BITS: u64 = 0x7ff8_0000_0000_0000;

/// The bits of 1.0.
pub const ONE_BITS: u64 = 0x3ff0_0000_0000_0000;

/// The bits of 2.0.
pub const TWO_BITS: u64 = 0x4000_0000_0000_0000;

/// The bits of 3.0.
pub const THREE_BITS: u64 = 0x4008_0000_0000_0000;

/// The bits of 4.0.
pub const FOUR_BITS: u64 = 0x4010_0000_0000_0000;

/// The bits of 6.0.
pub const SIX_BITS: u64 = 0x4018_0000_0000_0000;

/// The exponent of the least significant bit of a subnormal number.
pub const MIN_EXPONENT: i32 = -1074;

/// An IEEE 754 binary64 number, held as its 64-bit pattern.
#[derive(Clone, Copy, Debug)]
pub struct Binary64 {
    pub bits: u64,
}

impl Binary64 {
    /// The sign bit is set.
    pub open spec fn negative(self) -> bool {
        self.bits >= SIGN_BIT
    }

    /// The bits without the sign bit.
    pub open spec fn magnitude(self) -> nat {
        (self.bits % SIGN_BIT) as nat
    }

    /// The biased exponent, in `0..=2047`.
    pub open spec fn exponent_field(self) -> nat {
        self.magnitude() / (HIDDEN_BIT as nat)
    }

    /// The 52 fraction bits.
    pub open spec fn fraction_field(self) -> nat {
        (self.bits % HIDDEN_BIT) as nat
    }

    /// Not a number.
    pub open spec fn nan(self) -> bool {
        self.magnitude() > INFINITY_BITS
    }

    /// Positive or negative infinity.
    pub open spec fn infinite(self) -> bool {
        self.magnitude() == INFINITY_BITS
    }

    /// Zero, subnormal or normal.
    pub open spec fn finite(self) -> bool {
        self.magnitude() < INFINITY_BITS
    }

    /// Positive or negative zero.
    pub open spec fn zero(self) -> bool {
        self.magnitude() == 0
    }

    /// The integer `m` of a finite number `±m·2^e`: the fraction, with the
    /// implicit bit where the number is normal.
    pub open spec fn significand(self) -> nat {
        if self.exponent_field() == 0 {
            self.fraction_field()
        } else {
            self.fraction_field() + HIDDEN_BIT as nat
        }
    }

    /// The integer `e` of a finite number `±m·2^e`.
    pub open spec fn exponent(self) -> int {
        if self.exponent_field() == 0 {
            MIN_EXPONENT as int
        } else {
            self.exponent_field() - 1075
        }
    }

    /// The zero of the given sign.
    pub open spec fn signed_zero(negative: bool) -> Binary64 {
        Binary64 { bits: if negative { SIGN_BIT } else { 0 } }
    }

    /// The infinity of the given sign.
    pub open spec fn signed_infinity(negative: bool) -> Binary64 {
        Binary64 { bits: if negative { (SIGN_BIT + INFINITY_BITS) as u64 } else { INFINITY_BITS } }
    }

    /// The NaN that operations return.
    pub open spec fn canonical_nan() -> Binary64 {
        Binary64 { bits: NAN_BITS }
    }

    /// Positive zero.
    pub open spec fn positive_zero() -> Binary64 {
        Binary64 { bits: 0 }
    }

    /// The number 1.
    pub open spec fn one() -> Binary64 {
        Binary64 { bits: ONE_BITS }
    }

    /// The number 2.
    pub open spec fn two() -> Binary64 {
        Binary64 { bits: TWO_BITS }
    }

    /// The number 3.
    pub open spec fn three() -> Binary64 {
        Binary64 { bits: THREE_BITS }
    }

    /// The number 4.
    pub open spec fn four() -> Binary64 {
        Binary64 { bits: FOUR_BITS }
    }

    /// The number 6.
    pub open spec fn six() -> Binary64 {
        Binary64 { bits: SIX_BITS }
    }

    /// The number with the opposite sign bit.
    pub open spec fn negated(self) -> Binary64 {
        Binary64 { bits: if self.bits >= SIGN_BIT { (self.bits - SIGN_BIT) as u64 } else { (self.bits + SIGN_BIT) as u64 } }
    }

    pub fn from_bits(bits: u64) -> (r: Binary64)
        ensures
            r.bits == bits,
    {
        Binary64 { bits }
    }

    pub fn to_bits(self) -> (r: u64)
        ensures
            r == self.bits,
    {
        self.bits
    }

    pub fn is_sign_negative(self) -> (r: bool)
        ensures
            r == self.negative(),
    {
        self.bits >= SIGN_BIT
    }

    pub fn is_nan(self) -> (r: bool)
        ensures
            r == self.nan(),
    {
        self.bits % SIGN_BIT > INFINITY_BITS
    }

    pub fn is_infinite(self) -> (r: bool)
        ensures
            r == self.infinite(),
    {
        self.bits % SIGN_BIT == INFINITY_BITS
    }

    pub fn is_finite(self) -> (r: bool)
        ensures
            r == self.finite(),
    {
        self.bits % SIGN_BIT < INFINITY_BITS
    }

    pub fn is_zero(self) -> (r: bool)
        ensures
            r == self.zero(),
    {
        self.bits % SIGN_BIT == 0
    }

    /// Flips the sign bit, of a NaN too.
    pub fn neg(self) -> (r: Binary64)
        ensures
            r == self.negated(),
    {
        if self.bits >= SIGN_BIT {
            Binary64 { bits: self.bits - SIGN_BIT }
        } else {
            Binary64 { bits: self.bits + SIGN_BIT }
        }
    }
    /// The significand and the exponent of a finite number.
    pub fn decode(self) -> (r: (u64, i32))
        requires
            self.finite(),
        ensures
            r.0 == self.significand(),
            r.1 == self.exponent(),
            r.0 < 0x20_0000_0000_0000,
            -1074 <= r.1 <= 971,
            r.1 > -1074 ==> r.0 >= HIDDEN_BIT,
            r.0 == 0 <==> self.zero(),
    {
        let field = (self.bits % SIGN_BIT) / HIDDEN_BIT;
        let fraction = self.bits % HIDDEN_BIT;
        if field == 0 {
            (fraction, MIN_EXPONENT)
        } else {
            (fraction + HIDDEN_BIT, (field as i32) - 1075)
        }
    }
}

} // verus!
