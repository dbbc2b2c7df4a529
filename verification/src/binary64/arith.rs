//! Addition, subtraction, multiplication and division of binary64 numbers, and
//! the conversion from an unsigned integer.

use vstd::prelude::*;
use vstd::arithmetic::power2::*;
use vstd::arithmetic::div_mod::*;
use vstd::arithmetic::mul::*;
use crate::binary64::format::{Binary64, SIGN_BIT, HIDDEN_BIT, INFINITY_BITS, NAN_BITS};
use crate::binary64::powers::{
    bit_len, bit_length, pow2_exec, lemma_bit_len_at_least, lemma_bit_len_below,
    lemma_bit_len_bounds, lemma_pow2_le, lemma_pow2_values,
};
use crate::binary64::rounding::{lemma_round_coarsen, round, round_to_nearest};

verus! {

/// `v` or `-v`.
pub open spec fn signed(negative: bool, v: nat) -> int {
    if negative {
        -(v as int)
    } else {
        v as int
    }
}

/// The rounded sum of `±m1·2^e1` and `±m2·2^e2`, where `e1 >= e2`. An exact sum
/// of zero is negative only if both terms are.
pub open spec fn sum_of_parts(s1: bool, m1: nat, e1: int, s2: bool, m2: nat, e2: int) -> Binary64 {
    let total = signed(s1, m1 * pow2((e1 - e2) as nat)) + signed(s2, m2);
    if total == 0 {
        Binary64::signed_zero(s1 && s2)
    } else if total < 0 {
        round(true, (-total) as nat, e2, false)
    } else {
        round(false, total as nat, e2, false)
    }
}

impl Binary64 {
    /// How far the significand of a finite number other than zero lies under
    /// 53 bits.
    pub open spec fn normal_shift(self) -> nat {
        (53 - bit_len(self.significand())) as nat
    }

    /// The significand scaled to 53 bits, in `2^52..2^53`.
    pub open spec fn normal_significand(self) -> nat {
        self.significand() * pow2(self.normal_shift())
    }

    /// The exponent that goes with `normal_significand`.
    pub open spec fn normal_exponent(self) -> int {
        self.exponent() - self.normal_shift()
    }

    /// `self + rhs`: the exact sum, rounded. NaN if an operand is NaN or the
    /// operands are infinities of opposite sign.
    #[verifier::opaque]
    pub open spec fn sum(self, rhs: Binary64) -> Binary64 {
        if self.nan() || rhs.nan() {
            Binary64::canonical_nan()
        } else if self.infinite() {
            if rhs.infinite() && self.negative() != rhs.negative() {
                Binary64::canonical_nan()
            } else {
                self
            }
        } else if rhs.infinite() {
            rhs
        } else if self.exponent() >= rhs.exponent() {
            sum_of_parts(
                self.negative(),
                self.significand(),
                self.exponent(),
                rhs.negative(),
                rhs.significand(),
                rhs.exponent(),
            )
        } else {
            sum_of_parts(
                rhs.negative(),
                rhs.significand(),
                rhs.exponent(),
                self.negative(),
                self.significand(),
                self.exponent(),
            )
        }
    }

    /// `self - rhs`, which is `self + (-rhs)`.
    pub open spec fn difference(self, rhs: Binary64) -> Binary64 {
        self.sum(rhs.negated())
    }

    /// `self * rhs`: the exact product, rounded. NaN if an operand is NaN or
    /// one is zero and the other infinite.
    #[verifier::opaque]
    pub open spec fn product(self, rhs: Binary64) -> Binary64 {
        let negative = self.negative() != rhs.negative();
        if self.nan() || rhs.nan() {
            Binary64::canonical_nan()
        } else if self.infinite() || rhs.infinite() {
            if self.zero() || rhs.zero() {
                Binary64::canonical_nan()
            } else {
                Binary64::signed_infinity(negative)
            }
        } else {
            round(
                negative,
                self.significand() * rhs.significand(),
                self.exponent() + rhs.exponent(),
                false,
            )
        }
    }

    /// `self / rhs`: the exact quotient, rounded. NaN if an operand is NaN,
    /// both are zero or both are infinite. The quotient of the significands,
    /// each scaled to 53 bits, is taken to 60 binary places; `sticky` says
    /// whether the division left a remainder.
    #[verifier::opaque]
    pub open spec fn quotient(self, rhs: Binary64) -> Binary64 {
        let negative = self.negative() != rhs.negative();
        if self.nan() || rhs.nan() {
            Binary64::canonical_nan()
        } else if self.infinite() {
            if rhs.infinite() {
                Binary64::canonical_nan()
            } else {
                Binary64::signed_infinity(negative)
            }
        } else if rhs.infinite() {
            Binary64::signed_zero(negative)
        } else if rhs.zero() {
            if self.zero() {
                Binary64::canonical_nan()
            } else {
                Binary64::signed_infinity(negative)
            }
        } else if self.zero() {
            Binary64::signed_zero(negative)
        } else {
            let n = self.normal_significand() * 0x1000_0000_0000_0000;
            let d = rhs.normal_significand();
            round(negative, n / d, self.normal_exponent() - rhs.normal_exponent() - 60, n % d != 0)
        }
    }

    /// The binary64 number nearest to the integer `n`.
    #[verifier::opaque]
    pub open spec fn of_integer(n: nat) -> Binary64 {
        round(false, n, 0, false)
    }

    /// Converts an unsigned integer, rounding where it has more than 53 bits.
    pub fn from_u64(n: u64) -> (r: Binary64)
        ensures
            r == Binary64::of_integer(n as nat),
    {
        proof {
            reveal(Binary64::of_integer);
        }
        round_to_nearest(false, n as u128, 0, false)
    }

    pub fn add(self, rhs: Binary64) -> (r: Binary64)
        ensures
            r == self.sum(rhs),
    {
        proof {
            reveal(Binary64::sum);
        }
        if self.is_nan() || rhs.is_nan() {
            return Binary64 { bits: NAN_BITS };
        }
        if self.is_infinite() {
            if rhs.is_infinite() && self.is_sign_negative() != rhs.is_sign_negative() {
                return Binary64 { bits: NAN_BITS };
            }
            return self;
        }
        if rhs.is_infinite() {
            return rhs;
        }
        let (ma, ea) = self.decode();
        let (mb, eb) = rhs.decode();
        if ea >= eb {
            add_parts(self.is_sign_negative(), ma, ea, rhs.is_sign_negative(), mb, eb)
        } else {
            add_parts(rhs.is_sign_negative(), mb, eb, self.is_sign_negative(), ma, ea)
        }
    }

    pub fn sub(self, rhs: Binary64) -> (r: Binary64)
        ensures
            r == self.difference(rhs),
    {
        self.add(rhs.neg())
    }

    pub fn mul(self, rhs: Binary64) -> (r: Binary64)
        ensures
            r == self.product(rhs),
    {
        proof {
            reveal(Binary64::product);
        }
        let negative = self.is_sign_negative() != rhs.is_sign_negative();
        if self.is_nan() || rhs.is_nan() {
            return Binary64 { bits: NAN_BITS };
        }
        if self.is_infinite() || rhs.is_infinite() {
            if self.is_zero() || rhs.is_zero() {
                return Binary64 { bits: NAN_BITS };
            }
            return Binary64 { bits: if negative { SIGN_BIT + INFINITY_BITS } else { INFINITY_BITS } };
        }
        let (ma, ea) = self.decode();
        let (mb, eb) = rhs.decode();
        assert((ma as u128) * (mb as u128) < 0x400_0000_0000_0000_0000_0000_0000) by (nonlinear_arith)
            requires
                ma < 0x20_0000_0000_0000,
                mb < 0x20_0000_0000_0000,
        ;
        round_to_nearest(negative, (ma as u128) * (mb as u128), ea + eb, false)
    }

    pub fn div(self, rhs: Binary64) -> (r: Binary64)
        ensures
            r == self.quotient(rhs),
    {
        proof {
            reveal(Binary64::quotient);
        }
        let negative = self.is_sign_negative() != rhs.is_sign_negative();
        if self.is_nan() || rhs.is_nan() {
            return Binary64 { bits: NAN_BITS };
        }
        if self.is_infinite() {
            if rhs.is_infinite() {
                return Binary64 { bits: NAN_BITS };
            }
            return Binary64 { bits: if negative { SIGN_BIT + INFINITY_BITS } else { INFINITY_BITS } };
        }
        if rhs.is_infinite() {
            return Binary64 { bits: if negative { SIGN_BIT } else { 0 } };
        }
        if rhs.is_zero() {
            if self.is_zero() {
                return Binary64 { bits: NAN_BITS };
            }
            return Binary64 { bits: if negative { SIGN_BIT + INFINITY_BITS } else { INFINITY_BITS } };
        }
        if self.is_zero() {
            return Binary64 { bits: if negative { SIGN_BIT } else { 0 } };
        }
        let (na, ea) = self.normalize();
        let (nb, eb) = rhs.normalize();
        let n: u128 = (na as u128) * 0x1000_0000_0000_0000;
        let d: u128 = nb as u128;
        round_to_nearest(negative, n / d, ea - eb - 60, n % d != 0)
    }

    /// The significand of a finite number other than zero, scaled to 53 bits,
    /// and the exponent that goes with it.
    pub fn normalize(self) -> (r: (u64, i32))
        requires
            self.finite(),
            !self.zero(),
        ensures
            r.0 == self.normal_significand(),
            r.1 == self.normal_exponent(),
            HIDDEN_BIT <= r.0 < 0x20_0000_0000_0000,
            -1126 <= r.1 <= 971,
    {
        let (m, e) = self.decode();
        let len = bit_length(m as u128);
        proof {
            lemma_pow2_values();
            lemma_bit_len_bounds(m as nat);
            lemma_bit_len_below(m as nat, 53);
        }
        let shift: u32 = 53 - len;
        let p = pow2_exec(shift);
        proof {
            lemma_pow2_adds((len - 1) as nat, shift as nat);
            lemma_pow2_adds(len as nat, shift as nat);
            lemma_pow2_pos(shift as nat);
            lemma_mul_inequality(pow2((len - 1) as nat) as int, m as int, p as int);
            lemma_mul_strict_inequality(m as int, pow2(len as nat) as int, p as int);
        }
        (((m as u128) * p) as u64, e - (shift as i32))
    }
}

/// Adds `±m1·2^e1` and `±m2·2^e2`, the term with the larger exponent first.
fn add_parts(s1: bool, m1: u64, e1: i32, s2: bool, m2: u64, e2: i32) -> (r: Binary64)
    requires
        m1 < 0x20_0000_0000_0000,
        m2 < 0x20_0000_0000_0000,
        -1074 <= e2 <= e1 <= 971,
        e1 > -1074 ==> m1 >= HIDDEN_BIT,
    ensures
        r == sum_of_parts(s1, m1 as nat, e1 as int, s2, m2 as nat, e2 as int),
{
    let d: i32 = e1 - e2;
    if d <= 64 {
        let p = pow2_exec(d as u32);
        proof {
            lemma_pow2_values();
            lemma_pow2_le(d as nat, 64);
        }
        assert((m1 as u128) * p < 0x20_0000_0000_0000_0000_0000_0000_0000) by (nonlinear_arith)
            requires
                m1 < 0x20_0000_0000_0000,
                p <= 0x1_0000_0000_0000_0000,
        ;
        let big: u128 = (m1 as u128) * p;
        let small: u128 = m2 as u128;
        if s1 == s2 {
            round_to_nearest(s1, big + small, e2, false)
        } else if big > small {
            round_to_nearest(s1, big - small, e2, false)
        } else if big < small {
            round_to_nearest(s2, small - big, e2, false)
        } else {
            Binary64 { bits: 0 }
        }
    } else {
        // the second term lies wholly under the last place of the first
        let ghost j: nat = (d - 3) as nat;
        let ghost p: nat = pow2(j);
        let ghost big: nat = m1 as nat * pow2(d as nat);
        proof {
            lemma_pow2_values();
            lemma2_to64_rest();
            lemma_pow2_le(62, j);
            lemma_pow2_adds(3, j);
            assert(pow2(d as nat) == 8 * p);
            assert(big == (8 * m1) * p) by (nonlinear_arith)
                requires
                    big == m1 as nat * pow2(d as nat),
                    pow2(d as nat) == 8 * p,
            ;
        }
        if m2 == 0 || s1 == s2 {
            proof {
                let total: nat = big + m2 as nat;
                lemma_fundamental_div_mod_converse(total as int, p as int, 8 * m1 as int, m2 as int);
                lemma_bit_len_at_least((8 * m1) as nat, 55);
                lemma_round_coarsen(s1, total, e2 as int, false, j);
                assert(total > 0) by (nonlinear_arith)
                    requires
                        total == (8 * m1) * p + m2,
                        m1 >= 1,
                        p >= 1,
                ;
            }
            round_to_nearest(s1, 8 * (m1 as u128), e1 - 3, m2 != 0)
        } else {
            proof {
                let total: nat = (big - m2) as nat;
                assert(big - m2 == (8 * m1 - 1) * p + (p - m2)) by (nonlinear_arith)
                    requires
                        big == (8 * m1) * p,
                ;
                lemma_fundamental_div_mod_converse(
                    total as int,
                    p as int,
                    8 * m1 as int - 1,
                    p - m2,
                );
                lemma_bit_len_at_least((8 * m1 - 1) as nat, 54);
                lemma_round_coarsen(s1, total, e2 as int, false, j);
                assert(big - m2 > 0) by (nonlinear_arith)
                    requires
                        big - m2 == (8 * m1 - 1) * p + (p - m2),
                        m1 >= 1,
                        p > m2,
                ;
            }
            round_to_nearest(s1, 8 * (m1 as u128) - 1, e1 - 3, true)
        }
    }
}

} // verus!
