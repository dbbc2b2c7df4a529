//! Rounding an exact magnitude to the nearest binary64 number, ties to even.

use vstd::prelude::*;
use vstd::arithmetic::power2::*;
use vstd::arithmetic::div_mod::*;
use vstd::arithmetic::mul::*;
use crate::binary64::format::{Binary64, SIGN_BIT, HIDDEN_BIT, INFINITY_BITS, MIN_EXPONENT};
use crate::binary64::powers::{
    bit_len, bit_length, pow2_exec, lemma_bit_len_below, lemma_bit_len_bounds, lemma_div_pow2_at_least,
    lemma_bit_len_shift, lemma_div_pow2_bound, lemma_pow2_le, lemma_pow2_values,
};

verus! {

/// The exponent of the last place that a result of magnitude `m·2^e` keeps:
/// that of its 53rd significant bit, and never under that of the subnormals.
pub open spec fn quantum(m: nat, e: int) -> int {
    let q = e + bit_len(m) - 53;
    if q < MIN_EXPONENT {
        MIN_EXPONENT as int
    } else {
        q
    }
}

/// The bits of `±t·2^q`, where `t <= 2^53`, `q >= -1074`, and `t < 2^52` only
/// at `q == -1074`. A magnitude past the largest finite number is infinity.
pub open spec fn encode(negative: bool, t: nat, q: int) -> Binary64 {
    let mag = (q + 1074) * HIDDEN_BIT + t;
    let sat = if mag >= INFINITY_BITS {
        INFINITY_BITS as int
    } else {
        mag
    };
    Binary64 {
        bits: (if negative {
            SIGN_BIT + sat
        } else {
            sat
        }) as u64,
    }
}

/// The magnitude `m·2^e`, or with `sticky` one just above it, in units of
/// its quantum and rounded to the nearest integer, to the even one of two
/// nearest.
pub open spec fn kept(m: nat, e: int, sticky: bool) -> nat {
    let q = quantum(m, e);
    if q <= e {
        m * pow2((e - q) as nat)
    } else {
        let d = pow2((q - e) as nat);
        let t = m / d;
        let r = m % d;
        if 2 * r > d || (2 * r == d && (sticky || t % 2 == 1)) {
            (t + 1) as nat
        } else {
            t as nat
        }
    }
}

/// The binary64 number nearest to `±v`, where `v` is `m·2^e` if `sticky` is
/// false and lies strictly between `m·2^e` and `(m + 1)·2^e` if it is true.
/// Of two nearest numbers the one with an even significand is taken, and a
/// magnitude that rounds past the largest finite number gives infinity.
///
/// With `sticky` the magnitude needs at least one bit under the quantum,
/// that is `quantum(m, e) > e`.
pub open spec fn round(negative: bool, m: nat, e: int, sticky: bool) -> Binary64
    recommends
        sticky ==> m > 0 && quantum(m, e) > e,
{
    if m == 0 {
        Binary64::signed_zero(negative)
    } else {
        encode(negative, kept(m, e, sticky), quantum(m, e))
    }
}

/// Rounding reads a magnitude only through its leading bits and the fact
/// whether anything follows them: the `j` lowest bits of `m` may be folded
/// into `sticky`, as long as one bit under the quantum stays.
pub proof fn lemma_round_coarsen(negative: bool, m: nat, e: int, sticky: bool, j: nat)
    requires
        m / pow2(j) > 0,
        quantum(m / pow2(j), e + j) > e + j,
    ensures
        round(negative, m, e, sticky) == round(
            negative,
            m / pow2(j),
            e + j,
            sticky || m % pow2(j) != 0,
        ),
{
    let p = pow2(j);
    let m1 = m / p;
    let lo = m % p;
    lemma_pow2_pos(j);
    lemma_fundamental_div_mod(m as int, p as int);
    lemma_mod_bound(m as int, p as int);
    lemma_bit_len_shift(m, j);
    let q = quantum(m, e);
    assert(q == quantum(m1, e + j));
    assert(m > 0) by (nonlinear_arith)
        requires
            m == p * m1 + lo,
            lo >= 0,
            p > 0,
            m1 > 0,
    ;
    let k1 = (q - e - j) as nat;
    let d1 = pow2(k1);
    let d = pow2((q - e) as nat);
    let h = pow2((k1 - 1) as nat);
    lemma_pow2_adds(j, k1);
    lemma_pow2_unfold(k1);
    lemma_pow2_pos((k1 - 1) as nat);
    assert(d == p * d1);
    lemma_div_denominator(m as int, p as int, d1 as int);
    lemma_breakdown(m as int, p as int, d1 as int);
    let t = m / d;
    let r = m % d;
    let r1 = m1 % d1;
    lemma_mod_bound(m1 as int, d1 as int);
    assert(t == m1 / d1);
    assert(r == p * r1 + lo);
    if r1 > h {
        assert(2 * r > d) by (nonlinear_arith)
            requires
                r == p * r1 + lo,
                d == p * d1,
                d1 == 2 * h,
                r1 >= h + 1,
                lo >= 0,
                p > 0,
        ;
    } else if r1 == h {
        assert(2 * r == d + 2 * lo) by (nonlinear_arith)
            requires
                r == p * r1 + lo,
                d == p * d1,
                d1 == 2 * h,
                r1 == h,
        ;
    } else {
        assert(2 * r < d) by (nonlinear_arith)
            requires
                r == p * r1 + lo,
                d == p * d1,
                d1 == 2 * h,
                r1 + 1 <= h,
                lo < p,
                p > 0,
        ;
    }
}

/// Rounds `±m·2^e`, or with `sticky` a magnitude just above it, to binary64.
pub fn round_to_nearest(negative: bool, m: u128, e: i32, sticky: bool) -> (r: Binary64)
    requires
        m < 0x100_0000_0000_0000_0000_0000_0000_0000,
        -4000 <= e <= 4000,
    ensures
        r == round(negative, m as nat, e as int, sticky),
{
    if m == 0 {
        return Binary64 { bits: if negative { SIGN_BIT } else { 0 } };
    }
    let len = bit_length(m);
    proof {
        lemma_pow2_values();
        lemma_bit_len_bounds(m as nat);
        lemma_bit_len_below(m as nat, 120);
    }
    let mut q: i32 = e + (len as i32) - 53;
    if q < MIN_EXPONENT {
        q = MIN_EXPONENT;
    }
    assert(q == quantum(m as nat, e as int));
    if q > 971 {
        proof {
            // the kept significand has 53 bits, so the exponent field overflows
            if q <= e {
                lemma_pow2_adds((len - 1) as nat, (e - q) as nat);
                lemma_pow2_pos((e - q) as nat);
                lemma_mul_inequality(
                    pow2((len - 1) as nat) as int,
                    m as int,
                    pow2((e - q) as nat) as int,
                );
            } else {
                lemma_div_pow2_at_least(m as nat, (len - 1) as nat, (q - e) as nat);
            }
        }
        return Binary64 { bits: if negative { SIGN_BIT + INFINITY_BITS } else { INFINITY_BITS } };
    }
    let t: u128;
    if q <= e {
        let k: u32 = (e - q) as u32;
        let p = pow2_exec(k);
        proof {
            lemma_pow2_adds(len as nat, k as nat);
            lemma_pow2_le((len + k) as nat, 53);
            lemma_pow2_pos(k as nat);
            lemma_mul_strict_inequality(m as int, pow2(len as nat) as int, p as int);
        }
        t = m * p;
    } else {
        let s: i32 = q - e;
        if s > 121 {
            proof {
                let d = pow2(s as nat);
                lemma_pow2_le(122, s as nat);
                lemma_basic_div(m as int, d as int);
                lemma_small_mod(m as nat, d);
            }
            return Binary64 { bits: if negative { SIGN_BIT } else { 0 } };
        }
        let d = pow2_exec(s as u32);
        proof {
            lemma_pow2_pos(s as nat);
            lemma_pow2_le(s as nat, 121);
            lemma_pow2_strictly_increases(121, 122);
            lemma_div_pow2_bound(m as nat, len as nat, s as nat, 53);
        }
        let t0 = m / d;
        let r = m % d;
        let up = 2 * r > d || (2 * r == d && (sticky || t0 % 2 == 1));
        t = if up { t0 + 1 } else { t0 };
    }
    let mag: u64 = ((q + 1074) as u64) * HIDDEN_BIT + (t as u64);
    let sat: u64 = if mag >= INFINITY_BITS { INFINITY_BITS } else { mag };
    Binary64 { bits: if negative { SIGN_BIT + sat } else { sat } }
}

} // verus!
