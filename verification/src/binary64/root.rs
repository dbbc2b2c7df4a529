//! The square root of a binary64 number.

use vstd::prelude::*;
use vstd::arithmetic::power2::*;
use vstd::arithmetic::div_mod::*;
use crate::binary64::facts::{lemma_fields, lemma_normal_significand, lemma_round_reads_kept};
use crate::binary64::format::{Binary64, NAN_BITS};
use crate::binary64::powers::{lemma_bit_len_unique, lemma_pow2_values};
use crate::binary64::rounding::{kept, quantum, round, round_to_nearest};

verus! {

/// `s` is the square root of `n`, rounded down.
pub open spec fn is_integer_root(n: nat, s: nat) -> bool {
    s * s <= n < (s + 1) * (s + 1)
}

/// The square root of `n`, rounded down.
pub open spec fn integer_root(n: nat) -> nat {
    choose|s: nat| is_integer_root(n, s)
}

/// At most one number is the integer root of `n`.
pub proof fn lemma_integer_root_unique(n: nat, s1: nat, s2: nat)
    requires
        is_integer_root(n, s1),
        is_integer_root(n, s2),
    ensures
        s1 == s2,
{
    if s1 < s2 {
        assert((s1 + 1) * (s1 + 1) <= s2 * s2) by (nonlinear_arith)
            requires
                s1 + 1 <= s2,
        ;
    } else if s2 < s1 {
        assert((s2 + 1) * (s2 + 1) <= s1 * s1) by (nonlinear_arith)
            requires
                s2 + 1 <= s1,
        ;
    }
}

/// The square root of `n`, rounded down, found bit by bit from the top.
pub fn integer_sqrt(n: u128) -> (s: u128)
    requires
        n < 0x1_0000_0000_0000_0000_0000_0000_0000,
    ensures
        s == integer_root(n as nat),
        is_integer_root(n as nat, s as nat),
        s < 0x100_0000_0000_0000,
{
    let mut s: u128 = 0;
    let mut step: u128 = 0x100_0000_0000_0000;
    let ghost mut k: nat = 56;
    proof {
        lemma_pow2_values();
        lemma2_to64_rest();
    }
    while step > 1
        invariant
            step == pow2(k),
            step >= 1,
            s + step <= 0x100_0000_0000_0000,
            s * s <= n,
            n < (s + step) * (s + step),
        decreases step,
    {
        proof {
            lemma2_to64();
            if k == 0 {
                assert(false);
            }
            lemma_pow2_unfold(k);
            lemma_pow2_pos((k - 1) as nat);
            k = (k - 1) as nat;
        }
        let half = step / 2;
        let c = s + half;
        assert(c * c <= 0x1_0000_0000_0000_0000_0000_0000_0000) by (nonlinear_arith)
            requires
                c <= 0x100_0000_0000_0000,
        ;
        if c * c <= n {
            s = c;
        }
        step = half;
    }
    proof {
        lemma_integer_root_unique(n as nat, s as nat, integer_root(n as nat));
    }
    s
}

impl Binary64 {
    /// The square root of `self`, rounded. NaN for a NaN and for a negative
    /// number other than zero; a zero keeps its sign. Otherwise the significand,
    /// scaled to 53 bits and doubled where the exponent is odd, is taken with 58
    /// more binary places; its integer root has 56 bits, and `sticky` says
    /// whether the root was cut.
    #[verifier::opaque]
    pub open spec fn square_root(self) -> Binary64 {
        if self.nan() {
            Binary64::canonical_nan()
        } else if self.zero() {
            self
        } else if self.negative() {
            Binary64::canonical_nan()
        } else if self.infinite() {
            self
        } else {
            let odd = self.normal_exponent() % 2 != 0;
            let m = if odd {
                2 * self.normal_significand()
            } else {
                self.normal_significand()
            };
            let e = if odd {
                self.normal_exponent() - 1
            } else {
                self.normal_exponent()
            };
            let n = m * 0x400_0000_0000_0000;
            let s = integer_root(n);
            round(false, s, (e - 58) / 2, s * s != n)
        }
    }

    pub fn sqrt(self) -> (r: Binary64)
        ensures
            r == self.square_root(),
    {
        proof {
            reveal(Binary64::square_root);
        }
        if self.is_nan() {
            return Binary64 { bits: NAN_BITS };
        }
        if self.is_zero() {
            return self;
        }
        if self.is_sign_negative() {
            return Binary64 { bits: NAN_BITS };
        }
        if self.is_infinite() {
            return self;
        }
        let (m0, e0) = self.normalize();
        let lifted: u32 = (e0 + 1126) as u32;
        let odd = lifted % 2 != 0;
        let m: u128 = if odd { 2 * (m0 as u128) } else { m0 as u128 };
        let lifted_even: u32 = if odd { lifted - 1 } else { lifted };
        let n: u128 = m * 0x400_0000_0000_0000;
        let s = integer_sqrt(n);
        round_to_nearest(false, s, ((lifted_even / 2) as i32) - 592, s * s != n)
    }
}

/// Every number has an integer root.
pub proof fn lemma_integer_root(n: nat)
    ensures
        is_integer_root(n, integer_root(n)),
    decreases n,
{
    if n == 0 {
        let z: nat = 0;
        assert(z * z == 0 && (z + 1) * (z + 1) == 1) by (nonlinear_arith)
            requires
                z == 0,
        ;
        assert(is_integer_root(0, z));
    } else {
        let r = integer_root(n / 4);
        lemma_integer_root(n / 4);
        assert((2 * r) * (2 * r) <= n && n < (2 * r + 2) * (2 * r + 2)) by (nonlinear_arith)
            requires
                r * r <= n / 4,
                n / 4 < (r + 1) * (r + 1),
                4 * (n / 4) <= n < 4 * (n / 4) + 4,
        ;
        if (2 * r + 1) * (2 * r + 1) <= n {
            assert(is_integer_root(n, 2 * r + 1));
        } else {
            assert(is_integer_root(n, 2 * r));
        }
    }
}

/// The square root rounds the root to nearest. Let `n·2^(2x)` be a finite
/// number above zero, its significand scaled to 111 or 112 bits so that the
/// exponent is even. In units of its quantum `u`, taken at the exponent `x`,
/// the significand `t` of its square root lies within half a unit of the root
/// of `n`: written without roots, `(2·t·u - u)^2 <= 4·n <= (2·t·u + u)^2`.
pub proof fn lemma_square_root_is_nearest(a: Binary64)
    requires
        a.finite(),
        !a.zero(),
        !a.negative(),
    ensures
        ({
            let r = a.square_root();
            let odd = a.normal_exponent() % 2 != 0;
            let m = if odd { 2 * a.normal_significand() } else { a.normal_significand() };
            let e = if odd { a.normal_exponent() - 1 } else { a.normal_exponent() };
            let n = m * 0x400_0000_0000_0000;
            let x = (e - 58) / 2;
            let q = quantum(integer_root(n), x);
            let t = r.significand() * pow2((r.exponent() - q) as nat);
            let u = pow2((q - x) as nat);
            &&& r.finite()
            &&& !r.negative()
            &&& 2 * x + 58 == e
            &&& t >= 1
            &&& (2 * t * u - u) * (2 * t * u - u) <= 4 * n <= (2 * t * u + u) * (2 * t * u + u)
        }),
{
    reveal(Binary64::square_root);
    let r = a.square_root();
    let odd = a.normal_exponent() % 2 != 0;
    let m = if odd { 2 * a.normal_significand() } else { a.normal_significand() };
    let e = if odd { a.normal_exponent() - 1 } else { a.normal_exponent() };
    let n = m * 0x400_0000_0000_0000;
    let x = (e - 58) / 2;
    let s = integer_root(n);
    lemma_fields(a);
    lemma_normal_significand(a);
    lemma_integer_root(n);
    lemma_pow2_values();
    lemma2_to64();
    lemma2_to64_rest();
    // the root has 56 bits
    if s < 0x80_0000_0000_0000 {
        assert((s + 1) * (s + 1) <= 0x4000_0000_0000_0000_0000_0000_0000) by (nonlinear_arith)
            requires
                s + 1 <= 0x80_0000_0000_0000,
        ;
    }
    if s >= 0x100_0000_0000_0000 {
        assert(s * s >= 0x1_0000_0000_0000_0000_0000_0000_0000) by (nonlinear_arith)
            requires
                s >= 0x100_0000_0000_0000,
        ;
    }
    assert(pow2(55) <= s < pow2(56));
    lemma_bit_len_unique(s, 56);
    let q = quantum(s, x);
    assert(q == x + 3);
    let u = pow2(3);
    // the result is finite: its quantum lies far under the largest
    crate::binary64::facts::lemma_round_below(false, s, x, s * s != n, 520);
    lemma_fields(r);
    lemma_round_reads_kept(false, s, x, s * s != n);
    let t = kept(s, x, s * s != n);
    let t0 = s / 8;
    let rem = s % 8;
    assert(t0 >= 1);
    if t == t0 + 1 {
        assert((2 * t * u - u) * (2 * t * u - u) <= (2 * s) * (2 * s)) by (nonlinear_arith)
            requires
                t == t0 + 1,
                u == 8,
                s == 8 * t0 + rem,
                2 * rem >= u,
                t0 >= 1,
        ;
        assert((2 * s + 2) * (2 * s + 2) <= (2 * t * u + u) * (2 * t * u + u)) by (nonlinear_arith)
            requires
                t == t0 + 1,
                u == 8,
                s == 8 * t0 + rem,
                0 <= rem < 8,
                t0 >= 1,
        ;
    } else {
        assert((2 * t * u - u) * (2 * t * u - u) <= (2 * s) * (2 * s)) by (nonlinear_arith)
            requires
                t == t0,
                u == 8,
                s == 8 * t0 + rem,
                rem >= 0,
                t0 >= 1,
        ;
        if 2 * rem < u {
            assert((2 * s + 2) * (2 * s + 2) <= (2 * t * u + u) * (2 * t * u + u)) by (nonlinear_arith)
                requires
                    t == t0,
                    u == 8,
                    s == 8 * t0 + rem,
                    0 <= rem,
                    2 * rem + 2 <= u,
                    t0 >= 1,
            ;
        } else {
            assert((2 * s) * (2 * s) == (2 * t * u + u) * (2 * t * u + u)) by (nonlinear_arith)
                requires
                    t == t0,
                    u == 8,
                    s == 8 * t0 + rem,
                    2 * rem == u,
            ;
        }
    }
    assert((2 * s) * (2 * s) == 4 * (s * s)) by (nonlinear_arith);
    assert((2 * s + 2) * (2 * s + 2) == 4 * ((s + 1) * (s + 1))) by (nonlinear_arith);
}

} // verus!
