//! Powers of two and bit lengths of natural numbers.

use vstd::prelude::*;
use vstd::arithmetic::power2::*;
use vstd::arithmetic::div_mod::*;
use vstd::arithmetic::mul::*;

verus! {

/// The number of binary digits of `m`: 0 for 0, else `floor(log2 m) + 1`.
pub open spec fn bit_len(m: nat) -> nat
    decreases m,
{
    if m == 0 {
        0
    } else {
        1 + bit_len(m / 2)
    }
}

pub proof fn lemma_pow2_le(a: nat, b: nat)
    requires
        a <= b,
    ensures
        pow2(a) <= pow2(b),
{
    if a < b {
        lemma_pow2_strictly_increases(a, b);
    }
}

/// The values of the powers of two that the format's bounds are made of.
pub proof fn lemma_pow2_values()
    ensures
        pow2(0) == 1,
        pow2(1) == 2,
        pow2(2) == 4,
        pow2(3) == 8,
        pow2(52) == 0x10_0000_0000_0000,
        pow2(53) == 0x20_0000_0000_0000,
        pow2(63) == 0x8000_0000_0000_0000,
        pow2(64) == 0x1_0000_0000_0000_0000,
        pow2(120) == 0x100_0000_0000_0000_0000_0000_0000_0000,
        pow2(122) == 0x400_0000_0000_0000_0000_0000_0000_0000,
        pow2(127) == 0x8000_0000_0000_0000_0000_0000_0000_0000,
        pow2(128) == 0x1_0000_0000_0000_0000_0000_0000_0000_0000,
{
    lemma2_to64();
    lemma2_to64_rest();
    lemma_pow2_adds(64, 56);
    lemma_pow2_adds(64, 58);
    lemma_pow2_adds(64, 63);
    lemma_pow2_adds(64, 64);
}

/// A positive `m` lies between the two powers of two that its bit length names.
pub proof fn lemma_bit_len_bounds(m: nat)
    requires
        m > 0,
    ensures
        bit_len(m) >= 1,
        pow2((bit_len(m) - 1) as nat) <= m < pow2(bit_len(m)),
    decreases m,
{
    lemma2_to64();
    if m == 1 {
        assert(bit_len(1) == 1 + bit_len(0));
    } else {
        let h = m / 2;
        lemma_bit_len_bounds(h);
        let k = bit_len(h);
        lemma_pow2_unfold(k);
        lemma_pow2_unfold(k + 1);
    }
}

/// The bit length is the only `k` with `2^(k-1) <= m < 2^k`.
pub proof fn lemma_bit_len_unique(m: nat, k: nat)
    requires
        k >= 1,
        pow2((k - 1) as nat) <= m < pow2(k),
    ensures
        bit_len(m) == k,
{
    lemma_pow2_pos((k - 1) as nat);
    lemma_bit_len_bounds(m);
    let l = bit_len(m);
    if l < k {
        lemma_pow2_le(l, (k - 1) as nat);
    } else if l > k {
        lemma_pow2_le(k, (l - 1) as nat);
    }
}

pub proof fn lemma_bit_len_below(m: nat, k: nat)
    requires
        m < pow2(k),
    ensures
        bit_len(m) <= k,
{
    if m > 0 {
        lemma_bit_len_bounds(m);
        if bit_len(m) > k {
            lemma_pow2_le(k, (bit_len(m) - 1) as nat);
        }
    }
}

pub proof fn lemma_bit_len_at_least(m: nat, k: nat)
    requires
        m >= pow2(k),
    ensures
        bit_len(m) >= k + 1,
{
    lemma_pow2_pos(k);
    lemma_bit_len_bounds(m);
    if bit_len(m) <= k {
        lemma_pow2_le(bit_len(m), k);
    }
}

/// `a < b·c` gives `a / b < c`, for powers of two `b = 2^s`, `c = 2^k`.
pub proof fn lemma_div_pow2_bound(m: nat, len: nat, s: nat, k: nat)
    requires
        m < pow2(len),
        len <= s + k,
    ensures
        m / pow2(s) < pow2(k),
{
    lemma_pow2_pos(s);
    lemma_pow2_pos(k);
    lemma_pow2_le(len, s + k);
    lemma_pow2_adds(s, k);
    lemma_multiply_divide_lt(m as int, pow2(s) as int, pow2(k) as int);
}

/// `a >= b·c` gives `a / b >= c`, for powers of two.
pub proof fn lemma_div_pow2_at_least(m: nat, len: nat, s: nat)
    requires
        m >= pow2(len),
        s <= len,
    ensures
        m / pow2(s) >= pow2((len - s) as nat),
{
    lemma_pow2_pos(s);
    lemma_pow2_adds(s, (len - s) as nat);
    let c = pow2((len - s) as nat);
    lemma_div_is_ordered((pow2(s) * c) as int, m as int, pow2(s) as int);
    lemma_div_multiples_vanish(c as int, pow2(s) as int);
    assert(pow2(s) * c == pow2(s) as int * c as int);
}

/// Dropping the `j` lowest bits of `m` shortens it by `j` bits, if any are left.
pub proof fn lemma_bit_len_shift(m: nat, j: nat)
    requires
        m / pow2(j) > 0,
    ensures
        bit_len(m) == bit_len(m / pow2(j)) + j,
{
    let p = pow2(j);
    let m1 = m / p;
    let l1 = bit_len(m1);
    lemma_pow2_pos(j);
    lemma_fundamental_div_mod(m as int, p as int);
    lemma_mod_bound(m as int, p as int);
    lemma_bit_len_bounds(m1);
    let lo = pow2((l1 - 1) as nat);
    let hi = pow2(l1);
    lemma_pow2_adds((l1 - 1) as nat, j);
    lemma_pow2_adds(l1, j);
    assert(lo * p <= m) by (nonlinear_arith)
        requires
            lo <= m1,
            p > 0,
            m == p * m1 + m % p,
            m % p >= 0,
    ;
    assert(m < hi * p) by (nonlinear_arith)
        requires
            m1 + 1 <= hi,
            p > 0,
            m == p * m1 + m % p,
            m % p < p,
    ;
    lemma_bit_len_unique(m, l1 + j);
}

/// Appending `j` zero bits to a positive `m` lengthens it by `j` bits.
pub proof fn lemma_bit_len_scale(m: nat, j: nat)
    requires
        m > 0,
    ensures
        bit_len(m * pow2(j)) == bit_len(m) + j,
{
    lemma_pow2_pos(j);
    lemma_div_multiples_vanish(m as int, pow2(j) as int);
    lemma_mul_is_commutative(m as int, pow2(j) as int);
    lemma_bit_len_shift(m * pow2(j), j);
}

/// `2^k`, by repeated doubling.
pub fn pow2_exec(k: u32) -> (r: u128)
    requires
        k <= 126,
    ensures
        r == pow2(k as nat),
{
    let mut r: u128 = 1;
    let mut i: u32 = 0;
    proof {
        lemma_pow2_values();
    }
    while i < k
        invariant
            i <= k,
            k <= 126,
            r == pow2(i as nat),
        decreases k - i,
    {
        proof {
            lemma_pow2_unfold((i + 1) as nat);
            lemma_pow2_le((i + 1) as nat, 126);
            lemma_pow2_strictly_increases(126, 127);
            lemma_pow2_values();
        }
        r = r * 2;
        i = i + 1;
    }
    r
}

/// The bit length of `m`, by repeated halving.
pub fn bit_length(m: u128) -> (r: u32)
    ensures
        r == bit_len(m as nat),
        r <= 128,
{
    proof {
        lemma_pow2_values();
        lemma_bit_len_below(m as nat, 128);
    }
    let mut n: u128 = m;
    let mut r: u32 = 0;
    while n > 0
        invariant
            bit_len(m as nat) == r + bit_len(n as nat),
            bit_len(m as nat) <= 128,
        decreases n,
    {
        n = n / 2;
        r = r + 1;
    }
    r
}

} // verus!
