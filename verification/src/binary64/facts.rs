//! Facts about the operations: what they give on zeros, on one, and on
//! numbers that are exactly representable.

use vstd::prelude::*;
use vstd::arithmetic::power2::*;
use vstd::arithmetic::div_mod::*;
use vstd::arithmetic::mul::*;
use crate::binary64::arith::{signed, sum_of_parts};
use crate::binary64::format::{Binary64, SIGN_BIT, HIDDEN_BIT, INFINITY_BITS};
use crate::binary64::powers::{
    bit_len, lemma_bit_len_at_least, lemma_bit_len_below, lemma_bit_len_bounds,
    lemma_bit_len_scale, lemma_bit_len_unique, lemma_div_pow2_at_least, lemma_div_pow2_bound, lemma_pow2_le, lemma_pow2_values,
};
use crate::binary64::rounding::{encode, kept, lemma_round_coarsen, quantum, round};

verus! {

impl Binary64 {
    /// The two are the same bits, or both are zeros: equal as numbers, and a
    /// NaN is the same as itself only.
    pub open spec fn same_number(self, other: Binary64) -> bool {
        self == other || (self.zero() && other.zero())
    }

    /// Finite and of a magnitude under `2^k`.
    pub open spec fn below(self, k: int) -> bool {
        self.finite() && self.exponent_field() < 1023 + k
    }
}

/// The bits of a number are its sign bit, its exponent field and its fraction.
pub proof fn lemma_fields(b: Binary64)
    ensures
        b.magnitude() == b.exponent_field() * HIDDEN_BIT + b.fraction_field(),
        b.bits == (if b.negative() { SIGN_BIT as int } else { 0 }) + b.magnitude(),
        b.exponent_field() <= 2047,
        b.fraction_field() < HIDDEN_BIT,
        b.finite() <==> b.exponent_field() < 2047,
        b.finite() ==> (b.zero() <==> b.significand() == 0),
        b.finite() ==> b.significand() < 0x20_0000_0000_0000,
        b.finite() ==> -1074 <= b.exponent() <= 971,
        b.finite() && b.exponent() > -1074 ==> b.significand() >= HIDDEN_BIT,
{
}

/// The significand of a finite number has 53 bits where the number is normal,
/// and fewer where it is subnormal.
pub proof fn lemma_significand_len(b: Binary64)
    requires
        b.finite(),
    ensures
        bit_len(b.significand()) <= 53,
        b.exponent() > -1074 ==> bit_len(b.significand()) == 53,
        quantum(b.significand(), b.exponent()) == b.exponent(),
{
    lemma_fields(b);
    lemma_pow2_values();
    lemma_bit_len_below(b.significand(), 53);
    if b.exponent() > -1074 {
        lemma_bit_len_unique(b.significand(), 53);
    }
}

/// Rounding the exact value of a finite number gives the number back.
pub proof fn lemma_round_trip(b: Binary64)
    requires
        b.finite(),
    ensures
        round(b.negative(), b.significand(), b.exponent(), false) == b,
{
    lemma_fields(b);
    lemma_significand_len(b);
    lemma_pow2_values();
    let m = b.significand();
    if m != 0 {
        assert(m * pow2(0) == m);
    }
}

/// Rounding does not depend on how the magnitude is split into integer and
/// exponent.
pub proof fn lemma_round_scale(negative: bool, m: nat, e: int, d: nat)
    requires
        m > 0,
    ensures
        round(negative, m * pow2(d), e - d, false) == round(negative, m, e, false),
{
    let p = pow2(d);
    let big = m * p;
    lemma_pow2_pos(d);
    lemma_bit_len_scale(m, d);
    lemma_mul_strictly_positive(m as int, p as int);
    let q = quantum(m, e);
    assert(q == quantum(big, e - d));
    if q <= e - d {
        let k = (e - d - q) as nat;
        lemma_pow2_adds(d, k);
        lemma_mul_is_associative(m as int, p as int, pow2(k) as int);
    } else if q <= e {
        let k = (e - q) as nat;
        let j = (q - e + d) as nat;
        lemma_pow2_adds(k, j);
        lemma_pow2_pos(j);
        lemma_mul_is_associative(m as int, pow2(k) as int, pow2(j) as int);
        let t = m * pow2(k);
        assert(big == t * pow2(j));
        lemma_div_multiples_vanish(t as int, pow2(j) as int);
        lemma_mod_multiples_basic(t as int, pow2(j) as int);
        lemma_mul_is_commutative(t as int, pow2(j) as int);
    } else {
        lemma_div_multiples_vanish(m as int, p as int);
        lemma_mod_multiples_basic(m as int, p as int);
        lemma_mul_is_commutative(m as int, p as int);
        lemma_round_coarsen(negative, big, e - d, false, d);
    }
}

/// A sum of two zeros is a zero, negative only if both are.
pub proof fn lemma_sum_of_zeros(a: Binary64, b: Binary64)
    requires
        a.zero(),
        b.zero(),
    ensures
        a.sum(b) == Binary64::signed_zero(a.negative() && b.negative()),
        a.sum(b).zero(),
{
    reveal(Binary64::sum);
    lemma_fields(a);
    lemma_fields(b);
    lemma_pow2_values();
    assert(0 * pow2(0) == 0);
}

/// Adding a zero to a finite number leaves the number, but that a negative
/// zero plus a positive zero is positive.
pub proof fn lemma_sum_with_zero(x: Binary64, z: Binary64)
    requires
        x.finite(),
        z.zero(),
    ensures
        x.sum(z).same_number(x),
        z.sum(x).same_number(x),
        !x.zero() ==> x.sum(z) == x && z.sum(x) == x,
{
    reveal(Binary64::sum);
    lemma_fields(x);
    lemma_fields(z);
    lemma_pow2_values();
    if x.zero() {
        lemma_sum_of_zeros(x, z);
        lemma_sum_of_zeros(z, x);
    } else {
        let m = x.significand();
        let e = x.exponent();
        let d = (e + 1074) as nat;
        lemma_round_trip(x);
        lemma_round_scale(x.negative(), m, e, d);
        lemma_pow2_pos(d);
        lemma_mul_strictly_positive(m as int, pow2(d) as int);
        assert(x.sum(z) == sum_of_parts(x.negative(), m, e, z.negative(), 0, -1074));
        assert(x.sum(z) == x);
        if e == -1074 {
            assert(0 * pow2(0) == 0);
            assert(z.sum(x) == sum_of_parts(z.negative(), 0, -1074, x.negative(), m, e));
        }
        assert(z.sum(x) == x);
    }
}

/// The difference of two finite numbers that are the same number is a zero.
pub proof fn lemma_difference_of_same(x: Binary64, y: Binary64)
    requires
        x.finite(),
        x.same_number(y),
    ensures
        x.difference(y).zero(),
        x == y ==> x.difference(y) == Binary64::positive_zero(),
{
    reveal(Binary64::sum);
    lemma_fields(x);
    lemma_fields(y);
    lemma_fields(y.negated());
    lemma_pow2_values();
    if x.zero() {
        lemma_sum_of_zeros(x, y.negated());
    } else {
        let m = x.significand();
        assert(m * pow2(0) == m);
        assert(y.negated().significand() == m);
        assert(y.negated().exponent() == x.exponent());
        assert(y.negated().negative() != x.negative());
    }
}

/// Subtracting a zero from a finite number leaves the number, but that a
/// negative zero minus a negative zero is positive.
pub proof fn lemma_difference_with_zero(x: Binary64, z: Binary64)
    requires
        x.finite(),
        z.zero(),
    ensures
        x.difference(z).same_number(x),
        !x.zero() || !z.negative() ==> x.difference(z) == x,
{
    reveal(Binary64::sum);
    lemma_fields(z);
    lemma_fields(z.negated());
    lemma_fields(x);
    lemma_sum_with_zero(x, z.negated());
    if x.zero() {
        lemma_sum_of_zeros(x, z.negated());
    }
}

/// A zero times a finite number is a zero.
pub proof fn lemma_product_with_zero(z: Binary64, y: Binary64)
    requires
        z.zero(),
        y.finite(),
    ensures
        z.product(y).zero(),
        y.product(z).zero(),
{
    reveal(Binary64::product);
    lemma_fields(z);
    lemma_fields(y);
    assert(0 * y.significand() == 0);
    assert(y.significand() * 0 == 0);
}

/// A zero divided by a number other than zero and NaN is a zero.
pub proof fn lemma_quotient_of_zero(z: Binary64, y: Binary64)
    requires
        z.zero(),
        !y.nan(),
        !y.zero(),
    ensures
        z.quotient(y).zero(),
{
    reveal(Binary64::quotient);
    lemma_fields(z);
    lemma_fields(y);
}

/// The exact value `m·2^e` of a number under `2^k` has `bit_len(m) + e <= k`.
pub proof fn lemma_below_parts(x: Binary64, k: int)
    requires
        x.below(k),
        k >= 0,
    ensures
        bit_len(x.significand()) + x.exponent() <= k,
        x.exponent() <= k,
{
    lemma_fields(x);
    lemma_significand_len(x);
}

/// A magnitude under `2^k` rounds to a number of at most `2^k`, of the sign
/// given.
pub proof fn lemma_round_below(negative: bool, m: nat, e: int, sticky: bool, k: int)
    requires
        bit_len(m) + e <= k,
        0 <= k <= 1023,
        sticky ==> m > 0 && quantum(m, e) > e,
    ensures
        round(negative, m, e, sticky).below(k + 1),
        round(negative, m, e, sticky).negative() == negative,
{
    lemma_pow2_values();
    let r = round(negative, m, e, sticky);
    if m == 0 {
        lemma_fields(r);
    } else {
        let len = bit_len(m);
        let q = quantum(m, e);
        lemma_bit_len_bounds(m);
        let t = kept(m, e, sticky);
        assert(r == encode(negative, t, q));
        if q <= e {
            let j = (e - q) as nat;
            lemma_pow2_adds(len, j);
            lemma_pow2_le(len + j, 53);
            lemma_pow2_pos(j);
            lemma_mul_strict_inequality(m as int, pow2(len) as int, pow2(j) as int);
        } else {
            lemma_div_pow2_bound(m, len, (q - e) as nat, 53);
            lemma_pow2_pos((q - e) as nat);
            lemma_div_pos_is_pos(m as int, pow2((q - e) as nat) as int);
        }
        assert(t <= 0x20_0000_0000_0000);
        let mag = (q + 1074) * HIDDEN_BIT + t;
        assert(mag <= (k + 1023) * HIDDEN_BIT) by (nonlinear_arith)
            requires
                mag == (q + 1074) * HIDDEN_BIT + t,
                t <= 2 * HIDDEN_BIT,
                q + 1074 <= k + 1021,
                HIDDEN_BIT > 0,
        ;
        assert((k + 1023) * HIDDEN_BIT <= 2046 * HIDDEN_BIT) by (nonlinear_arith)
            requires
                k <= 1023,
                HIDDEN_BIT > 0,
        ;
        assert(0 <= mag) by (nonlinear_arith)
            requires
                mag == (q + 1074) * HIDDEN_BIT + t,
                q + 1074 >= 0,
                HIDDEN_BIT > 0,
        ;
        lemma_fields(r);
        assert(r.magnitude() == mag);
        assert(r.exponent_field() <= k + 1023) by {
            lemma_div_is_ordered(mag, (k + 1023) * HIDDEN_BIT, HIDDEN_BIT as int);
            lemma_div_multiples_vanish(k + 1023, HIDDEN_BIT as int);
            lemma_mul_is_commutative(k + 1023, HIDDEN_BIT as int);
        }
    }
}

/// A magnitude of at least `2^-1022` does not round to zero.
pub proof fn lemma_round_nonzero(negative: bool, m: nat, e: int, sticky: bool)
    requires
        m > 0,
        bit_len(m) + e >= -1021,
        sticky ==> quantum(m, e) > e,
    ensures
        !round(negative, m, e, sticky).zero(),
{
    lemma_pow2_values();
    let r = round(negative, m, e, sticky);
    let len = bit_len(m);
    let q = quantum(m, e);
    lemma_bit_len_bounds(m);
    let t = kept(m, e, sticky);
    assert(r == encode(negative, t, q));
    if q <= e {
        let j = (e - q) as nat;
        lemma_pow2_adds((len - 1) as nat, j);
        lemma_pow2_pos(j);
        lemma_mul_inequality(pow2((len - 1) as nat) as int, m as int, pow2(j) as int);
    } else {
        lemma_div_pow2_at_least(m, (len - 1) as nat, (q - e) as nat);
        lemma_pow2_pos((q - e) as nat);
        lemma_div_pos_is_pos(m as int, pow2((q - e) as nat) as int);
    }
    assert(t >= HIDDEN_BIT);
    let mag = (q + 1074) * HIDDEN_BIT + t;
    assert(mag >= HIDDEN_BIT) by (nonlinear_arith)
        requires
            mag == (q + 1074) * HIDDEN_BIT + t,
            q + 1074 >= 0,
            t >= HIDDEN_BIT,
            HIDDEN_BIT > 0,
    ;
    lemma_fields(r);
}

/// The numbers 1, 2, 3, 4 and 6 are positive and under `2^3`.
pub proof fn lemma_constants()
    ensures
        Binary64::one().below(3) && !Binary64::one().zero() && !Binary64::one().negative(),
        Binary64::two().below(3) && !Binary64::two().zero() && !Binary64::two().negative(),
        Binary64::three().below(3) && !Binary64::three().zero() && !Binary64::three().negative(),
        Binary64::four().below(3) && !Binary64::four().zero() && !Binary64::four().negative(),
        Binary64::six().below(3) && !Binary64::six().zero() && !Binary64::six().negative(),
        Binary64::one().significand() == HIDDEN_BIT,
        Binary64::one().exponent() == -52,
{
}

/// An unsigned 64-bit integer converts to a number that is not negative and
/// under `2^65`, and that is zero only if the integer is. 0 gives positive zero
/// and 1 gives the number 1.
pub proof fn lemma_of_integer(n: nat)
    requires
        n <= u64::MAX,
    ensures
        Binary64::of_integer(n).below(65),
        !Binary64::of_integer(n).negative(),
        Binary64::of_integer(n).zero() <==> n == 0,
        Binary64::of_integer(0) == Binary64::positive_zero(),
        Binary64::of_integer(1) == Binary64::one(),
{
    reveal(Binary64::of_integer);
    lemma_pow2_values();
    lemma_bit_len_below(n, 64);
    lemma_round_below(false, n, 0, false, 64);
    if n > 0 {
        lemma_bit_len_bounds(n);
        lemma_round_nonzero(false, n, 0, false);
    }
    lemma_constants();
    lemma_round_trip(Binary64::one());
    lemma_round_scale(false, 1, 0, 52);
    assert(1 * pow2(52) == HIDDEN_BIT);
}

/// The product of two numbers under `2^i` and `2^j` is finite, at most
/// `2^(i + j)`.
pub proof fn lemma_product_below(a: Binary64, b: Binary64, i: int, j: int)
    requires
        a.below(i),
        b.below(j),
        0 <= i,
        0 <= j,
        i + j <= 1023,
    ensures
        a.product(b).below(i + j + 1),
{
    reveal(Binary64::product);
    lemma_below_parts(a, i);
    lemma_below_parts(b, j);
    let ma = a.significand();
    let mb = b.significand();
    let la = bit_len(ma);
    let lb = bit_len(mb);
    if ma > 0 && mb > 0 {
        lemma_bit_len_bounds(ma);
        lemma_bit_len_bounds(mb);
        lemma_pow2_adds(la, lb);
        assert(ma * mb < pow2(la) * pow2(lb)) by (nonlinear_arith)
            requires
                ma < pow2(la),
                mb < pow2(lb),
        ;
        lemma_bit_len_below(ma * mb, la + lb);
    } else {
        assert(ma * mb == 0) by (nonlinear_arith)
            requires
                ma == 0 || mb == 0,
        ;
    }
    lemma_round_below(a.negative() != b.negative(), ma * mb, a.exponent() + b.exponent(), false, i + j);
}

/// The sum and the difference of two numbers under `2^i` are finite, at most
/// `2^(i + 1)`.
pub proof fn lemma_sum_below(a: Binary64, b: Binary64, i: int)
    requires
        a.below(i),
        b.below(i),
        0 <= i <= 1022,
    ensures
        a.sum(b).below(i + 2),
        a.difference(b).below(i + 2),
{
    lemma_fields(b);
    lemma_fields(b.negated());
    lemma_parts_below(a, b, i);
    lemma_parts_below(a, b.negated(), i);
}

proof fn lemma_parts_below(a: Binary64, b: Binary64, i: int)
    requires
        a.below(i),
        b.below(i),
        0 <= i <= 1022,
    ensures
        a.sum(b).below(i + 2),
{
    reveal(Binary64::sum);
    if a.exponent() >= b.exponent() {
        lemma_ordered_parts_below(a, b, i);
    } else {
        lemma_ordered_parts_below(b, a, i);
    }
}

proof fn lemma_ordered_parts_below(a: Binary64, b: Binary64, i: int)
    requires
        a.below(i),
        b.below(i),
        a.exponent() >= b.exponent(),
        0 <= i <= 1022,
    ensures
        sum_of_parts(
            a.negative(),
            a.significand(),
            a.exponent(),
            b.negative(),
            b.significand(),
            b.exponent(),
        ).below(i + 2),
{
    lemma_below_parts(a, i);
    lemma_below_parts(b, i);
    lemma_fields(a);
    lemma_fields(b);
    let m1 = a.significand();
    let m2 = b.significand();
    let e1 = a.exponent();
    let e2 = b.exponent();
    let d = (e1 - e2) as nat;
    let top = (i - e2) as nat;
    let big = m1 * pow2(d);
    let total = signed(a.negative(), big) + signed(b.negative(), m2);
    let r = sum_of_parts(a.negative(), m1, e1, b.negative(), m2, e2);
    lemma_pow2_pos(d);
    if m1 > 0 {
        lemma_bit_len_bounds(m1);
        lemma_pow2_adds(bit_len(m1), d);
        lemma_pow2_le(bit_len(m1) + d, top);
        lemma_mul_strict_inequality(m1 as int, pow2(bit_len(m1)) as int, pow2(d) as int);
    } else {
        assert(0 * pow2(d) == 0);
        lemma_pow2_pos(top);
    }
    assert(big < pow2(top));
    if m2 > 0 {
        lemma_bit_len_bounds(m2);
        lemma_pow2_le(bit_len(m2), top);
    }
    assert(m2 < pow2(top));
    lemma_pow2_unfold(top + 1);
    if total == 0 {
        lemma_fields(r);
    } else {
        let mag: nat = if total < 0 { (-total) as nat } else { total as nat };
        assert(mag < pow2(top + 1));
        lemma_bit_len_below(mag, top + 1);
        lemma_round_below(total < 0, mag, e2, false, i + 1);
    }
}

/// A finite number divided by 1 is itself.
pub proof fn lemma_quotient_by_one(x: Binary64)
    requires
        x.finite(),
    ensures
        x.quotient(Binary64::one()) == x,
{
    reveal(Binary64::quotient);
    let one = Binary64::one();
    lemma_constants();
    lemma_fields(x);
    lemma_fields(one);
    lemma_pow2_values();
    lemma2_to64();
    if !x.zero() {
        let m = x.significand();
        let e = x.exponent();
        let shift = x.normal_shift();
        lemma_bit_len_bounds(m);
        lemma_significand_len(x);
        lemma_bit_len_unique(HIDDEN_BIT as nat, 53);
        assert(one.normal_shift() == 0);
        assert(one.normal_significand() == HIDDEN_BIT) by {
            assert(HIDDEN_BIT * pow2(0) == HIDDEN_BIT);
        }
        let nx = x.normal_significand();
        let n = nx * 0x1000_0000_0000_0000;
        assert(n == (nx * 256) * HIDDEN_BIT) by (nonlinear_arith)
            requires
                n == nx * 0x1000_0000_0000_0000,
                HIDDEN_BIT == 0x10_0000_0000_0000,
        ;
        lemma_div_multiples_vanish((nx * 256) as int, HIDDEN_BIT as int);
        lemma_mod_multiples_basic((nx * 256) as int, HIDDEN_BIT as int);
        lemma_mul_is_commutative((nx * 256) as int, HIDDEN_BIT as int);
        lemma_pow2_pos(shift);
        lemma_mul_strictly_positive(m as int, pow2(shift) as int);
        assert(x.quotient(one) == round(x.negative(), nx * 256, x.normal_exponent() - 8, false));
        lemma_round_scale(x.negative(), nx, x.normal_exponent(), 8);
        lemma_round_scale(x.negative(), m, e, shift);
        lemma_round_trip(x);
    }
}

/// A magnitude of at least `2^1024` rounds to infinity.
pub proof fn lemma_round_overflow(negative: bool, m: nat, e: int, sticky: bool)
    requires
        m > 0,
        bit_len(m) + e > 1024,
        sticky ==> quantum(m, e) > e,
    ensures
        round(negative, m, e, sticky) == Binary64::signed_infinity(negative),
{
    lemma_pow2_values();
    let r = round(negative, m, e, sticky);
    let len = bit_len(m);
    let q = quantum(m, e);
    lemma_bit_len_bounds(m);
    let t = kept(m, e, sticky);
    assert(r == encode(negative, t, q));
    if q <= e {
        let j = (e - q) as nat;
        lemma_pow2_adds((len - 1) as nat, j);
        lemma_pow2_pos(j);
        lemma_mul_inequality(pow2((len - 1) as nat) as int, m as int, pow2(j) as int);
    } else {
        lemma_div_pow2_at_least(m, (len - 1) as nat, (q - e) as nat);
        lemma_pow2_pos((q - e) as nat);
        lemma_div_pos_is_pos(m as int, pow2((q - e) as nat) as int);
    }
    assert(t >= HIDDEN_BIT);
    let mag = (q + 1074) * HIDDEN_BIT + t;
    assert(mag >= 2047 * HIDDEN_BIT) by (nonlinear_arith)
        requires
            mag == (q + 1074) * HIDDEN_BIT + t,
            q + 1074 >= 2046,
            t >= HIDDEN_BIT,
            HIDDEN_BIT > 0,
    ;
}

/// A finite number whose square is finite is under `2^513`.
pub proof fn lemma_square_below(x: Binary64)
    requires
        x.finite(),
        x.product(x).finite(),
    ensures
        x.below(513),
{
    reveal(Binary64::product);
    lemma_fields(x);
    if !x.below(513) {
        let m = x.significand();
        let e = x.exponent();
        lemma_pow2_values();
        lemma_pow2_adds(52, 52);
        assert(m * m >= pow2(52) * pow2(52)) by (nonlinear_arith)
            requires
                m >= pow2(52),
        ;
        lemma_pow2_pos(104);
        lemma_bit_len_at_least(m * m, 104);
        lemma_round_overflow(false, m * m, e + e, false);
        lemma_fields(x.product(x));
    }
}

/// The square root of a zero is that zero.
pub proof fn lemma_square_root_of_zero(z: Binary64)
    requires
        z.zero(),
    ensures
        z.square_root() == z,
{
    reveal(Binary64::square_root);
    lemma_fields(z);
}

/// What `encode` writes reads back: the number is finite, has the sign given,
/// and its significand, in units of `2^q`, is `t`.
pub proof fn lemma_encode_decodes(negative: bool, t: nat, q: int)
    requires
        -1074 <= q <= 971,
        t <= 0x20_0000_0000_0000,
        t < HIDDEN_BIT ==> q == -1074,
        (q + 1074) * HIDDEN_BIT + t < INFINITY_BITS,
    ensures
        ({
            let r = encode(negative, t, q);
            &&& r.finite()
            &&& r.negative() == negative
            &&& r.exponent() >= q
            &&& r.significand() * pow2((r.exponent() - q) as nat) == t
        }),
{
    let r = encode(negative, t, q);
    let mag = (q + 1074) * HIDDEN_BIT + t;
    lemma_pow2_values();
    lemma_fields(r);
    assert(r.magnitude() == mag);
    if t < HIDDEN_BIT {
        assert(r.exponent_field() == 0);
        assert(r.significand() * pow2(0) == t);
    } else if t < 0x20_0000_0000_0000 {
        assert(r.exponent_field() == q + 1075);
        assert(r.significand() * pow2(0) == t);
    } else {
        assert(r.exponent_field() == q + 1076);
        assert(r.significand() * pow2(1) == t);
    }
}

/// What rounding keeps has at most 53 bits, or is `2^53`; it has 53 bits
/// wherever the quantum is above that of the subnormal numbers.
pub proof fn lemma_kept_bounds(m: nat, e: int, sticky: bool)
    requires
        m > 0,
    ensures
        kept(m, e, sticky) <= 0x20_0000_0000_0000,
        quantum(m, e) > -1074 ==> kept(m, e, sticky) >= HIDDEN_BIT,
{
    lemma_pow2_values();
    let len = bit_len(m);
    let q = quantum(m, e);
    lemma_bit_len_bounds(m);
    if q <= e {
        let j = (e - q) as nat;
        lemma_pow2_adds(len, j);
        lemma_pow2_le(len + j, 53);
        lemma_pow2_pos(j);
        lemma_mul_strict_inequality(m as int, pow2(len) as int, pow2(j) as int);
        if q > -1074 {
            lemma_pow2_adds((len - 1) as nat, j);
            lemma_mul_inequality(pow2((len - 1) as nat) as int, m as int, pow2(j) as int);
        }
    } else {
        lemma_div_pow2_bound(m, len, (q - e) as nat, 53);
        lemma_pow2_pos((q - e) as nat);
        lemma_div_pos_is_pos(m as int, pow2((q - e) as nat) as int);
        if q > -1074 {
            lemma_div_pow2_at_least(m, (len - 1) as nat, (q - e) as nat);
        }
    }
}

/// A magnitude that does not round to infinity rounds to a finite number of
/// the sign given, whose significand, in units of the quantum, is what
/// rounding keeps.
pub proof fn lemma_round_reads_kept(negative: bool, m: nat, e: int, sticky: bool)
    requires
        m > 0,
        sticky ==> quantum(m, e) > e,
        round(negative, m, e, sticky).finite(),
    ensures
        ({
            let r = round(negative, m, e, sticky);
            let q = quantum(m, e);
            &&& r.negative() == negative
            &&& r.exponent() >= q
            &&& r.significand() * pow2((r.exponent() - q) as nat) == kept(m, e, sticky)
        }),
{
    let r = round(negative, m, e, sticky);
    let q = quantum(m, e);
    let k = kept(m, e, sticky);
    lemma_pow2_values();
    lemma_kept_bounds(m, e, sticky);
    lemma_fields(r);
    let mag = (q + 1074) * HIDDEN_BIT + k;
    assert(mag >= 0) by (nonlinear_arith)
        requires
            mag == (q + 1074) * HIDDEN_BIT + k,
            q + 1074 >= 0,
            HIDDEN_BIT > 0,
    ;
    assert(mag < INFINITY_BITS);
    assert(q <= 971) by (nonlinear_arith)
        requires
            (q + 1074) * HIDDEN_BIT + k < 2047 * HIDDEN_BIT,
            q > -1074 ==> k >= HIDDEN_BIT,
            HIDDEN_BIT > 0,
    ;
    lemma_encode_decodes(negative, k, q);
}

/// Rounding is to nearest, ties to even. A magnitude `m·2^e` that does not
/// round to infinity rounds to a number whose significand `t`, in units of the
/// quantum, is the magnitude itself where the magnitude is a multiple of the
/// quantum; else `t` lies within half a quantum of the magnitude, and where it
/// lies at just half a quantum, `t` is even.
pub proof fn lemma_round_is_nearest(negative: bool, m: nat, e: int)
    requires
        m > 0,
        round(negative, m, e, false).finite(),
    ensures
        ({
            let r = round(negative, m, e, false);
            let q = quantum(m, e);
            let t = r.significand() * pow2((r.exponent() - q) as nat);
            let d = pow2((q - e) as nat);
            &&& r.exponent() >= q
            &&& q <= e ==> t == m * pow2((e - q) as nat)
            &&& q > e ==> -d <= 2 * (t * d - m) <= d
            &&& q > e && (2 * (t * d - m) == d || 2 * (t * d - m) == -d) ==> t % 2 == 0
        }),
{
    let q = quantum(m, e);
    lemma_round_reads_kept(negative, m, e, false);
    if q > e {
        let d = pow2((q - e) as nat);
        lemma_pow2_pos((q - e) as nat);
        lemma_fundamental_div_mod(m as int, d as int);
        lemma_mod_bound(m as int, d as int);
        let t0 = m / d;
        let rem = m % d;
        assert((t0 + 1) * d - m == d - rem) by (nonlinear_arith)
            requires
                m == d * t0 + rem,
        ;
        assert(t0 * d - m == -rem) by (nonlinear_arith)
            requires
                m == d * t0 + rem,
        ;
        lemma_div_pos_is_pos(m as int, d as int);
    }
}

/// Division rounds the quotient to nearest, ties to even. Let `n·2^x` and
/// `d·2^y` be two finite numbers other than zero, their significands scaled
/// to 53 bits, and let their quotient be finite. In units of its quantum `u`
/// its significand `t` lies within half a unit of `n / d·2^(x - y)`: written
/// without fractions and with `n` taken to 60 binary places,
/// `|t·u·d - n| <= u·d / 2`. Where it lies at just half a unit, `t` is even.
pub proof fn lemma_quotient_is_nearest(a: Binary64, b: Binary64)
    requires
        a.finite() && !a.zero(),
        b.finite() && !b.zero(),
        a.quotient(b).finite(),
    ensures
        ({
            let r = a.quotient(b);
            let n = a.normal_significand() * 0x1000_0000_0000_0000;
            let d = b.normal_significand();
            let e = a.normal_exponent() - b.normal_exponent() - 60;
            let q = quantum(n / d, e);
            let t = r.significand() * pow2((r.exponent() - q) as nat);
            let u = pow2((q - e) as nat);
            &&& r.negative() == (a.negative() != b.negative())
            &&& q > e
            &&& r.exponent() >= q
            &&& -(u * d) <= 2 * (t * u * d - n) <= u * d
            &&& (2 * (t * u * d - n) == u * d || 2 * (t * u * d - n) == -(u * d)) ==> t % 2 == 0
        }),
{
    reveal(Binary64::quotient);
    let r = a.quotient(b);
    let n = a.normal_significand() * 0x1000_0000_0000_0000;
    let d = b.normal_significand();
    let e = a.normal_exponent() - b.normal_exponent() - 60;
    lemma_normal_significand(a);
    lemma_normal_significand(b);
    lemma_pow2_values();
    lemma2_to64_rest();
    let big = n / d;
    let rest = n % d;
    lemma_fundamental_div_mod(n as int, d as int);
    lemma_mod_bound(n as int, d as int);
    // the quotient has at least 60 bits
    assert(n >= d * 0x800_0000_0000_0000) by (nonlinear_arith)
        requires
            n == a.normal_significand() * 0x1000_0000_0000_0000,
            a.normal_significand() >= 0x10_0000_0000_0000,
            d < 0x20_0000_0000_0000,
    ;
    lemma_div_is_ordered((d * 0x800_0000_0000_0000) as int, n as int, d as int);
    lemma_div_multiples_vanish(0x800_0000_0000_0000, d as int);
    assert(big >= pow2(59));
    lemma_bit_len_at_least(big, 59);
    let q = quantum(big, e);
    let u = pow2((q - e) as nat);
    lemma_round_reads_kept(a.negative() != b.negative(), big, e, rest != 0);
    let t = kept(big, e, rest != 0);
    lemma_pow2_pos((q - e) as nat);
    lemma_pow2_unfold((q - e) as nat);
    let half = pow2((q - e - 1) as nat);
    lemma_fundamental_div_mod(big as int, u as int);
    lemma_mod_bound(big as int, u as int);
    lemma_div_pos_is_pos(big as int, u as int);
    let t0 = big / u;
    let rem = big % u;
    let x = d * rem + rest;
    assert(n == t0 * u * d + x && (t0 + 1) * u * d - n == u * d - x) by (nonlinear_arith)
        requires
            n == d * big + rest,
            big == u * t0 + rem,
            x == d * rem + rest,
    ;
    assert(x >= 0) by (nonlinear_arith)
        requires
            x == d * rem + rest,
            rem >= 0,
            rest >= 0,
            d > 0,
    ;
    if rem > half {
        assert(2 * x > u * d) by (nonlinear_arith)
            requires
                x == d * rem + rest,
                rem >= half + 1,
                u == 2 * half,
                rest >= 0,
                d > 0,
        ;
        assert(2 * x < 2 * (u * d)) by (nonlinear_arith)
            requires
                x == d * rem + rest,
                rem + 1 <= u,
                rest < d,
                d > 0,
        ;
    } else if rem == half {
        assert(2 * x == u * d + 2 * rest) by (nonlinear_arith)
            requires
                x == d * rem + rest,
                rem == half,
                u == 2 * half,
        ;
        assert(2 * rest < 2 * (u * d)) by (nonlinear_arith)
            requires
                rest < d,
                u >= 1,
                d > 0,
        ;
    } else {
        assert(2 * x < u * d) by (nonlinear_arith)
            requires
                x == d * rem + rest,
                rem + 1 <= half,
                u == 2 * half,
                rest < d,
                d > 0,
        ;
    }
}

/// The significand of a finite number other than zero, scaled to 53 bits,
/// lies in `2^52..2^53`.
pub proof fn lemma_normal_significand(x: Binary64)
    requires
        x.finite(),
        !x.zero(),
    ensures
        HIDDEN_BIT <= x.normal_significand() < 0x20_0000_0000_0000,
        -1126 <= x.normal_exponent() <= 971,
{
    let m = x.significand();
    let len = bit_len(m);
    lemma_fields(x);
    lemma_significand_len(x);
    lemma_pow2_values();
    lemma_bit_len_bounds(m);
    let shift = x.normal_shift();
    lemma_pow2_adds((len - 1) as nat, shift);
    lemma_pow2_adds(len, shift);
    lemma_pow2_pos(shift);
    lemma_mul_inequality(pow2((len - 1) as nat) as int, m as int, pow2(shift) as int);
    lemma_mul_strict_inequality(m as int, pow2(len) as int, pow2(shift) as int);
}

/// The integers 0, 1, 2, 3, 4 and 6 convert to the numbers of those names.
pub proof fn lemma_small_integers()
    ensures
        Binary64::of_integer(0) == Binary64::positive_zero(),
        Binary64::of_integer(1) == Binary64::one(),
        Binary64::of_integer(2) == Binary64::two(),
        Binary64::of_integer(3) == Binary64::three(),
        Binary64::of_integer(4) == Binary64::four(),
        Binary64::of_integer(6) == Binary64::six(),
{
    reveal(Binary64::of_integer);
    lemma_pow2_values();
    lemma2_to64_rest();
    lemma_round_trip(Binary64::one());
    lemma_round_trip(Binary64::two());
    lemma_round_trip(Binary64::three());
    lemma_round_trip(Binary64::four());
    lemma_round_trip(Binary64::six());
    lemma_round_scale(false, 1, 0, 52);
    lemma_round_scale(false, 2, 0, 51);
    lemma_round_scale(false, 3, 0, 51);
    lemma_round_scale(false, 4, 0, 50);
    lemma_round_scale(false, 6, 0, 50);
    assert(1 * pow2(52) == Binary64::one().significand());
    assert(2 * pow2(51) == Binary64::two().significand());
    assert(3 * pow2(51) == Binary64::three().significand());
    assert(4 * pow2(50) == Binary64::four().significand());
    assert(6 * pow2(50) == Binary64::six().significand());
}

} // verus!
