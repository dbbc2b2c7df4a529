//! What the formulas of the estimators give in exact arithmetic: the count,
//! the arithmetic mean and the sums of the powers of the deviations from it.
//! In binary64 each operation adds its rounding to this.

use vstd::prelude::*;
use crate::moments::kurtosis::KurtosisState;
use crate::moments::laws::{lemma_kurtosis_owns_skewness, lemma_skewness_owns_variance};
use crate::moments::mean::MeanState;
use crate::moments::skewness::SkewnessState;
use crate::moments::variance::VarianceState;

verus! {

/// The sum of `values`.
pub open spec fn total(values: Seq<real>) -> real
    decreases values.len(),
{
    if values.len() == 0 {
        0 as real
    } else {
        total(values.drop_last()) + values.last()
    }
}

/// The arithmetic mean of `values`, which are not empty.
pub open spec fn mean_of(values: Seq<real>) -> real {
    total(values) / (values.len() as real)
}

/// The sum of the deviations of `values` from `c`.
pub open spec fn deviations(values: Seq<real>, c: real) -> real
    decreases values.len(),
{
    if values.len() == 0 {
        0 as real
    } else {
        deviations(values.drop_last(), c) + (values.last() - c)
    }
}

/// The sum of the squared deviations of `values` from `c`.
pub open spec fn squares(values: Seq<real>, c: real) -> real
    decreases values.len(),
{
    if values.len() == 0 {
        0 as real
    } else {
        squares(values.drop_last(), c) + (values.last() - c) * (values.last() - c)
    }
}

/// The sum of the cubed deviations of `values` from `c`.
pub open spec fn cubes(values: Seq<real>, c: real) -> real
    decreases values.len(),
{
    if values.len() == 0 {
        0 as real
    } else {
        cubes(values.drop_last(), c) + (values.last() - c) * (values.last() - c) * (
        values.last() - c)
    }
}

/// The sum of the deviations of `values` from `c`, to the fourth power.
pub open spec fn fourths(values: Seq<real>, c: real) -> real
    decreases values.len(),
{
    if values.len() == 0 {
        0 as real
    } else {
        fourths(values.drop_last(), c) + (values.last() - c) * (values.last() - c) * (
        values.last() - c) * (values.last() - c)
    }
}

/// The deviations from `c` sum to the total less `c` for each value.
pub proof fn lemma_deviations(values: Seq<real>, c: real)
    ensures
        deviations(values, c) == total(values) - (values.len() as real) * c,
    decreases values.len(),
{
    if values.len() > 0 {
        let before = values.drop_last();
        lemma_deviations(before, c);
        let n = before.len() as real;
        assert(values.len() as real == n + (1 as real));
        assert((n + (1 as real)) * c == n * c + c) by (nonlinear_arith);
    } else {
        assert((0 as real) * c == 0 as real) by (nonlinear_arith);
    }
}

/// The deviations from the mean sum to zero.
pub proof fn lemma_deviations_from_mean(values: Seq<real>)
    requires
        values.len() > 0,
    ensures
        deviations(values, mean_of(values)) == 0 as real,
{
    lemma_deviations(values, mean_of(values));
    let n = values.len() as real;
    let t = total(values);
    assert(n * (t / n) == t) by (nonlinear_arith)
        requires
            n > (0 as real),
    ;
}

/// `k·(a + b)` is `k·a + k·b`.
proof fn lemma_distributes(k: real, a: real, b: real)
    ensures
        k * (a + b) == k * a + k * b,
{
    assert(k * (a + b) == k * a + k * b) by (nonlinear_arith);
}

/// The powers of `d - h`, by those of `d` and of `h`.
proof fn lemma_binomials(d: real, h: real)
    ensures
        (d - h) * (d - h) == d * d - (2 as real) * (h * d) + h * h,
        (d - h) * (d - h) * (d - h) == d * d * d - (3 as real) * (h * (d * d)) + (3 as real) * ((h
            * h) * d) - h * h * h,
        (d - h) * (d - h) * (d - h) * (d - h) == d * d * d * d - (4 as real) * (h * (d * d * d)) + (
        6 as real) * ((h * h) * (d * d)) - (4 as real) * ((h * h * h) * d) + h * h * h * h,
{
    assert((d - h) * (d - h) == d * d - (2 as real) * (h * d) + h * h) by (nonlinear_arith);
    assert((d - h) * (d - h) * (d - h) == d * d * d - (3 as real) * (h * (d * d)) + (3 as real)
        * ((h * h) * d) - h * h * h) by (nonlinear_arith);
    assert((d - h) * (d - h) * (d - h) * (d - h) == d * d * d * d - (4 as real) * (h * (d * d * d))
        + (6 as real) * ((h * h) * (d * d)) - (4 as real) * ((h * h * h) * d) + h * h * h * h)
        by (nonlinear_arith);
}

/// The power sums about `c + h`, by those about `c`: the binomial formulas,
/// summed.
pub proof fn lemma_shifted(values: Seq<real>, c: real, h: real)
    ensures
        ({
            let n = values.len() as real;
            let s1 = deviations(values, c);
            let s2 = squares(values, c);
            let s3 = cubes(values, c);
            let s4 = fourths(values, c);
            &&& deviations(values, c + h) == s1 - n * h
            &&& squares(values, c + h) == s2 - (2 as real) * (h * s1) + n * (h * h)
            &&& cubes(values, c + h) == s3 - (3 as real) * (h * s2) + (3 as real) * ((h * h) * s1)
                - n * (h * h * h)
            &&& fourths(values, c + h) == s4 - (4 as real) * (h * s3) + (6 as real) * ((h * h)
                * s2) - (4 as real) * ((h * h * h) * s1) + n * (h * h * h * h)
        }),
    decreases values.len(),
{
    let zero = 0 as real;
    if values.len() > 0 {
        let before = values.drop_last();
        lemma_shifted(before, c, h);
        let m = before.len() as real;
        let one = 1 as real;
        assert(values.len() as real == m + one);
        let d = values.last() - c;
        assert(values.last() - (c + h) == d - h);
        let s1 = deviations(before, c);
        let s2 = squares(before, c);
        let s3 = cubes(before, c);
        lemma_binomials(d, h);
        lemma_distributes(h, s1, d);
        lemma_distributes(h, s2, d * d);
        lemma_distributes(h, s3, d * d * d);
        lemma_distributes(h * h, s1, d);
        lemma_distributes(h * h, s2, d * d);
        lemma_distributes(h * h * h, s1, d);
        assert((m + one) * h == m * h + h) by (nonlinear_arith)
            requires
                one == 1 as real,
        ;
        assert((m + one) * (h * h) == m * (h * h) + h * h) by (nonlinear_arith)
            requires
                one == 1 as real,
        ;
        assert((m + one) * (h * h * h) == m * (h * h * h) + h * h * h) by (nonlinear_arith)
            requires
                one == 1 as real,
        ;
        assert((m + one) * (h * h * h * h) == m * (h * h * h * h) + h * h * h * h)
            by (nonlinear_arith)
            requires
                one == 1 as real,
        ;
    } else {
        assert(zero * h == zero && zero * (h * h) == zero && zero * (h * h * h) == zero && zero * (
        h * h * h * h) == zero) by (nonlinear_arith)
            requires
                zero == 0 as real,
        ;
        assert(h * zero == zero && (h * h) * zero == zero && (h * h * h) * zero == zero)
            by (nonlinear_arith)
            requires
                zero == 0 as real,
        ;
    }
}

/// The total and the power sums of two sequences, one after the other, are
/// the sums of theirs.
pub proof fn lemma_joined(a: Seq<real>, b: Seq<real>, c: real)
    ensures
        total(a + b) == total(a) + total(b),
        deviations(a + b, c) == deviations(a, c) + deviations(b, c),
        squares(a + b, c) == squares(a, c) + squares(b, c),
        cubes(a + b, c) == cubes(a, c) + cubes(b, c),
        fourths(a + b, c) == fourths(a, c) + fourths(b, c),
    decreases b.len(),
{
    if b.len() == 0 {
        assert(a + b =~= a);
    } else {
        lemma_joined(a, b.drop_last(), c);
        assert((a + b).drop_last() =~= a + b.drop_last());
        assert((a + b).last() == b.last());
    }
}

/// The mean and the sum of squares of `values`: what a variance is to hold
/// after them.
pub open spec fn variance_moments(values: Seq<real>) -> VarianceState<real> {
    if values.len() == 0 {
        VarianceState::<real>::empty()
    } else {
        let mean = mean_of(values);
        VarianceState {
            avg: MeanState { len: values.len(), mean },
            sum_2: squares(values, mean),
        }
    }
}

/// `q / n` is `w` where `w·n` is `q`.
proof fn lemma_quotient(q: real, n: real, w: real)
    requires
        n > 0 as real,
        w * n == q,
    ensures
        q / n == w,
{
    assert(q / n == w) by (nonlinear_arith)
        requires
            n > 0 as real,
            w * n == q,
    ;
}

/// `(q / n)·n` is `q`.
proof fn lemma_quotient_times(q: real, n: real)
    requires
        n > 0 as real,
    ensures
        (q / n) * n == q,
{
    assert((q / n) * n == q) by (nonlinear_arith)
        requires
            n > 0 as real,
    ;
}

/// A product with zero is zero.
proof fn lemma_times_zero(t: real, z: real)
    requires
        z == 0 as real,
    ensures
        t * z == 0 as real,
        z * t == 0 as real,
{
    assert(t * z == 0 as real && z * t == 0 as real) by (nonlinear_arith)
        requires
            z == 0 as real,
    ;
}

/// The mean of `k` values and one more, at the distance `h·n` from it, is
/// the mean moved by `h`.
proof fn lemma_mean_gain(mu: real, k: real, n: real, t: real, x: real, h: real)
    requires
        n == k + (1 as real),
        mu * k == t,
        h * n == x - mu,
    ensures
        (mu + h) * n == t + x,
{
    assert((mu + h) * n == mu * k + mu + h * n) by (nonlinear_arith)
        requires
            n == k + (1 as real),
    ;
}

/// What the sum of squares gains with the `n`th observation at the distance
/// `delta = h·n` from the mean of the others, where the mean moves by `h`.
proof fn lemma_square_gain(h: real, n: real, delta: real)
    requires
        delta == h * n,
    ensures
        (n - (1 as real)) * (h * h) + (delta - h) * (delta - h) == (delta * h) * (n - (1 as real)),
{
    assert((n - (1 as real)) * (h * h) + (h * n - h) * (h * n - h) == ((h * n) * h) * (n - (
    1 as real))) by (nonlinear_arith);
}

/// In exact arithmetic a variance holds, after any observations, their count,
/// their arithmetic mean and the sum of their squared deviations from it.
pub proof fn lemma_exact_variance(values: Seq<real>)
    ensures
        VarianceState::<real>::folded(values) == variance_moments(values),
    decreases values.len(),
{
    if values.len() > 0 {
        let before = values.drop_last();
        let x = values.last();
        lemma_exact_variance(before);
        let one = 1 as real;
        let zero = 0 as real;
        if before.len() == 0 {
            lemma_quotient(x - zero, one, x);
            lemma_times_zero((x - zero) * x, one - one);
            lemma_quotient(total(values), one, x);
            lemma_times_zero(x - x, x - x);
            assert(squares(before, x) == zero);
        } else {
            let k = before.len() as real;
            let n = (before.len() + 1) as real;
            let t = total(before);
            let mu = mean_of(before);
            let delta = x - mu;
            let h = delta / n;
            lemma_quotient_times(delta, n);
            lemma_quotient_times(t, k);
            lemma_mean_gain(mu, k, n, t, x, h);
            lemma_quotient(t + x, n, mu + h);
            assert(mean_of(values) == mu + h);
            lemma_shifted(before, mu, h);
            lemma_deviations_from_mean(before);
            lemma_times_zero(h, deviations(before, mu));
            lemma_square_gain(h, n, delta);
            assert(x - (mu + h) == delta - h);
            assert(n - one == k);
            assert(squares(values, mu + h) == squares(before, mu) + (delta * h) * (n - one));
        }
    }
}

/// What the two sums of squares and the distance of the means give, merged.
proof fn lemma_square_merge(n: real, m: real, delta: real, x: real)
    requires
        x * (n + m) == delta * m,
    ensures
        (n * (x * x) + m * ((x - delta) * (x - delta))) * (n + m) == ((delta * delta) * n) * m,
{
    let v = x - delta;
    let c = (delta * n) * m;
    let total = n + m;
    assert(v * total == x * total - delta * n - delta * m) by (nonlinear_arith)
        requires
            v == x - delta,
            total == n + m,
    ;
    assert((x * x) * total == x * (x * total)) by (nonlinear_arith);
    assert((v * v) * total == v * (v * total)) by (nonlinear_arith);
    let left = n * (x * x);
    let right = m * (v * v);
    assert((left + right) * total == left * total + right * total) by (nonlinear_arith);
    assert((n * (x * x)) * total == n * ((x * x) * total)) by (nonlinear_arith);
    assert((m * (v * v)) * total == m * ((v * v) * total)) by (nonlinear_arith);
    assert(n * (x * (delta * m)) == ((delta * n) * m) * x) by (nonlinear_arith);
    assert(m * (v * (-(delta * n))) == -(((delta * n) * m) * v)) by (nonlinear_arith);
    assert(c * x - c * v == c * (x - v)) by (nonlinear_arith);
    assert(((delta * n) * m) * delta == ((delta * delta) * n) * m) by (nonlinear_arith);
}

/// In exact arithmetic two variances, merged, hold the moments of the two
/// sequences, one after the other.
pub proof fn lemma_exact_variance_merged(a: Seq<real>, b: Seq<real>)
    ensures
        variance_moments(a).merged(variance_moments(b)) == variance_moments(a + b),
{
    if b.len() == 0 {
        assert(a + b =~= a);
    } else if a.len() == 0 {
        assert(a + b =~= b);
    } else {
        let n = a.len() as real;
        let m = b.len() as real;
        let mu_a = mean_of(a);
        let mu_b = mean_of(b);
        let delta = mu_b - mu_a;
        let x = (delta * m) / (n + m);
        let mu = mu_a + x;
        assert((a + b).len() as real == n + m);
        lemma_joined(a, b, mu);
        lemma_quotient_times(total(a), n);
        lemma_quotient_times(total(b), m);
        lemma_quotient_times(delta * m, n + m);
        assert((mu_a + x) * (n + m) == mu_a * n + mu_a * m + x * (n + m)) by (nonlinear_arith);
        assert(delta * m == mu_b * m - mu_a * m) by (nonlinear_arith)
            requires
                delta == mu_b - mu_a,
        ;
        lemma_quotient(total(a) + total(b), n + m, mu);
        assert(mean_of(a + b) == mu);
        lemma_shifted(a, mu_a, x);
        lemma_shifted(b, mu_b, x - delta);
        lemma_deviations_from_mean(a);
        lemma_deviations_from_mean(b);
        lemma_times_zero(x, deviations(a, mu_a));
        lemma_times_zero(x - delta, deviations(b, mu_b));
        assert(mu_b + (x - delta) == mu);
        lemma_square_merge(n, m, delta, x);
        let w = n * (x * x) + m * ((x - delta) * (x - delta));
        lemma_quotient(((delta * delta) * n) * m, n + m, w);
        assert(squares(a + b, mu) == squares(a, mu_a) + (squares(b, mu_b) + ((delta * delta) * n)
            * m / (n + m)));
    }
}

/// What the sum of cubes gains with the `n`th observation at the distance
/// `delta = h·n` from the mean of the others, where the mean moves by `h`.
proof fn lemma_cube_gain(h: real, n: real, delta: real)
    requires
        delta == h * n,
    ensures
        (delta - h) * (delta - h) * (delta - h) - (n - (1 as real)) * (h * h * h) == (((delta * h)
            * (n - (1 as real))) * h) * (n - (2 as real)),
{
    let k = n - (1 as real);
    let u = delta - h;
    let q = k * k;
    let w = h * h * h;
    assert(h * n - h == h * (n - (1 as real))) by (nonlinear_arith);
    assert(u == h * k);
    assert((h * k) * (h * k) == (h * h) * (k * k)) by (nonlinear_arith);
    assert(((h * h) * q) * (h * k) == ((h * h) * h) * (q * k)) by (nonlinear_arith);
    assert(u * u * u == w * (q * k));
    assert((h * n) * h == (h * h) * n) by (nonlinear_arith);
    assert((((h * h) * n) * k) * h == ((h * h) * h) * (n * k)) by (nonlinear_arith);
    assert(((delta * h) * k) * h == w * (n * k));
    assert(w * ((k * k) * k) - k * w == (w * ((k + (1 as real)) * k)) * ((k + (1 as real)) - (
    2 as real))) by (nonlinear_arith);
    assert(n == k + (1 as real));
}

/// What the sum of fourth powers gains with the `n`th observation at the
/// distance `delta = h·n` from the mean of the others, where the mean moves
/// by `h`.
proof fn lemma_fourth_gain(h: real, n: real, delta: real)
    requires
        delta == h * n,
    ensures
        (n - (1 as real)) * (h * h * h * h) + (delta - h) * (delta - h) * (delta - h) * (delta - h)
            == (((delta * h) * (n - (1 as real))) * (h * h)) * (((n * n) - ((3 as real) * n)) + (
        3 as real)),
{
    let k = n - (1 as real);
    let u = delta - h;
    let q = k * k;
    let w = h * h * h;
    let z = h * h * h * h;
    assert(h * n - h == h * (n - (1 as real))) by (nonlinear_arith);
    assert(u == h * k);
    assert((h * k) * (h * k) == (h * h) * (k * k)) by (nonlinear_arith);
    assert(((h * h) * q) * (h * k) == ((h * h) * h) * (q * k)) by (nonlinear_arith);
    assert(u * u * u == w * (q * k));
    assert((w * (q * k)) * (h * k) == (w * h) * ((q * k) * k)) by (nonlinear_arith);
    assert(u * u * u * u == z * ((q * k) * k));
    assert((h * n) * h == (h * h) * n) by (nonlinear_arith);
    assert((((h * h) * n) * k) * (h * h) == ((h * h) * (h * h)) * (n * k)) by (nonlinear_arith);
    assert((h * h) * (h * h) == h * h * h * h) by (nonlinear_arith);
    assert(((delta * h) * k) * (h * h) == z * (n * k));
    assert(k * z + z * ((((k * k) * k)) * k) == (z * ((k + (1 as real)) * k)) * ((((k + (
    1 as real)) * (k + (1 as real))) - ((3 as real) * (k + (1 as real)))) + (3 as real)))
        by (nonlinear_arith);
    assert(n == k + (1 as real));
}

/// The mean, the sum of squares and the sum of cubes of `values`: what a
/// skewness is to hold after them.
pub open spec fn skewness_moments(values: Seq<real>) -> SkewnessState<real> {
    if values.len() == 0 {
        SkewnessState::<real>::empty()
    } else {
        SkewnessState { avg: variance_moments(values), sum_3: cubes(values, mean_of(values)) }
    }
}

/// The moments of `values`: what a kurtosis is to hold after them.
pub open spec fn moments(values: Seq<real>) -> KurtosisState<real> {
    if values.len() == 0 {
        KurtosisState::<real>::empty()
    } else {
        KurtosisState { avg: skewness_moments(values), sum_4: fourths(values, mean_of(values)) }
    }
}

/// In exact arithmetic a skewness holds, after any observations, their count,
/// their arithmetic mean and the sums of their squared and cubed deviations
/// from it.
pub proof fn lemma_exact_skewness(values: Seq<real>)
    ensures
        SkewnessState::<real>::folded(values) == skewness_moments(values),
    decreases values.len(),
{
    lemma_skewness_owns_variance::<real>(values);
    lemma_exact_variance(values);
    if values.len() > 0 {
        let before = values.drop_last();
        let x = values.last();
        lemma_exact_skewness(before);
        lemma_exact_variance(before);
        let one = 1 as real;
        let zero = 0 as real;
        let got = SkewnessState::<real>::folded(values).sum_3;
        if before.len() == 0 {
            lemma_quotient(x - zero, one, x);
            let term = ((x - zero) * x) * (one - one);
            lemma_times_zero((x - zero) * x, one - one);
            lemma_times_zero(x, term);
            lemma_times_zero(one - (2 as real), term * x);
            lemma_times_zero((3 as real) * x, zero);
            assert(got == zero);
            lemma_quotient(total(values), one, x);
            lemma_times_zero(x - x, x - x);
            lemma_times_zero(x - x, (x - x) * (x - x));
            assert(cubes(before, x) == zero);
        } else {
            let k = before.len() as real;
            let n = (before.len() + 1) as real;
            let mu = mean_of(before);
            let delta = x - mu;
            let h = delta / n;
            let m2 = squares(before, mu);
            let m3 = cubes(before, mu);
            lemma_quotient_times(delta, n);
            assert(mean_of(values) == mu + h);
            lemma_shifted(before, mu, h);
            lemma_deviations_from_mean(before);
            lemma_times_zero(h * h, deviations(before, mu));
            lemma_cube_gain(h, n, delta);
            assert(((3 as real) * h) * m2 == (3 as real) * (h * m2)) by (nonlinear_arith);
            assert(x - (mu + h) == delta - h);
            assert(n - one == k);
            let term = (delta * h) * (n - one);
            assert(got == m3 + ((term * h) * (n - (2 as real)) - ((3 as real) * h) * m2));
            assert(cubes(values, mu + h) == cubes(before, mu + h) + (delta - h) * (delta - h) * (
            delta - h));
        }
    }
}

/// In exact arithmetic a kurtosis holds, after any observations, their
/// moments: their count, their arithmetic mean and the sums of the second,
/// third and fourth powers of their deviations from it.
pub proof fn lemma_exact_kurtosis(values: Seq<real>)
    ensures
        KurtosisState::<real>::folded(values) == moments(values),
    decreases values.len(),
{
    lemma_kurtosis_owns_skewness::<real>(values);
    lemma_exact_skewness(values);
    if values.len() > 0 {
        let before = values.drop_last();
        let x = values.last();
        lemma_exact_kurtosis(before);
        lemma_exact_skewness(before);
        lemma_exact_variance(before);
        lemma_exact_variance(values);
        let one = 1 as real;
        let zero = 0 as real;
        let got = KurtosisState::<real>::folded(values).sum_4;
        if before.len() == 0 {
            lemma_quotient(x - zero, one, x);
            let term = ((x - zero) * x) * (one - one);
            let weight = ((one * one) - ((3 as real) * one)) + (3 as real);
            lemma_times_zero((x - zero) * x, one - one);
            lemma_times_zero(x * x, term);
            lemma_times_zero(weight, term * (x * x));
            lemma_times_zero((6 as real) * (x * x), zero);
            lemma_times_zero((4 as real) * x, zero);
            assert(got == zero);
            lemma_quotient(total(values), one, x);
            lemma_times_zero(x - x, x - x);
            lemma_times_zero(x - x, (x - x) * (x - x));
            lemma_times_zero(x - x, (x - x) * (x - x) * (x - x));
            assert(fourths(before, x) == zero);
        } else {
            let k = before.len() as real;
            let n = (before.len() + 1) as real;
            let mu = mean_of(before);
            let delta = x - mu;
            let h = delta / n;
            let m2 = squares(before, mu);
            let m3 = cubes(before, mu);
            let m4 = fourths(before, mu);
            lemma_quotient_times(delta, n);
            assert(mean_of(values) == mu + h);
            lemma_shifted(before, mu, h);
            lemma_deviations_from_mean(before);
            lemma_times_zero(h * h * h, deviations(before, mu));
            lemma_fourth_gain(h, n, delta);
            assert(((6 as real) * (h * h)) * m2 == (6 as real) * ((h * h) * m2))
                by (nonlinear_arith);
            assert(((4 as real) * h) * m3 == (4 as real) * (h * m3)) by (nonlinear_arith);
            assert(x - (mu + h) == delta - h);
            assert(n - one == k);
            let term = (delta * h) * (n - one);
            let weight = ((n * n) - ((3 as real) * n)) + (3 as real);
            assert(got == m4 + (((term * (h * h)) * weight + ((6 as real) * (h * h)) * m2) - ((
            4 as real) * h) * m3));
            assert(fourths(values, mu + h) == fourths(before, mu + h) + (delta - h) * (delta - h)
                * (delta - h) * (delta - h));
        }
    }
}

/// The cube and the fourth power of a product are the products of the
/// powers.
proof fn lemma_powers_of_product(a: real, b: real)
    ensures
        (a * b) * (a * b) == (a * a) * (b * b),
        (a * b) * (a * b) * (a * b) == (a * a * a) * (b * b * b),
        (a * b) * (a * b) * (a * b) * (a * b) == (a * a * a * a) * (b * b * b * b),
{
    let p = a * a;
    let q = b * b;
    assert((a * b) * (a * b) == (a * a) * (b * b)) by (nonlinear_arith);
    assert((p * q) * (a * b) == (p * a) * (q * b)) by (nonlinear_arith);
    let w = p * a;
    let y = q * b;
    assert((w * y) * (a * b) == (w * a) * (y * b)) by (nonlinear_arith);
}

/// The powers of `-t` are those of `t`, with the sign of the odd ones turned.
proof fn lemma_powers_of_negative(t: real)
    ensures
        (-t) * (-t) == t * t,
        (-t) * (-t) * (-t) == -(t * t * t),
        (-t) * (-t) * (-t) * (-t) == t * t * t * t,
{
    assert((-t) * (-t) == t * t) by (nonlinear_arith);
    assert((-t) * (-t) * (-t) == -(t * t * t)) by (nonlinear_arith);
    assert((-t) * (-t) * (-t) * (-t) == t * t * t * t) by (nonlinear_arith);
}

/// The term of a merge that weighs the lower sums of the two samples by the
/// shifts of their means: `k·g·(n·b - m·a)` is `-k·(g·m)·a - k·(-(g·n))·b`.
proof fn lemma_cross_term(k: real, g: real, n: real, m: real, a: real, b: real)
    ensures
        (k * g) * ((n * b) - (m * a)) == -(k * ((g * m) * a)) - k * ((-(g * n)) * b),
{
    let t = g * n;
    let nb = n * b;
    let ma = m * a;
    let x = nb - ma;
    assert((k * g) * x == k * (g * x)) by (nonlinear_arith);
    assert(g * (nb - ma) == g * nb - g * ma) by (nonlinear_arith);
    assert(g * (n * b) == (g * n) * b) by (nonlinear_arith);
    assert(g * (m * a) == (g * m) * a) by (nonlinear_arith);
    let p = (g * n) * b;
    let q = (g * m) * a;
    assert(k * (p - q) == k * p - k * q) by (nonlinear_arith);
    assert((-t) * b == -(t * b)) by (nonlinear_arith);
    let r = t * b;
    assert(k * (-r) == -(k * r)) by (nonlinear_arith);
}

/// `c·(n + m)·(n - m)` is `c·n·n - c·m·m`.
proof fn lemma_difference_of_squares(c: real, n: real, m: real)
    ensures
        (c * (n + m)) * (n - m) == c * (n * n) - c * (m * m),
{
    let s = n + m;
    let qn = n * n;
    let qm = m * m;
    assert((c * s) * (n - m) == c * (s * (n - m))) by (nonlinear_arith);
    assert((n + m) * (n - m) == n * n - m * m) by (nonlinear_arith);
    assert(c * (qn - qm) == c * qn - c * qm) by (nonlinear_arith);
}

/// The cubes of the two shifts, weighed by the counts, are the first term of
/// a skewness merge.
proof fn lemma_cube_shift(g: real, n: real, m: real)
    ensures
        -(n * ((g * m) * (g * m) * (g * m))) - m * ((-(g * n)) * (-(g * n)) * (-(g * n))) == ((((g
            * (n + m)) * g) * g) * n * m) * (n - m),
{
    let big = g * g * g;
    let s = n + m;
    let c = big * (n * m);
    lemma_powers_of_product(g, m);
    lemma_powers_of_product(g, n);
    lemma_powers_of_negative(g * n);
    lemma_cube_weights(big, n, m, s);
    lemma_difference_of_squares(c, n, m);
    assert(((g * s) * g) * g == ((g * g) * g) * s) by (nonlinear_arith);
    let y = big * (n * n * n);
    assert(m * (-y) == -(m * y)) by (nonlinear_arith);
}

/// Factors of the first term of a skewness merge, regrouped.
proof fn lemma_cube_weights(big: real, n: real, m: real, s: real)
    ensures
        m * (big * (n * n * n)) == (big * (n * m)) * (n * n),
        n * (big * (m * m * m)) == (big * (n * m)) * (m * m),
        ((big * s) * n) * m == (big * (n * m)) * s,
{
    let qn = n * n;
    let qm = m * m;
    assert(m * (big * (qn * n)) == (big * (n * m)) * qn) by (nonlinear_arith);
    assert(n * (big * (qm * m)) == (big * (n * m)) * qm) by (nonlinear_arith);
    assert(((big * s) * n) * m == (big * (n * m)) * s) by (nonlinear_arith);
}

/// The term of a kurtosis merge that weighs the sums of squares of the two
/// samples by the squared shifts of their means.
proof fn lemma_square_cross_term(k: real, g: real, n: real, m: real, a: real, b: real)
    ensures
        (k * (g * g)) * (((n * n) * b) + ((m * m) * a)) == k * (((g * m) * (g * m)) * a) + k * (((
        -(g * n)) * (-(g * n))) * b),
{
    let p = g * g;
    let qn = n * n;
    let qm = m * m;
    let u = qn * b;
    let v = qm * a;
    let x = u + v;
    lemma_powers_of_product(g, n);
    lemma_powers_of_product(g, m);
    lemma_powers_of_negative(g * n);
    assert((k * p) * x == k * (p * x)) by (nonlinear_arith);
    assert(p * (u + v) == p * u + p * v) by (nonlinear_arith);
    assert(p * (qn * b) == (p * qn) * b) by (nonlinear_arith);
    assert(p * (qm * a) == (p * qm) * a) by (nonlinear_arith);
    let c = (p * qn) * b;
    let d = (p * qm) * a;
    assert(k * (c + d) == k * d + k * c) by (nonlinear_arith);
}

/// Factors of the first term of a kurtosis merge, regrouped.
proof fn lemma_fourth_weights(z: real, n: real, m: real)
    ensures
        (z * (n * m)) * (n * n * n) == m * (z * (n * n * n * n)),
        (z * (n * m)) * (m * m * m) == n * (z * (m * m * m * m)),
{
    let n3 = n * n * n;
    let m3 = m * m * m;
    assert((z * (n * m)) * n3 == m * (z * (n3 * n))) by (nonlinear_arith);
    assert((z * (n * m)) * m3 == n * (z * (m3 * m))) by (nonlinear_arith);
}

/// `c·(n + m)·(n·n - n·m + m·m)` is `c·n·n·n + c·m·m·m`.
proof fn lemma_sum_of_cubes(c: real, n: real, m: real)
    ensures
        (c * (n + m)) * (((n * n) - (n * m)) + (m * m)) == c * (n * n * n) + c * (m * m * m),
{
    let s = n + m;
    let r = ((n * n) - (n * m)) + (m * m);
    let n3 = n * n * n;
    let m3 = m * m * m;
    assert((c * s) * r == c * (s * r)) by (nonlinear_arith);
    assert((n + m) * (((n * n) - (n * m)) + (m * m)) == n * n * n + m * m * m)
        by (nonlinear_arith);
    assert(c * (n3 + m3) == c * n3 + c * m3) by (nonlinear_arith);
}

/// The fourth powers of the two shifts, weighed by the counts, are the first
/// term of a kurtosis merge.
proof fn lemma_fourth_shift(g: real, n: real, m: real)
    ensures
        n * ((g * m) * (g * m) * (g * m) * (g * m)) + m * ((-(g * n)) * (-(g * n)) * (-(g * n)) * (
        -(g * n))) == ((((g * (n + m)) * g) * (g * g)) * n * m) * (((n * n) - (n * m)) + (m * m)),
{
    let z = g * g * g * g;
    let s = n + m;
    let c = z * (n * m);
    lemma_powers_of_product(g, m);
    lemma_powers_of_product(g, n);
    lemma_powers_of_negative(g * n);
    lemma_cube_weights(z, n, m, s);
    lemma_fourth_weights(z, n, m);
    lemma_sum_of_cubes(c, n, m);
    assert(((g * s) * g) * (g * g) == (((g * g) * g) * g) * s) by (nonlinear_arith);
}

/// The shifts of the two means in a merge: with `g` the distance `delta` of
/// the means divided by the whole count `n + m`, the first mean moves by
/// `g·m` and the second by `-(g·n)`.
proof fn lemma_merge_shifts(n: real, m: real, delta: real)
    requires
        n + m > 0 as real,
    ensures
        (delta * m) / (n + m) == (delta / (n + m)) * m,
        (delta * m) / (n + m) - delta == -((delta / (n + m)) * n),
        (delta / (n + m)) * (n + m) == delta,
{
    let g = delta / (n + m);
    lemma_quotient_times(delta, n + m);
    assert((g * m) * (n + m) == (g * (n + m)) * m) by (nonlinear_arith);
    lemma_quotient(delta * m, n + m, g * m);
    assert(g * (n + m) == g * n + g * m) by (nonlinear_arith);
}

/// In exact arithmetic two skewnesses, merged, hold the moments of the two
/// sequences, one after the other.
pub proof fn lemma_exact_skewness_merged(a: Seq<real>, b: Seq<real>)
    ensures
        skewness_moments(a).merged(skewness_moments(b)) == skewness_moments(a + b),
{
    lemma_exact_variance_merged(a, b);
    if b.len() == 0 {
        assert(a + b =~= a);
    } else if a.len() == 0 {
        assert(a + b =~= b);
    } else {
        let n = a.len() as real;
        let m = b.len() as real;
        let mu_a = mean_of(a);
        let mu_b = mean_of(b);
        let delta = mu_b - mu_a;
        let g = delta / (n + m);
        let mu = mean_of(a + b);
        let a2 = squares(a, mu_a);
        let b2 = squares(b, mu_b);
        assert((a + b).len() as real == n + m);
        lemma_merge_shifts(n, m, delta);
        assert(mu == mu_a + g * m);
        assert(mu == mu_b + (-(g * n)));
        lemma_joined(a, b, mu);
        lemma_shifted(a, mu_a, g * m);
        lemma_shifted(b, mu_b, -(g * n));
        lemma_deviations_from_mean(a);
        lemma_deviations_from_mean(b);
        lemma_times_zero((g * m) * (g * m), deviations(a, mu_a));
        lemma_times_zero((-(g * n)) * (-(g * n)), deviations(b, mu_b));
        lemma_cross_term(3 as real, g, n, m, a2, b2);
        lemma_cube_shift(g, n, m);
        let shift = ((((delta * g) * g) * n) * m) * (n - m);
        let cross = ((3 as real) * g) * ((n * b2) - (m * a2));
        assert(skewness_moments(a).merged(skewness_moments(b)).sum_3 == cubes(a, mu_a) + ((cubes(
            b,
            mu_b,
        ) + shift) + cross));
    }
}

/// In exact arithmetic two kurtoses, merged, hold the moments of the two
/// sequences, one after the other: what a single pass over both would hold.
pub proof fn lemma_exact_merged(a: Seq<real>, b: Seq<real>)
    ensures
        moments(a).merged(moments(b)) == moments(a + b),
{
    lemma_exact_skewness_merged(a, b);
    if b.len() == 0 {
        assert(a + b =~= a);
    } else if a.len() == 0 {
        assert(a + b =~= b);
    } else {
        let n = a.len() as real;
        let m = b.len() as real;
        let mu_a = mean_of(a);
        let mu_b = mean_of(b);
        let delta = mu_b - mu_a;
        let g = delta / (n + m);
        let mu = mean_of(a + b);
        let a2 = squares(a, mu_a);
        let b2 = squares(b, mu_b);
        let a3 = cubes(a, mu_a);
        let b3 = cubes(b, mu_b);
        assert((a + b).len() as real == n + m);
        lemma_exact_variance_merged(a, b);
        lemma_merge_shifts(n, m, delta);
        assert(mu == mu_a + g * m);
        assert(mu == mu_b + (-(g * n)));
        lemma_joined(a, b, mu);
        lemma_shifted(a, mu_a, g * m);
        lemma_shifted(b, mu_b, -(g * n));
        lemma_deviations_from_mean(a);
        lemma_deviations_from_mean(b);
        lemma_times_zero((g * m) * (g * m) * (g * m), deviations(a, mu_a));
        lemma_times_zero((-(g * n)) * (-(g * n)) * (-(g * n)), deviations(b, mu_b));
        lemma_cross_term(4 as real, g, n, m, a3, b3);
        lemma_square_cross_term(6 as real, g, n, m, a2, b2);
        lemma_fourth_shift(g, n, m);
        let shift = ((((delta * g) * (g * g)) * n) * m) * (((n * n) - (n * m)) + (m * m));
        let squares = ((6 as real) * (g * g)) * (((n * n) * b2) + ((m * m) * a2));
        let cubes = ((4 as real) * g) * ((n * b3) - (m * a3));
        assert(moments(a).merged(moments(b)).sum_4 == fourths(a, mu_a) + (((fourths(b, mu_b)
            + shift) + squares) + cubes));
    }
}

/// In exact arithmetic a sequence cut in two at any place, each part taken in
/// by an estimator and the two merged, gives what one estimator holds after
/// the whole sequence: the same count, mean and sums.
pub proof fn lemma_exact_split(values: Seq<real>, mid: int)
    requires
        0 <= mid <= values.len(),
    ensures
        KurtosisState::<real>::folded(values.take(mid)).merged(
            KurtosisState::<real>::folded(values.skip(mid)),
        ) == KurtosisState::<real>::folded(values),
{
    lemma_exact_kurtosis(values.take(mid));
    lemma_exact_kurtosis(values.skip(mid));
    lemma_exact_kurtosis(values);
    lemma_exact_merged(values.take(mid), values.skip(mid));
    assert(values.take(mid) + values.skip(mid) =~= values);
}

/// The moments of two sequences, one after the other, do not depend on which
/// comes first.
pub proof fn lemma_moments_of_either_order(a: Seq<real>, b: Seq<real>)
    ensures
        moments(a + b) == moments(b + a),
{
    if a.len() + b.len() > 0 {
        lemma_joined(a, b, mean_of(a + b));
        lemma_joined(b, a, mean_of(a + b));
        assert(mean_of(a + b) == mean_of(b + a));
    }
}

/// In exact arithmetic merging is insensitive to order: two estimators over
/// any observations give the same, whichever merges the other.
pub proof fn lemma_exact_merged_in_either_order(a: Seq<real>, b: Seq<real>)
    ensures
        KurtosisState::<real>::folded(a).merged(KurtosisState::<real>::folded(b))
            == KurtosisState::<real>::folded(b).merged(KurtosisState::<real>::folded(a)),
{
    lemma_exact_kurtosis(a);
    lemma_exact_kurtosis(b);
    lemma_exact_merged(a, b);
    lemma_exact_merged(b, a);
    lemma_moments_of_either_order(a, b);
}

/// In exact arithmetic the mean that an estimator holds after observations
/// is their arithmetic mean.
pub proof fn lemma_exact_mean(values: Seq<real>)
    requires
        values.len() > 0,
    ensures
        KurtosisState::<real>::folded(values).mean() == total(values) / (values.len() as real),
        KurtosisState::<real>::folded(values).len() == values.len(),
{
    lemma_exact_kurtosis(values);
}

/// The sums of the squares and of the fourth powers of deviations are not
/// negative.
pub proof fn lemma_even_sums(values: Seq<real>, c: real)
    ensures
        squares(values, c) >= 0 as real,
        fourths(values, c) >= 0 as real,
    decreases values.len(),
{
    if values.len() > 0 {
        lemma_even_sums(values.drop_last(), c);
        let d = values.last() - c;
        let q = d * d;
        assert(d * d >= 0 as real) by (nonlinear_arith);
        assert(q * q >= 0 as real) by (nonlinear_arith);
        assert(d * d * d * d == q * q) by (nonlinear_arith)
            requires
                q == d * d,
        ;
    }
}

/// In exact arithmetic the sum of squares and the sum of fourth powers that
/// an estimator holds are not negative.
pub proof fn lemma_exact_signs(values: Seq<real>)
    ensures
        KurtosisState::<real>::folded(values).sum_2() >= 0 as real,
        KurtosisState::<real>::folded(values).sum_4 >= 0 as real,
{
    lemma_exact_kurtosis(values);
    if values.len() > 0 {
        lemma_even_sums(values, mean_of(values));
    }
}

} // verus!
