//! Samples that hold one number over and over: the mean is that number, and
//! every power sum stays zero.

use vstd::prelude::*;
use crate::binary64::facts::{
    lemma_constants, lemma_difference_of_same, lemma_difference_with_zero, lemma_fields,
    lemma_of_integer, lemma_product_below, lemma_product_with_zero, lemma_quotient_by_one,
    lemma_quotient_of_zero, lemma_small_integers, lemma_square_below, lemma_square_root_of_zero, lemma_sum_below,
    lemma_sum_of_zeros,
    lemma_sum_with_zero,
};
use crate::binary64::format::Binary64;
use crate::moments::kurtosis::KurtosisState;
use crate::moments::mean::MeanState;
use crate::moments::laws::{
    lemma_folded_len, lemma_kurtosis_owns_skewness, lemma_skewness_owns_variance,
};
use crate::moments::skewness::SkewnessState;
use crate::moments::variance::VarianceState;

verus! {

/// Every element of `values` is `x`.
pub open spec fn constant(values: Seq<Binary64>, x: Binary64) -> bool {
    forall|i: int| 0 <= i < values.len() ==> values[i] == x
}

/// `x` is finite and so is its square: what a sample of `x` alone needs for
/// its sum of squares to stay a number.
pub open spec fn square_fits(x: Binary64) -> bool {
    x.finite() && x.product(x).finite()
}

/// `x` is finite and so is six times its square: what a sample of `x` alone
/// needs for its sum of fourth powers to stay a number.
pub open spec fn six_squares_fit(x: Binary64) -> bool {
    x.finite() && Binary64::six().product(x.product(x)).finite()
}

/// What one more `x` does to a sample of `len` times `x` whose mean is `x`:
/// the distance to the mean is `x` itself for the first observation and zero
/// after it, so the mean stays `x` and the sum of squares gains a zero.
proof fn lemma_constant_step(x: Binary64, mean: Binary64, len: nat)
    requires
        square_fits(x),
        len < u64::MAX,
        len == 0 ==> mean == Binary64::positive_zero(),
        len > 0 ==> mean.same_number(x),
    ensures
        ({
            let n = Binary64::of_integer(len + 1);
            let delta = x.difference(mean);
            let delta_n = delta.quotient(n);
            let term = delta.product(delta_n).product(n.difference(Binary64::one()));
            &&& n.below(65)
            &&& delta.finite()
            &&& delta_n.finite()
            &&& len == 0 ==> delta_n == x
            &&& len > 0 ==> delta_n.zero()
            &&& term.zero()
            &&& mean.sum(delta_n).same_number(x)
            &&& Binary64::three().product(delta_n).finite()
            &&& Binary64::four().product(delta_n).finite()
        }),
{
    let one = Binary64::one();
    let n = Binary64::of_integer(len + 1);
    let delta = x.difference(mean);
    let delta_n = delta.quotient(n);
    lemma_of_integer(len + 1);
    lemma_constants();
    lemma_fields(n);
    lemma_fields(x);
    lemma_fields(mean);
    lemma_sum_below(n, one, 65);
    if len == 0 {
        lemma_difference_with_zero(x, mean);
        lemma_quotient_by_one(x);
        lemma_difference_of_same(n, one);
        lemma_product_with_zero(n.difference(one), x.product(x));
        lemma_sum_with_zero(x, mean);
        lemma_square_below(x);
        lemma_product_below(Binary64::three(), x, 3, 513);
        lemma_product_below(Binary64::four(), x, 3, 513);
    } else {
        lemma_difference_of_same(x, mean);
        lemma_fields(delta);
        lemma_quotient_of_zero(delta, n);
        lemma_fields(delta_n);
        lemma_product_with_zero(delta, delta_n);
        lemma_product_with_zero(delta.product(delta_n), n.difference(one));
        lemma_sum_with_zero(mean, delta_n);
        lemma_product_with_zero(delta_n, Binary64::three());
        lemma_product_with_zero(delta_n, Binary64::four());
        lemma_fields(Binary64::three().product(delta_n));
        lemma_fields(Binary64::four().product(delta_n));
    }
}

/// The mean of a sample that holds the finite number `x` alone is `x`.
pub proof fn lemma_constant_mean(values: Seq<Binary64>, x: Binary64)
    requires
        constant(values, x),
        0 < values.len() <= u64::MAX,
        x.finite(),
    ensures
        MeanState::folded(values).mean.same_number(x),
    decreases values.len(),
{
    lemma_small_integers();
    let before = MeanState::folded(values.drop_last());
    let n = Binary64::of_integer(before.len + 1);
    let delta = x.difference(before.mean);
    lemma_folded_len(values.drop_last());
    lemma_of_integer(before.len + 1);
    lemma_fields(n);
    lemma_fields(x);
    if before.len == 0 {
        lemma_difference_with_zero(x, before.mean);
        lemma_quotient_by_one(x);
        lemma_sum_with_zero(x, before.mean);
    } else {
        lemma_constant_mean(values.drop_last(), x);
        lemma_fields(before.mean);
        lemma_difference_of_same(x, before.mean);
        lemma_quotient_of_zero(delta, n);
        lemma_sum_with_zero(before.mean, delta.quotient(n));
    }
}

/// The weights `n - 2` and `n * n - 3 * n + 3` of the count are finite.
proof fn lemma_weights_finite(len: nat)
    requires
        len <= u64::MAX,
    ensures
        ({
            let n = Binary64::of_integer(len);
            &&& n.difference(Binary64::two()).finite()
            &&& n.product(n).difference(Binary64::three().product(n)).sum(Binary64::three()).finite()
        }),
{
    let n = Binary64::of_integer(len);
    let three = Binary64::three();
    lemma_of_integer(len);
    lemma_constants();
    lemma_sum_below(n, Binary64::two(), 65);
    lemma_product_below(n, n, 65, 65);
    lemma_product_below(three, n, 3, 65);
    lemma_sum_below(n.product(n), three.product(n), 131);
    lemma_sum_below(n.product(n).difference(three.product(n)), three, 133);
}

/// A variance of a sample that holds `x` alone: the mean is `x`, the sum of
/// squares is zero, and so are both variances and the standard error. Left out
/// is an `x` whose square is not finite: its sum of squares is NaN.
pub proof fn lemma_constant_variance(values: Seq<Binary64>, x: Binary64)
    requires
        constant(values, x),
        values.len() <= u64::MAX,
        values.len() > 0 ==> square_fits(x),
    ensures
        ({
            let v = VarianceState::folded(values);
            &&& v.len() == values.len()
            &&& values.len() > 0 ==> v.mean().same_number(x)
            &&& v.sum_2.zero()
            &&& v.sample_variance().zero()
            &&& v.population_variance().zero()
            &&& v.error_mean().zero()
        }),
    decreases values.len(),
{
    lemma_small_integers();
    let v = VarianceState::folded(values);
    lemma_folded_len(values);
    if values.len() > 0 {
        let before = VarianceState::folded(values.drop_last());
        lemma_constant_variance(values.drop_last(), x);
        lemma_folded_len(values.drop_last());
        lemma_constant_step(x, before.mean(), before.len());
        let n = Binary64::of_integer(before.len() + 1);
        let delta = x.difference(before.mean());
        let delta_n = delta.quotient(n);
        let term = delta.product(delta_n).product(n.difference(Binary64::one()));
        lemma_sum_of_zeros(before.sum_2, term);
        assert(v.sum_2 == before.sum_2.sum(term));
        lemma_of_integer(values.len());
        if values.len() >= 2 {
            let less = Binary64::of_integer((values.len() - 1) as nat);
            lemma_of_integer((values.len() - 1) as nat);
            lemma_fields(less);
            lemma_quotient_of_zero(v.sum_2, less);
            lemma_fields(n);
            lemma_quotient_of_zero(v.sample_variance(), n);
            lemma_square_root_of_zero(v.sample_variance().quotient(n));
        }
        lemma_fields(n);
        lemma_quotient_of_zero(v.sum_2, n);
    }
}

/// A skewness of a sample that holds `x` alone: the sum of cubes is zero and
/// the skewness is positive zero. Left out is an `x` whose square is not
/// finite.
pub proof fn lemma_constant_skewness(values: Seq<Binary64>, x: Binary64)
    requires
        constant(values, x),
        values.len() <= u64::MAX,
        values.len() > 0 ==> square_fits(x),
    ensures
        ({
            let s = SkewnessState::folded(values);
            &&& s.avg == VarianceState::folded(values)
            &&& s.sum_3.zero()
            &&& s.skewness() == Binary64::positive_zero()
        }),
    decreases values.len(),
{
    lemma_small_integers();
    let s = SkewnessState::folded(values);
    lemma_skewness_owns_variance(values);
    lemma_constant_variance(values, x);
    if values.len() > 0 {
        let before = SkewnessState::folded(values.drop_last());
        lemma_constant_skewness(values.drop_last(), x);
        lemma_constant_variance(values.drop_last(), x);
        lemma_folded_len(values.drop_last());
        lemma_constant_step(x, before.mean(), before.len());
        lemma_weights_finite(before.len() + 1);
        let n = Binary64::of_integer(before.len() + 1);
        let delta = x.difference(before.mean());
        let delta_n = delta.quotient(n);
        let term = delta.product(delta_n).product(n.difference(Binary64::one()));
        let left = term.product(delta_n).product(n.difference(Binary64::two()));
        let right = Binary64::three().product(delta_n).product(before.sum_2());
        lemma_product_with_zero(term, delta_n);
        lemma_product_with_zero(term.product(delta_n), n.difference(Binary64::two()));
        lemma_product_with_zero(before.sum_2(), Binary64::three().product(delta_n));
        lemma_fields(left);
        lemma_difference_of_same(left, right);
        lemma_sum_of_zeros(before.sum_3, left.difference(right));
        assert(s.sum_3 == before.sum_3.sum(left.difference(right)));
    }
}

/// A kurtosis of a sample that holds `x` alone: the sum of fourth powers is
/// zero and the kurtosis is positive zero. Left out is an `x` of which six
/// times the square is not finite: its sum of fourth powers is NaN.
pub proof fn lemma_constant_kurtosis(values: Seq<Binary64>, x: Binary64)
    requires
        constant(values, x),
        values.len() <= u64::MAX,
        values.len() > 0 ==> six_squares_fit(x),
    ensures
        ({
            let k = KurtosisState::folded(values);
            &&& k.avg == SkewnessState::folded(values)
            &&& k.sum_4.zero()
            &&& k.kurtosis() == Binary64::positive_zero()
        }),
    decreases values.len(),
{
    lemma_small_integers();
    let k = KurtosisState::folded(values);
    lemma_kurtosis_owns_skewness(values);
    if values.len() > 0 {
        lemma_six_squares(x);
        let before = KurtosisState::folded(values.drop_last());
        lemma_constant_kurtosis(values.drop_last(), x);
        lemma_constant_skewness(values.drop_last(), x);
        lemma_constant_variance(values.drop_last(), x);
        lemma_folded_len(values.drop_last());
        lemma_constant_step(x, before.mean(), before.len());
        lemma_weights_finite(before.len() + 1);
        let n = Binary64::of_integer(before.len() + 1);
        let delta = x.difference(before.mean());
        let delta_n = delta.quotient(n);
        let term = delta.product(delta_n).product(n.difference(Binary64::one()));
        let delta_n_sq = delta_n.product(delta_n);
        let weight = n.product(n).difference(Binary64::three().product(n)).sum(Binary64::three());
        let first = term.product(delta_n_sq).product(weight);
        let second = Binary64::six().product(delta_n_sq).product(before.sum_2());
        let third = Binary64::four().product(delta_n).product(before.sum_3());
        if before.len() > 0 {
            lemma_product_with_zero(delta_n, delta_n);
            lemma_fields(delta_n_sq);
            lemma_constants();
            lemma_product_with_zero(delta_n_sq, Binary64::six());
            lemma_fields(Binary64::six().product(delta_n_sq));
        }
        lemma_product_with_zero(term, delta_n_sq);
        lemma_product_with_zero(term.product(delta_n_sq), weight);
        lemma_product_with_zero(before.sum_2(), Binary64::six().product(delta_n_sq));
        lemma_product_with_zero(before.sum_3(), Binary64::four().product(delta_n));
        lemma_sum_of_zeros(first, second);
        lemma_fields(first.sum(second));
        lemma_difference_of_same(first.sum(second), third);
        lemma_sum_of_zeros(before.sum_4, first.sum(second).difference(third));
        assert(k.sum_4 == before.sum_4.sum(first.sum(second).difference(third)));
    }
}

/// Where six times the square of `x` is finite, the square is.
proof fn lemma_six_squares(x: Binary64)
    requires
        six_squares_fit(x),
    ensures
        square_fits(x),
{
    reveal(Binary64::product);
    lemma_constants();
    lemma_fields(x);
    lemma_fields(x.product(x));
    lemma_fields(Binary64::six());
    lemma_fields(Binary64::six().product(x.product(x)));
}

/// An empty binary64 estimator holds positive zeros only.
pub proof fn lemma_empty_holds_positive_zeros()
    ensures
        ({
            let k = KurtosisState::<Binary64>::empty();
            &&& k.len() == 0
            &&& k.mean() == Binary64::positive_zero()
            &&& k.sum_2() == Binary64::positive_zero()
            &&& k.sum_3() == Binary64::positive_zero()
            &&& k.sum_4 == Binary64::positive_zero()
        }),
{
    lemma_small_integers();
}

} // verus!
