use average::{Binary64, Kurtosis};

fn b(x: f64) -> Binary64 {
    Binary64::from_bits(x.to_bits())
}

fn f(x: Binary64) -> f64 {
    f64::from_bits(x.to_bits())
}

fn collect(values: &[f64]) -> Kurtosis {
    let bits: Vec<Binary64> = values.iter().map(|x| b(*x)).collect();
    Kurtosis::from_slice(&bits)
}

/// The same bits, or both no number.
fn same(got: f64, want: f64) -> bool {
    got.to_bits() == want.to_bits() || (got.is_nan() && want.is_nan())
}

fn almost_eq(a: f64, b: f64, precision: f64) -> bool {
    (a - b).abs() <= precision
}

/// The four sums in hardware arithmetic, step by step.
struct Reference {
    n: u64,
    mean: f64,
    sum_2: f64,
    sum_3: f64,
    sum_4: f64,
}

impl Reference {
    fn new() -> Reference {
        Reference { n: 0, mean: 0., sum_2: 0., sum_3: 0., sum_4: 0. }
    }

    fn add(&mut self, x: f64) {
        let delta = x - self.mean;
        self.n += 1;
        let n = self.n as f64;
        let delta_n = delta / n;
        let term = delta * delta_n * (n - 1.);
        let delta_n_sq = delta_n * delta_n;
        self.sum_4 += term * delta_n_sq * (n * n - 3. * n + 3.) + 6. * delta_n_sq * self.sum_2
            - 4. * delta_n * self.sum_3;
        self.sum_3 += term * delta_n * (n - 2.) - 3. * delta_n * self.sum_2;
        self.sum_2 += term;
        self.mean += delta_n;
    }

    fn kurtosis(&self) -> f64 {
        if self.sum_4 == 0. {
            return 0.;
        }
        let n = self.n as f64;
        n * self.sum_4 / (self.sum_2 * self.sum_2) - 3.
    }

    fn skewness(&self) -> f64 {
        if self.n < 2 || self.sum_2 == 0. {
            return 0.;
        }
        let n = self.n as f64;
        n.sqrt() * self.sum_3 / (self.sum_2 * self.sum_2 * self.sum_2).sqrt()
    }
}

fn next(state: &mut u64) -> u64 {
    *state = state.wrapping_mul(6364136223846793005).wrapping_add(1442695040888963407);
    *state >> 11
}

#[test]
fn kurtosis_of_an_empty_sample_reads_zero() {
    let a = Kurtosis::new();
    assert!(a.is_empty());
    assert_eq!(a.len(), 0);
    assert_eq!(a.mean().to_bits(), 0);
    assert_eq!(a.sample_variance().to_bits(), 0);
    assert_eq!(a.population_variance().to_bits(), 0);
    assert_eq!(a.error_mean().to_bits(), 0);
    assert_eq!(a.skewness().to_bits(), 0);
    assert_eq!(a.kurtosis().to_bits(), 0);
}

#[test]
fn kurtosis_of_one_observation_reads_zero() {
    let mut a = Kurtosis::new();
    a.add(b(-7.5));
    assert!(!a.is_empty());
    assert_eq!(a.len(), 1);
    assert_eq!(f(a.mean()), -7.5);
    assert_eq!(f(a.sample_variance()), 0.0);
    assert_eq!(f(a.population_variance()), 0.0);
    assert_eq!(f(a.error_mean()), 0.0);
    assert_eq!(f(a.skewness()), 0.0);
    assert_eq!(f(a.kurtosis()), 0.0);
}

#[test]
fn kurtosis_trivial() {
    let mut a = Kurtosis::new();
    a.add(b(1.0));
    a.add(b(1.0));
    assert_eq!(f(a.mean()), 1.0);
    assert_eq!(a.len(), 2);
    assert_eq!(f(a.sample_variance()), 0.0);
    assert_eq!(f(a.population_variance()), 0.0);
    assert_eq!(f(a.error_mean()), 0.0);
    assert_eq!(f(a.skewness()), 0.0);
    assert_eq!(f(a.kurtosis()), 0.0);
}

#[test]
fn kurtosis_simple() {
    let a = collect(&[1., 2., 3., 4., 5.]);
    assert_eq!(f(a.mean()), 3.0);
    assert_eq!(a.len(), 5);
    assert_eq!(f(a.sample_variance()), 2.5);
    assert_eq!(f(a.population_variance()), 2.0);
    assert!(almost_eq(f(a.error_mean()), f64::sqrt(0.5), 1e-16));
    assert_eq!(f(a.skewness()), 0.0);
    // sum of fourth powers 34, sum of squares 10: 5 * 34 / 100 - 3
    assert!(almost_eq(f(a.kurtosis()), -1.3, 1e-14));
}

#[test]
fn kurtosis_of_a_constant_sequence_is_zero() {
    for x in [0.0, -0.0, 1.0, -2.5, 1e100, 3e-320, 0.1] {
        let values = vec![x; 17];
        let a = collect(&values);
        assert_eq!(a.len(), 17);
        assert_eq!(f(a.mean()), x);
        assert_eq!(f(a.sample_variance()), 0.0);
        assert_eq!(f(a.population_variance()), 0.0);
        assert_eq!(f(a.error_mean()), 0.0);
        assert_eq!(f(a.skewness()), 0.0);
        assert_eq!(f(a.kurtosis()), 0.0);
    }
}

#[test]
fn kurtosis_len_counts_the_observations() {
    let mut a = Kurtosis::new();
    let mut state = 3u64;
    for i in 0..300u64 {
        assert_eq!(a.len(), i);
        a.add(b((next(&mut state) % 1000) as f64 / 8.0));
    }
    assert_eq!(a.len(), 300);
}

#[test]
fn kurtosis_mean_is_the_arithmetic_mean() {
    let mut state = 11u64;
    let values: Vec<f64> = (0..200).map(|_| (next(&mut state) % 100000) as f64 / 64.0 - 500.0).collect();
    let a = collect(&values);
    let want = values.iter().sum::<f64>() / 200.0;
    assert!(almost_eq(f(a.mean()), want, 1e-14));
}

#[test]
fn kurtosis_sums_follow_the_update_formula() {
    let mut state = 1u64;
    let mut a = Kurtosis::new();
    let mut r = Reference::new();
    for _ in 0..500 {
        let x = (next(&mut state) % (1 << 40)) as f64 / 1048576.0 - 400000.0;
        a.add(b(x));
        r.add(x);
        assert_eq!(a.len(), r.n);
        assert_eq!(f(a.mean()).to_bits(), r.mean.to_bits());
        assert_eq!(f(a.population_variance()).to_bits(), (r.sum_2 / r.n as f64).to_bits());
        assert_eq!(f(a.skewness()).to_bits(), r.skewness().to_bits());
        assert_eq!(f(a.kurtosis()).to_bits(), r.kurtosis().to_bits());
    }
}

#[test]
fn kurtosis_merge_of_split_halves() {
    let sequence: &[f64] = &[1., 2., 3., -4., 5., 6., 7., 8., 9., 1.];
    for mid in 0..=sequence.len() {
        let (left, right) = sequence.split_at(mid);
        let total = collect(sequence);
        let mut merged = collect(left);
        merged.merge(&collect(right));
        assert_eq!(total.len(), merged.len());
        assert!(almost_eq(f(total.mean()), f(merged.mean()), 1e-14));
        assert!(almost_eq(f(total.sample_variance()), f(merged.sample_variance()), 1e-14));
        assert!(almost_eq(f(total.skewness()), f(merged.skewness()), 1e-14));
        assert!(almost_eq(f(total.kurtosis()), f(merged.kurtosis()), 1e-14));
    }
}

#[test]
fn kurtosis_merge_in_either_order() {
    let left = [1., 2., 3., -4., 5.];
    let right = [6., 7., 8.];
    let mut ab = collect(&left);
    ab.merge(&collect(&right));
    let mut ba = collect(&right);
    ba.merge(&collect(&left));
    assert_eq!(ab.len(), ba.len());
    assert!(almost_eq(f(ab.mean()), f(ba.mean()), 1e-14));
    assert!(almost_eq(f(ab.sample_variance()), f(ba.sample_variance()), 1e-14));
    assert!(almost_eq(f(ab.skewness()), f(ba.skewness()), 1e-13));
    assert!(almost_eq(f(ab.kurtosis()), f(ba.kurtosis()), 1e-13));
}

#[test]
fn kurtosis_merge_with_an_empty_sample() {
    let full = collect(&[1., 2., 3., -4., 5.]);
    let mut a = collect(&[1., 2., 3., -4., 5.]);
    a.merge(&Kurtosis::new());
    assert_eq!(a.len(), 5);
    assert_eq!(f(a.mean()), f(full.mean()));
    assert_eq!(f(a.sample_variance()), f(full.sample_variance()));
    assert_eq!(f(a.skewness()), f(full.skewness()));
    assert_eq!(f(a.kurtosis()), f(full.kurtosis()));
    let mut e = Kurtosis::new();
    e.merge(&full);
    assert_eq!(e.len(), 5);
    assert_eq!(f(e.mean()), f(full.mean()));
    assert_eq!(f(e.kurtosis()), f(full.kurtosis()));
    let mut z = Kurtosis::new();
    z.merge(&Kurtosis::new());
    assert!(z.is_empty());
    assert_eq!(z.kurtosis().to_bits(), 0);
    assert_eq!(z.mean().to_bits(), 0);
}

#[test]
fn kurtosis_merge_follows_the_formula() {
    let left = [1.5, 2.0, -3.0, 10.0];
    let right = [0.25, 4.0, 4.5];
    let mut l = Reference::new();
    for x in left.iter() {
        l.add(*x);
    }
    let mut r = Reference::new();
    for x in right.iter() {
        r.add(*x);
    }
    let (n, m) = (4.0f64, 3.0f64);
    let delta = r.mean - l.mean;
    let delta_n = delta / (n + m);
    let delta_n_sq = delta_n * delta_n;
    let sum_4 = l.sum_4
        + (r.sum_4
            + delta * delta_n * delta_n_sq * n * m * (n * n - n * m + m * m)
            + 6. * delta_n_sq * (n * n * r.sum_2 + m * m * l.sum_2)
            + 4. * delta_n * (n * r.sum_3 - m * l.sum_3));
    let sum_2 = l.sum_2 + (r.sum_2 + delta * delta * n * m / (n + m));
    let want = 7.0 * sum_4 / (sum_2 * sum_2) - 3.;
    let mut merged = collect(&left);
    merged.merge(&collect(&right));
    assert_eq!(f(merged.kurtosis()).to_bits(), want.to_bits());
    assert_eq!(f(merged.population_variance()).to_bits(), (sum_2 / 7.0).to_bits());
}

#[test]
fn kurtosis_carries_a_nan_along() {
    let mut a = collect(&[1., 2.]);
    a.add(b(f64::NAN));
    assert_eq!(a.len(), 3);
    assert!(a.mean().is_nan());
    assert!(a.sample_variance().is_nan());
    assert!(a.kurtosis().is_nan());
}

#[test]
fn kurtosis_of_huge_constants_follows_the_hardware() {
    // the square of 1e200 is not finite, and times zero it is no number
    for x in [1e200, -1e200, 1.2e154, 1.4e154, 5e153, 6e153, f64::INFINITY, f64::MAX] {
        let mut a = Kurtosis::new();
        let mut r = Reference::new();
        for _ in 0..3 {
            a.add(b(x));
            r.add(x);
            assert!(same(f(a.mean()), r.mean));
            assert!(same(f(a.population_variance()), r.sum_2 / r.n as f64));
            assert!(same(f(a.skewness()), r.skewness()));
            assert!(same(f(a.kurtosis()), r.kurtosis()));
        }
    }
    let mut a = Kurtosis::new();
    a.add(b(1e200));
    assert!(a.sample_variance().to_bits() == 0);
    assert!(a.population_variance().is_nan());
    assert!(a.kurtosis().is_nan());
}

#[test]
fn kurtosis_merge_of_an_empty_sample_keeps_the_bits() {
    let values = [0.5, 1.0e10, -3.25, 7.0, 7.0, 1e-3];
    let full = collect(&values);
    let mut a = collect(&values);
    a.merge(&Kurtosis::new());
    assert_eq!(a.len(), full.len());
    assert_eq!(a.mean().to_bits(), full.mean().to_bits());
    assert_eq!(a.population_variance().to_bits(), full.population_variance().to_bits());
    assert_eq!(a.skewness().to_bits(), full.skewness().to_bits());
    assert_eq!(a.kurtosis().to_bits(), full.kurtosis().to_bits());
}

#[test]
fn kurtosis_merge_with_an_empty_side_and_a_huge_mean() {
    // the fourth power of the mean is not finite: the formula is not to run
    for x in [1e80, 1e150, f64::from_bits(0x52b0_0000_0000_0000)] {
        let full = collect(&[x, x]);
        let mut a = collect(&[x, x]);
        assert_eq!(f(a.kurtosis()), 0.0);
        a.merge(&Kurtosis::new());
        assert_eq!(a.len(), 2);
        assert_eq!(f(a.mean()), x);
        assert_eq!(f(a.sample_variance()), 0.0);
        assert_eq!(f(a.skewness()), 0.0);
        assert_eq!(f(a.kurtosis()), 0.0);
        let mut e = Kurtosis::new();
        e.merge(&full);
        assert_eq!(e.len(), 2);
        assert_eq!(f(e.mean()), x);
        assert_eq!(f(e.sample_variance()), 0.0);
        assert_eq!(f(e.skewness()), 0.0);
        assert_eq!(f(e.kurtosis()), 0.0);
    }
    let one = collect(&[f64::from_bits(0x52b0_0000_0000_0000)]);
    let mut e = Kurtosis::new();
    e.merge(&one);
    assert_eq!(e.len(), 1);
    assert_eq!(e.mean().to_bits(), 0x52b0_0000_0000_0000);
    assert_eq!(f(e.kurtosis()), 0.0);
    let mut a = collect(&[f64::from_bits(0x52b0_0000_0000_0000)]);
    a.merge(&Kurtosis::new());
    assert_eq!(a.len(), 1);
    assert_eq!(a.mean().to_bits(), 0x52b0_0000_0000_0000);
    assert_eq!(f(a.kurtosis()), 0.0);
}

#[test]
fn kurtosis_merge_with_an_empty_side_keeps_what_is_no_number() {
    let mut a = collect(&[1.0, f64::INFINITY, 2.0]);
    let before = (a.len(), a.mean().to_bits(), a.population_variance().to_bits(), a.kurtosis().to_bits());
    a.merge(&Kurtosis::new());
    assert_eq!((a.len(), a.mean().to_bits(), a.population_variance().to_bits(), a.kurtosis().to_bits()), before);
    let mut e = Kurtosis::new();
    e.merge(&a);
    assert_eq!((e.len(), e.mean().to_bits(), e.population_variance().to_bits(), e.kurtosis().to_bits()), before);
}
