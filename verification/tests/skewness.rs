use average::{Binary64, Skewness};

fn b(x: f64) -> Binary64 {
    Binary64::from_bits(x.to_bits())
}

fn f(x: Binary64) -> f64 {
    f64::from_bits(x.to_bits())
}

fn collect(values: &[f64]) -> Skewness {
    let bits: Vec<Binary64> = values.iter().map(|x| b(*x)).collect();
    Skewness::from_slice(&bits)
}

fn almost_eq(a: f64, b: f64, precision: f64) -> bool {
    (a - b).abs() <= precision
}

#[test]
fn trivial() {
    let mut a = Skewness::new();
    assert_eq!(a.len(), 0);
    a.add(b(1.0));
    assert_eq!(f(a.mean()), 1.0);
    assert_eq!(a.len(), 1);
    assert_eq!(f(a.sample_variance()), 0.0);
    assert_eq!(f(a.population_variance()), 0.0);
    assert_eq!(f(a.error_mean()), 0.0);
    assert_eq!(f(a.skewness()), 0.0);
    a.add(b(1.0));
    assert_eq!(f(a.mean()), 1.0);
    assert_eq!(a.len(), 2);
    assert_eq!(f(a.sample_variance()), 0.0);
    assert_eq!(f(a.population_variance()), 0.0);
    assert_eq!(f(a.error_mean()), 0.0);
    assert_eq!(f(a.skewness()), 0.0);
}

#[test]
fn simple() {
    let values: Vec<f64> = (1..6).map(f64::from).collect();
    let mut a = collect(&values);
    assert_eq!(f(a.mean()), 3.0);
    assert_eq!(a.len(), 5);
    assert_eq!(f(a.sample_variance()), 2.5);
    assert!(almost_eq(f(a.error_mean()), f64::sqrt(0.5), 1e-16));
    assert_eq!(f(a.skewness()), 0.0);
    a.add(b(1.0));
    assert!(almost_eq(f(a.skewness()), 0.2795084971874741, 1e-15));
}

#[test]
fn merge() {
    let sequence: &[f64] = &[1., 2., 3., -4., 5., 6., 7., 8., 9., 1.];
    for mid in 0..sequence.len() {
        let (left, right) = sequence.split_at(mid);
        let avg_total = collect(sequence);
        let mut avg_left = collect(left);
        let avg_right = collect(right);
        avg_left.merge(&avg_right);
        assert_eq!(avg_total.len(), avg_left.len());
        assert!(almost_eq(f(avg_total.mean()), f(avg_left.mean()), 1e-14));
        assert!(almost_eq(f(avg_total.sample_variance()), f(avg_left.sample_variance()), 1e-14));
        assert!(almost_eq(f(avg_total.skewness()), f(avg_left.skewness()), 1e-14));
    }
}

#[test]
fn skewness_after_one_more_observation() {
    let mut a = collect(&[1., 2., 3., 4., 5.]);
    a.add(b(1.0));
    assert_eq!(a.len(), 6);
    assert!(almost_eq(f(a.mean()), 3.0 - 1.0 / 3.0, 1e-15));
    assert!(almost_eq(f(a.skewness()), 0.2795084971874741, 1e-15));
}

#[test]
fn skewness_sums_follow_the_update_formula() {
    let values = [2.5, -1.0, 7.25, 0.125, 3.0, 3.0, -8.5];
    let mut a = Skewness::new();
    let (mut n, mut mean, mut sum_2, mut sum_3) = (0u64, 0.0f64, 0.0f64, 0.0f64);
    for x in values.iter() {
        a.add(b(*x));
        let delta = x - mean;
        n += 1;
        let nf = n as f64;
        let delta_n = delta / nf;
        let term = delta * delta_n * (nf - 1.);
        sum_3 += term * delta_n * (nf - 2.) - 3. * delta_n * sum_2;
        sum_2 += term;
        mean += delta_n;
        assert_eq!(a.len(), n);
        assert_eq!(f(a.mean()).to_bits(), mean.to_bits());
        assert_eq!(f(a.population_variance()).to_bits(), (sum_2 / nf).to_bits());
        if n >= 2 {
            assert_eq!(f(a.sample_variance()).to_bits(), (sum_2 / (nf - 1.)).to_bits());
            let want = nf.sqrt() * sum_3 / (sum_2 * sum_2 * sum_2).sqrt();
            assert_eq!(f(a.skewness()).to_bits(), want.to_bits());
            assert_eq!(f(a.error_mean()).to_bits(), (sum_2 / (nf - 1.) / nf).sqrt().to_bits());
        }
    }
}

#[test]
fn skewness_merge_with_an_empty_side_takes_the_other() {
    let full = collect(&[1., 2., 4., 8.]);
    let mut a = collect(&[1., 2., 4., 8.]);
    a.merge(&Skewness::new());
    assert_eq!(a.len(), 4);
    assert_eq!(a.mean().to_bits(), full.mean().to_bits());
    assert_eq!(a.sample_variance().to_bits(), full.sample_variance().to_bits());
    assert_eq!(a.skewness().to_bits(), full.skewness().to_bits());
    let mut e = Skewness::new();
    e.merge(&full);
    assert_eq!(e.len(), 4);
    assert_eq!(e.mean().to_bits(), full.mean().to_bits());
    assert_eq!(e.sample_variance().to_bits(), full.sample_variance().to_bits());
    assert_eq!(e.skewness().to_bits(), full.skewness().to_bits());
    let mut z = Skewness::new();
    z.merge(&Skewness::new());
    assert!(z.is_empty());
    assert_eq!(f(z.mean()), 0.0);
    assert_eq!(f(z.skewness()), 0.0);
}

#[test]
fn skewness_merge_follows_the_formula() {
    let left = [1.5, 2.0, -3.0, 10.0];
    let right = [0.25, 4.0, 4.5];
    let l = collect(&left);
    let r = collect(&right);
    let mut merged = collect(&left);
    merged.merge(&r);
    let all = collect(&[1.5, 2.0, -3.0, 10.0, 0.25, 4.0, 4.5]);
    assert_eq!(merged.len(), 7);
    assert!(almost_eq(f(merged.mean()), f(all.mean()), 1e-14));
    assert!(almost_eq(f(merged.population_variance()), f(all.population_variance()), 1e-14));
    assert!(almost_eq(f(merged.skewness()), f(all.skewness()), 1e-13));
    // the mean moves by delta * m / (n + m)
    let delta = f(r.mean()) - f(l.mean());
    let want = f(l.mean()) + delta * 3.0 / (4.0 + 3.0);
    assert_eq!(f(merged.mean()).to_bits(), want.to_bits());
}
