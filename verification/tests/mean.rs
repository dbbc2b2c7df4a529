use average::{Binary64, Mean, Variance};

fn b(x: f64) -> Binary64 {
    Binary64::from_bits(x.to_bits())
}

fn f(x: Binary64) -> f64 {
    f64::from_bits(x.to_bits())
}

#[test]
fn mean_of_an_empty_sample_reads_zero() {
    let a = Mean::new();
    assert!(a.is_empty());
    assert_eq!(a.len(), 0);
    assert_eq!(a.mean().to_bits(), 0);
}

#[test]
fn mean_add_follows_the_formula() {
    let mut a = Mean::new();
    let mut mean = 0.0f64;
    let values = [3.5, 1.25, -9.0, 1e10, 0.1, 0.2, 0.3];
    for (i, x) in values.iter().enumerate() {
        a.add(b(*x));
        mean += (x - mean) / (i as f64 + 1.0);
        assert_eq!(a.len(), i as u64 + 1);
        assert_eq!(f(a.mean()).to_bits(), mean.to_bits());
    }
}

#[test]
fn mean_merge_follows_the_formula() {
    let left: Vec<Binary64> = [1.0, 2.0, 6.0].iter().map(|x| b(*x)).collect();
    let right: Vec<Binary64> = [10.0, 20.5].iter().map(|x| b(*x)).collect();
    let mut l = Mean::from_slice(&left);
    let r = Mean::from_slice(&right);
    let (lm, rm) = (f(l.mean()), f(r.mean()));
    l.merge(&r);
    assert_eq!(l.len(), 5);
    assert_eq!(f(l.mean()).to_bits(), (lm + (rm - lm) * 2.0 / (3.0 + 2.0)).to_bits());
    let mut e = Mean::new();
    e.merge(&Mean::new());
    assert!(e.is_empty());
    assert_eq!(e.mean().to_bits(), 0);
    e.merge(&r);
    assert_eq!(e.len(), 2);
    assert_eq!(f(e.mean()), rm);
}

#[test]
fn variance_queries_follow_the_formulas() {
    let values: Vec<Binary64> = [2.0, 4.0, 4.0, 4.0, 5.0, 5.0, 7.0, 9.0].iter().map(|x| b(*x)).collect();
    let a = Variance::from_slice(&values);
    assert_eq!(a.len(), 8);
    assert_eq!(f(a.mean()), 5.0);
    assert!((f(a.population_variance()) - 4.0).abs() < 1e-14);
    assert!((f(a.sample_variance()) - 32.0 / 7.0).abs() < 1e-14);
    assert!((f(a.error_mean()) - (32.0f64 / 7.0 / 8.0).sqrt()).abs() < 1e-14);
    let sum_2 = f(a.population_variance()) * 8.0;
    assert_eq!(f(a.sample_variance()).to_bits(), (sum_2 / 7.0).to_bits());
    assert_eq!(f(a.error_mean()).to_bits(), (sum_2 / 7.0 / 8.0).sqrt().to_bits());
}

#[test]
fn variance_merge_follows_the_formula() {
    let left: Vec<Binary64> = [1.0, 2.0, 6.0].iter().map(|x| b(*x)).collect();
    let right: Vec<Binary64> = [10.0, 20.5].iter().map(|x| b(*x)).collect();
    let mut l = Variance::from_slice(&left);
    let r = Variance::from_slice(&right);
    let (l2, r2) = (f(l.population_variance()) * 3.0, f(r.population_variance()) * 2.0);
    let delta = f(r.mean()) - f(l.mean());
    l.merge(&r);
    let want = l2 + (r2 + delta * delta * 3.0 * 2.0 / (3.0 + 2.0));
    assert_eq!(l.len(), 5);
    assert_eq!(f(l.population_variance()).to_bits(), (want / 5.0).to_bits());
    let mut e = Variance::new();
    e.merge(&r);
    assert_eq!(e.len(), 2);
    assert_eq!(e.sample_variance().to_bits(), r.sample_variance().to_bits());
    let before = l.sample_variance().to_bits();
    l.merge(&Variance::new());
    assert_eq!(l.len(), 5);
    assert_eq!(l.sample_variance().to_bits(), before);
}

#[test]
fn mean_merge_of_an_empty_sample() {
    let values: Vec<Binary64> = [1.0, 2.0, 6.5].iter().map(|x| b(*x)).collect();
    let mut a = Mean::from_slice(&values);
    let before = a.mean().to_bits();
    a.merge(&Mean::new());
    assert_eq!(a.len(), 3);
    assert_eq!(a.mean().to_bits(), before);
    // an infinite mean stays: the formula is not to run on an empty side
    let mut i = Mean::new();
    i.add(b(f64::INFINITY));
    assert_eq!(f(i.mean()), f64::INFINITY);
    i.merge(&Mean::new());
    assert_eq!(i.len(), 1);
    assert_eq!(f(i.mean()), f64::INFINITY);
    let mut e = Mean::new();
    e.merge(&i);
    assert_eq!(e.len(), 1);
    assert_eq!(f(e.mean()), f64::INFINITY);
    // a mean that the formula would round comes over as it is
    let third: Vec<Binary64> = [0.1, 0.1, 0.1].iter().map(|x| b(*x)).collect();
    let other = Mean::from_slice(&third);
    let mut e = Mean::new();
    e.merge(&other);
    assert_eq!(e.len(), 3);
    assert_eq!(e.mean().to_bits(), other.mean().to_bits());
}

#[test]
fn mean_of_a_constant_sequence_is_the_constant() {
    for x in [0.1, -7.0, 1e300, 5e-324, 0.0] {
        let values = vec![b(x); 50];
        let a = Mean::from_slice(&values);
        assert_eq!(a.len(), 50);
        assert_eq!(f(a.mean()).to_bits(), x.to_bits());
    }
    let negative_zero = vec![b(-0.0); 3];
    assert_eq!(f(Mean::from_slice(&negative_zero).mean()), 0.0);
}
