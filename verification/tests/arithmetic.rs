use average::Binary64;

fn b(x: f64) -> Binary64 {
    Binary64::from_bits(x.to_bits())
}

fn same(got: Binary64, want: f64) -> bool {
    if want.is_nan() {
        got.is_nan()
    } else {
        got.to_bits() == want.to_bits()
    }
}

fn next(state: &mut u64) -> u64 {
    *state = state.wrapping_mul(6364136223846793005).wrapping_add(1442695040888963407);
    let mut x = *state;
    x ^= x >> 33;
    x = x.wrapping_mul(0xff51afd7ed558ccd);
    x ^= x >> 29;
    x
}

/// A number whose exponent lies in a band of the given width round that of 1.0,
/// so that sums cancel and quotients stay finite often enough.
fn banded(state: &mut u64, width: u64) -> f64 {
    let r = next(state);
    let sign = r & 0x8000_0000_0000_0000;
    let fraction = next(state) & 0x000f_ffff_ffff_ffff;
    let exponent = 1023 - width / 2 + next(state) % (width + 1);
    f64::from_bits(sign | (exponent << 52) | fraction)
}

fn special_values() -> Vec<f64> {
    vec![
        0.0,
        -0.0,
        1.0,
        -1.0,
        2.0,
        3.0,
        0.5,
        1.5,
        0.1,
        1e-310,
        -1e-310,
        5e-324,
        -5e-324,
        2.2250738585072014e-308,
        2.225073858507201e-308,
        1.7976931348623157e308,
        -1.7976931348623157e308,
        8.98846567431158e307,
        1e154,
        1e-154,
        1e200,
        1e-200,
        9007199254740992.0,
        9007199254740993.0,
        4503599627370496.5,
        1.0000000000000002,
        0.9999999999999999,
        f64::INFINITY,
        f64::NEG_INFINITY,
        f64::NAN,
    ]
}

fn check_pair(x: f64, y: f64) {
    assert!(same(b(x).add(b(y)), x + y), "{:e} + {:e}", x, y);
    assert!(same(b(x).sub(b(y)), x - y), "{:e} - {:e}", x, y);
    assert!(same(b(x).mul(b(y)), x * y), "{:e} * {:e}", x, y);
    assert!(same(b(x).div(b(y)), x / y), "{:e} / {:e}", x, y);
}

#[test]
fn operations_agree_with_hardware_on_special_values() {
    let values = special_values();
    for x in values.iter() {
        assert!(same(b(*x).sqrt(), x.sqrt()), "sqrt {:e}", x);
        for y in values.iter() {
            check_pair(*x, *y);
        }
    }
}

#[test]
fn operations_agree_with_hardware_on_arbitrary_bits() {
    let mut state: u64 = 0x1234_5678_9abc_def0;
    for _ in 0..20000 {
        let x = f64::from_bits(next(&mut state));
        let y = f64::from_bits(next(&mut state));
        check_pair(x, y);
        assert!(same(b(x).sqrt(), x.sqrt()), "sqrt {:e}", x);
    }
}

#[test]
fn operations_agree_with_hardware_on_close_exponents() {
    let mut state: u64 = 42;
    for _ in 0..20000 {
        let x = banded(&mut state, 8);
        let y = banded(&mut state, 8);
        check_pair(x, y);
        assert!(same(b(x).sqrt(), x.sqrt()), "sqrt {:e}", x);
    }
    for _ in 0..20000 {
        let x = banded(&mut state, 140);
        let y = banded(&mut state, 140);
        check_pair(x, y);
    }
}

#[test]
fn operations_agree_with_hardware_on_subnormals() {
    let mut state: u64 = 7;
    for _ in 0..20000 {
        let x = f64::from_bits(next(&mut state) & 0x803f_ffff_ffff_ffff);
        let y = f64::from_bits(next(&mut state) & 0x803f_ffff_ffff_ffff);
        check_pair(x, y);
        assert!(same(b(x).sqrt(), x.sqrt()), "sqrt {:e}", x);
        let z = banded(&mut state, 2000);
        check_pair(x, z);
        check_pair(z, y);
    }
}

#[test]
fn products_and_quotients_across_the_whole_range() {
    let mut state: u64 = 99;
    for _ in 0..20000 {
        let x = banded(&mut state, 2040);
        let y = banded(&mut state, 2040);
        check_pair(x, y);
    }
}

#[test]
fn perfect_squares_have_exact_roots() {
    for i in 0..2000u64 {
        let x = (i * i) as f64;
        assert_eq!(b(x).sqrt().to_bits(), (i as f64).to_bits());
    }
    assert_eq!(b(2.0).sqrt().to_bits(), 2.0f64.sqrt().to_bits());
    assert_eq!(b(0.5).sqrt().to_bits(), 0.5f64.sqrt().to_bits());
    assert_eq!(b(-0.0).sqrt().to_bits(), (-0.0f64).to_bits());
    assert!(b(-1.0).sqrt().is_nan());
}

#[test]
fn integers_convert_as_a_cast_does() {
    let mut state: u64 = 5;
    for n in [0u64, 1, 2, 3, 5, 1 << 52, (1 << 53) - 1, 1 << 53, (1 << 53) + 1, (1 << 53) + 2, (1 << 53) + 3, u64::MAX, u64::MAX - 1, 1 << 63, (1 << 63) + 1024, (1 << 63) + 1025] {
        assert_eq!(Binary64::from_u64(n).to_bits(), (n as f64).to_bits(), "{}", n);
    }
    for _ in 0..20000 {
        let n = next(&mut state) >> (next(&mut state) % 64);
        assert_eq!(Binary64::from_u64(n).to_bits(), (n as f64).to_bits(), "{}", n);
    }
}

#[test]
fn classification_reads_the_fields() {
    assert!(b(f64::NAN).is_nan());
    assert!(!b(f64::INFINITY).is_nan());
    assert!(b(f64::INFINITY).is_infinite());
    assert!(b(f64::NEG_INFINITY).is_infinite());
    assert!(!b(1.0).is_infinite());
    assert!(b(1.0).is_finite());
    assert!(b(5e-324).is_finite());
    assert!(!b(f64::NAN).is_finite());
    assert!(b(0.0).is_zero());
    assert!(b(-0.0).is_zero());
    assert!(!b(5e-324).is_zero());
    assert!(b(-0.0).is_sign_negative());
    assert!(!b(0.0).is_sign_negative());
    assert_eq!(b(1.5).neg().to_bits(), (-1.5f64).to_bits());
    assert_eq!(b(-0.0).neg().to_bits(), 0.0f64.to_bits());
    assert_eq!(b(1.0).decode(), (1u64 << 52, -52));
    assert_eq!(b(5e-324).decode(), (1u64, -1074));
    assert_eq!(b(5e-324).normalize(), (1u64 << 52, -1126));
}
