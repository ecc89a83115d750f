use sidecar_proxy::binary64::Binary64;

fn b(x: f64) -> Binary64 {
    Binary64::from_bits(x.to_bits())
}

fn f(x: Binary64) -> f64 {
    f64::from_bits(x.to_bits())
}

/// Numbers of all sizes, signs and kinds.
fn samples() -> Vec<f64> {
    let mut all = vec![
        0.0,
        -0.0,
        1.0,
        -1.0,
        0.1,
        0.5,
        1.5,
        2.5,
        3.0,
        10.0,
        100.0,
        1e9,
        1e-9,
        9007199254740991.0,
        9007199254740992.0,
        9007199254740993.0,
        18446744073709551615.0,
        18446744073709549568.0,
        f64::MAX,
        f64::MIN,
        f64::MIN_POSITIVE,
        f64::EPSILON,
        5e-324,
        -5e-324,
        2.2250738585072009e-308,
        f64::INFINITY,
        f64::NEG_INFINITY,
        f64::NAN,
    ];
    let mut state: u64 = 0x9E37_79B9_7F4A_7C15;
    for i in 0..260u64 {
        state ^= state << 13;
        state ^= state >> 7;
        state ^= state << 17;
        let x = if i % 3 == 0 {
            f64::from_bits(state)
        } else if i % 3 == 1 {
            (state % 100_000) as f64 / 7.0
        } else {
            f64::from_bits((state & 0x800F_FFFF_FFFF_FFFF) | ((1000 + state % 50) << 52))
        };
        all.push(x);
    }
    all
}

fn same(got: Binary64, expected: f64) -> bool {
    if expected.is_nan() {
        got.is_nan()
    } else {
        got.to_bits() == expected.to_bits()
    }
}

#[test]
fn arithmetic_is_that_of_the_machine() {
    let all = samples();
    for x in &all {
        for y in &all {
            let (x, y) = (*x, *y);
            assert!(same(b(x).plus(b(y)), x + y), "{:e} + {:e}", x, y);
            assert!(same(b(x).minus(b(y)), x - y), "{:e} - {:e}", x, y);
            assert!(same(b(x).times(b(y)), x * y), "{:e} * {:e}", x, y);
            assert!(same(b(x).over(b(y)), x / y), "{:e} / {:e}", x, y);
            assert_eq!(b(x).greater_than(b(y)), x > y);
            assert_eq!(b(x).at_least(b(y)), x >= y);
            assert_eq!(b(x).equals(b(y)), x == y);
            if x != y {
                assert!(same(b(x).min(b(y)), x.min(y)));
            }
        }
    }
}

#[test]
fn roots_signs_and_whole_parts_are_those_of_the_machine() {
    for x in samples() {
        assert!(same(b(x).sqrt(), x.sqrt()), "sqrt {:e}", x);
        assert_eq!(b(x).to_u64(), x as u64, "{:e}", x);
        assert_eq!(b(x).is_nan(), x.is_nan());
        if !x.is_nan() {
            assert!(same(b(x).abs(), x.abs()));
            assert!(same(b(x).negate(), -x));
        }
    }
}

#[test]
fn whole_numbers_become_the_nearest_double() {
    let mut state: u64 = 88172645463325252;
    for shift in 0..64 {
        for _ in 0..20 {
            state ^= state << 13;
            state ^= state >> 7;
            state ^= state << 17;
            let n = state >> shift;
            assert_eq!(f(Binary64::from_u64(n)), n as f64);
        }
    }
    assert_eq!(f(Binary64::from_u64(u64::MAX)), u64::MAX as f64);
    assert_eq!(Binary64::from_u64(0).to_bits(), 0);
}

#[test]
fn whole_powers_multiply() {
    assert_eq!(f(b(2.0).powi(0)), 1.0);
    assert_eq!(f(b(2.0).powi(10)), 1024.0);
    assert_eq!(f(b(2.0).powi(-2)), 0.25);
    assert_eq!(f(b(10.0).powi(5)), 100000.0);
    assert_eq!(f(b(1.5).powi(3)), 3.375);
    assert_eq!(f(b(-3.0).powi(3)), -27.0);
    assert_eq!(f(b(2.0).powi(5000)), f64::INFINITY);
    assert_eq!(f(b(2.0).powi(-5000)), 0.0);
}

#[test]
fn whole_numbers_count_down() {
    let one = b(1.0);
    let mut x = Binary64::from_u64(2000);
    for n in (0..2000u64).rev() {
        x = x.minus(one);
        assert_eq!(x.to_bits(), Binary64::from_u64(n).to_bits());
        assert_eq!(x.to_u64(), n);
    }
}
