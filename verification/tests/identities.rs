use polyfit::arith::{from_count, is_larger, minus, negate, over, plus, times, equals_zero};

const SAMPLES: [f64; 12] = [
    1.0,
    -1.0,
    0.1,
    -2.5,
    3.0e10,
    7.0e-200,
    5e-324,
    1.7976931348623157e308,
    -1.7976931348623157e308,
    123456789.125,
    0.3333333333333333,
    2.2250738585072014e-308,
];

#[test]
fn one_is_the_unit_of_products() {
    let one = 1.0f64.to_bits();
    for x in SAMPLES {
        assert_eq!(times(one, x.to_bits()), x.to_bits());
        assert_eq!(times(x.to_bits(), one), x.to_bits());
    }
    assert_eq!(times(one, f64::INFINITY.to_bits()), f64::INFINITY.to_bits());
    assert_eq!(times(one, (-0.0f64).to_bits()), (-0.0f64).to_bits());
}

#[test]
fn products_do_not_depend_on_the_order() {
    for x in SAMPLES {
        for y in SAMPLES {
            assert_eq!(times(x.to_bits(), y.to_bits()), times(y.to_bits(), x.to_bits()));
        }
    }
}

#[test]
fn zeros_leave_sums_alone() {
    for x in SAMPLES {
        for z in [0.0f64, -0.0] {
            assert_eq!(plus(x.to_bits(), z.to_bits()), x.to_bits());
            assert_eq!(plus(z.to_bits(), x.to_bits()), x.to_bits());
        }
        assert_eq!(minus(x.to_bits(), 0), x.to_bits());
    }
    assert_eq!(minus(0, 0), 0);
    assert_eq!(plus(0, 0x8000_0000_0000_0000), 0);
    assert_eq!(plus(0x8000_0000_0000_0000, 0x8000_0000_0000_0000), 0x8000_0000_0000_0000);
}

#[test]
fn zero_times_a_number_is_a_signed_zero() {
    for x in SAMPLES {
        let expected = if x < 0.0 { (-0.0f64).to_bits() } else { 0 };
        assert_eq!(times(0, x.to_bits()), expected);
        assert!(equals_zero(times(x.to_bits(), 0)));
    }
    assert!(f64::from_bits(times(0, f64::INFINITY.to_bits())).is_nan());
}

#[test]
fn a_number_over_itself_is_one() {
    for x in SAMPLES {
        assert_eq!(over(x.to_bits(), x.to_bits()), 1.0f64.to_bits());
        let positive = x.abs().to_bits();
        assert_eq!(over(0, positive), 0);
    }
    assert!(f64::from_bits(over(0, 0)).is_nan());
}

#[test]
fn smaller_over_larger_is_at_most_one() {
    for n in [1u64, 2, 3, 10, 1000, 1 << 53, (1 << 53) + 1, u64::MAX] {
        for i in [0u64, 1, n / 2, n - 1, n] {
            let q = f64::from_bits(over(from_count(i), from_count(n)));
            assert!(0.0 <= q && q <= 1.0, "{} / {}", i, n);
        }
    }
}

#[test]
fn counts_convert_in_order() {
    let counts = [0u64, 1, 2, 3, (1 << 53) - 1, 1 << 53, (1 << 53) + 1, (1 << 53) + 2, u64::MAX];
    for pair in counts.windows(2) {
        assert!(from_count(pair[0]) <= from_count(pair[1]));
    }
    assert_eq!(from_count(0), 0);
    assert!(from_count(1) >= 1.0f64.to_bits());
    assert_eq!(from_count((1 << 53) + 1), 9007199254740992.0f64.to_bits());
    assert_eq!(from_count((1 << 53) + 3), 9007199254740996.0f64.to_bits());
}

#[test]
fn negation_flips_the_sign_only() {
    for x in SAMPLES {
        assert_eq!(negate(x.to_bits()), (-x).to_bits());
    }
    assert_eq!(negate(0), 0x8000_0000_0000_0000);
}

#[test]
fn nothing_is_larger_than_a_nan_and_a_nan_is_larger_than_nothing() {
    let nan = f64::NAN.to_bits();
    for x in SAMPLES {
        assert!(!is_larger(nan, x.to_bits()));
        assert!(!is_larger(x.to_bits(), nan));
    }
    assert!(is_larger(f64::INFINITY.to_bits(), 1.0f64.to_bits()));
    assert!(!is_larger(1.0f64.to_bits(), (-1.0f64).to_bits()));
    assert!(is_larger((-2.0f64).to_bits(), 1.0f64.to_bits()));
}

#[test]
fn results_that_are_no_numbers_have_one_encoding() {
    let nan = 0x7ff8_0000_0000_0000u64;
    let inf = f64::INFINITY.to_bits();
    let odd_nan = 0xfff0_0000_0000_0001u64;
    assert_eq!(plus(inf, negate(inf)), nan);
    assert_eq!(times(0, inf), nan);
    assert_eq!(over(0, 0), nan);
    assert_eq!(over(inf, inf), nan);
    assert_eq!(plus(odd_nan, 1.0f64.to_bits()), nan);
    assert_eq!(times(1.0f64.to_bits(), odd_nan), nan);
    assert_eq!(over(odd_nan, 1.0f64.to_bits()), nan);
}

#[test]
fn sums_round_ties_to_even() {
    // 2^53 + 1 lies halfway between two numbers; the even one is taken.
    let big = 9007199254740992.0f64.to_bits();
    assert_eq!(plus(big, 1.0f64.to_bits()), big);
    assert_eq!(plus(plus(big, 2.0f64.to_bits()), 1.0f64.to_bits()), 9007199254740996.0f64.to_bits());
    // One third is rounded, not cut.
    assert_eq!(over(1.0f64.to_bits(), 3.0f64.to_bits()), 0x3fd5_5555_5555_5555);
    assert_eq!(over(2.0f64.to_bits(), 3.0f64.to_bits()), 0x3fe5_5555_5555_5555);
    // Overflow goes to infinity.
    let max = f64::MAX.to_bits();
    assert_eq!(times(max, 2.0f64.to_bits()), f64::INFINITY.to_bits());
    assert_eq!(plus(max, max), f64::INFINITY.to_bits());
    // Underflow goes through the subnormal numbers to zero.
    assert_eq!(over(1, 2.0f64.to_bits()), 0);
    assert_eq!(over(3, 2.0f64.to_bits()), 2);
    assert_eq!(times(1, 0.75f64.to_bits()), 1);
}
