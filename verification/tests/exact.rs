use jpeg_unround::exact::{try_bernoulli, nearest_from_i128, nearest_from_u64, nearest_from_usize, bernoulli, binomial, factorial, quotient_bits, Ratio};

#[test]
fn rationals_are_kept_in_lowest_terms() {
    let half = Ratio::new(3, 6);
    assert_eq!((half.numerator(), half.denominator()), (1, 2));
    let negative = Ratio::new(4, -6);
    assert_eq!((negative.numerator(), negative.denominator()), (-2, 3));
    assert_eq!(half + negative, Ratio::new(-1, 6));
    assert_eq!(half * negative, Ratio::new(-1, 3));
    assert_eq!(half / negative, Ratio::new(-3, 4));
    assert!(negative < half);
}

#[test]
fn the_bernoulli_numbers() {
    let numbers = bernoulli(23);
    let expected = [
        (1, 1),
        (-1, 2),
        (1, 6),
        (0, 1),
        (-1, 30),
        (0, 1),
        (1, 42),
        (0, 1),
        (-1, 30),
        (0, 1),
        (5, 66),
        (0, 1),
        (-691, 2730),
        (0, 1),
        (7, 6),
        (0, 1),
        (-3617, 510),
        (0, 1),
        (43_867, 798),
        (0, 1),
        (-174_611, 330),
        (0, 1),
        (854_513, 138),
    ];
    for (index, (number, (numerator, denominator))) in numbers.iter().zip(expected).enumerate() {
        assert_eq!(*number, Ratio::new(numerator, denominator), "B_{index}");
    }
    assert_eq!(binomial(23, 11), 1_352_078);
    assert_eq!(factorial(22), 1_124_000_727_777_607_680_000);
}

fn quotient(numerator: i128, denominator: i128) -> f64 {
    f64::from_bits(quotient_bits(numerator, denominator))
}

#[test]
fn quotients_are_those_of_a_correctly_rounded_division() {
    // Below 2^53 both integers are exact, and one division rounds correctly.
    let cases: [(i128, i128); 9] = [
        (1, 3),
        (2, 3),
        (-7, 10),
        (701, 500),
        (25_251, 73_375),
        (209_599, -293_500),
        (1, 1 << 60),
        (123_456_789_012_345, 97),
        ((1 << 52) - 1, 1 << 52),
    ];
    for (numerator, denominator) in cases {
        let expected = (numerator as f64) / (denominator as f64);
        assert_eq!(quotient(numerator, denominator), expected, "{numerator} / {denominator}");
    }
    // Ties go to even: 2^53 + 1 lies halfway between 2^53 and 2^53 + 2, and 2^53 + 3
    // between 2^53 + 2 and 2^53 + 4.
    assert_eq!(quotient((1 << 53) + 1, 1), 9_007_199_254_740_992.0);
    assert_eq!(quotient((1 << 53) + 3, 1), 9_007_199_254_740_996.0);
    // Just above a tie rounds up; the remainder is sticky.
    assert_eq!(quotient((1 << 54) + 3, 2), 9_007_199_254_740_994.0);
    // Large numerators and denominators, beyond binary64's integers.
    assert_eq!(quotient(1 << 100, 1 << 98), 4.0);
    assert_eq!(quotient(3 << 100, 1 << 101), 1.5);
    assert_eq!(quotient(0, -5), 0.0);
}

#[test]
fn extreme_quotients_round_correctly() {
    assert_eq!(quotient(i128::MIN, 1), -(2f64.powi(127)));
    assert_eq!(quotient(1, i128::MIN), -(2f64.powi(-127)));
    assert_eq!(quotient(-1, -1), 1.0);
    assert_eq!(quotient(1, 3).to_bits(), 0x3FD5_5555_5555_5555);
    assert_eq!(quotient(2, 3).to_bits(), 0x3FE5_5555_5555_5555);
    assert_eq!(Ratio::new(-3, 4).nearest_bits(), (-0.75f64).to_bits());
}

#[test]
fn integers_enter_floating_point_rounded_to_the_nearest() {
    let values: [i128; 12] = [
        0,
        1,
        -1,
        3,
        (1 << 53) + 1,
        (1 << 53) + 3,
        -((1 << 54) + 2),
        (1 << 64) - 1,
        i128::MAX,
        i128::MIN,
        i128::MIN + 1,
        123_456_789_012_345_678_901_234_567,
    ];
    for value in values {
        #[allow(clippy::cast_precision_loss)]
        let expected = value as f64;
        assert_eq!(nearest_from_i128(value), expected.to_bits(), "{value}");
    }
    assert_eq!(f64::from_bits(nearest_from_i128((1 << 53) + 1)), 9_007_199_254_740_992.0);
    assert_eq!(nearest_from_u64(u64::MAX), 18_446_744_073_709_551_616.0f64.to_bits());
    assert_eq!(nearest_from_usize(7), 7.0f64.to_bits());
}

#[test]
fn up_to_b_40_the_numbers_fit() {
    let numbers = try_bernoulli(41).expect("the numbers up to B_40 fit");
    assert_eq!(numbers, bernoulli(41));
    let b40 = numbers[40];
    assert_eq!((b40.numerator(), b40.denominator()), (-261_082_718_496_449_122_051, 13_530));
    assert_eq!(try_bernoulli(0), Some(Vec::new()));
    assert!(try_bernoulli(200).is_none());
}

#[test]
fn binomial_coefficients_are_factorials_over_factorials() {
    for n in 0..=33u32 {
        for k in 0..=n {
            assert_eq!(binomial(n, k) * factorial(k) * factorial(n - k), factorial(n), "{n} {k}");
            assert_eq!(binomial(n, k), binomial(n, n - k));
        }
        assert_eq!(binomial(n, n + 1), 0);
    }
    // Up to n = 120 every coefficient is computed.
    assert_eq!(binomial(120, 1), 120);
    assert_eq!(binomial(120, 60), binomial(119, 59) + binomial(119, 60));
    assert_eq!(binomial(120, 119), 120);
}
