use sorby::bignat::BigNat;
use sorby::float::{round, Float};
use sorby::literal::parse_float;
use sorby::text::{
    chars_of, is_digit, to_decimal, to_signed_decimal, value_of_digit,
};

fn exact(value: f64) -> Float {
    Float::from_bits(value.to_bits())
}

#[test]
fn bits_are_read_as_the_format_has_them() {
    assert_eq!(
        exact(1.0),
        Float::Finite { negative: false, mantissa: 1 << 52, exponent: -52 },
    );
    assert_eq!(exact(-0.0), Float::Finite { negative: true, mantissa: 0, exponent: -1074 });
    assert_eq!(exact(5e-324), Float::Finite { negative: false, mantissa: 1, exponent: -1074 });
    assert_eq!(
        exact(f64::MAX),
        Float::Finite { negative: false, mantissa: (1 << 53) - 1, exponent: 971 },
    );
    assert_eq!(exact(f64::NEG_INFINITY), Float::Infinite { negative: true });
    assert_eq!(exact(f64::NAN), Float::Nan);
}

#[test]
fn only_what_is_above_zero_is_positive() {
    for value in [1.0, 5e-324, f64::INFINITY, f64::MAX] {
        assert!(exact(value).is_positive(), "{value}");
        assert!(!exact(-value).is_positive(), "{value}");
    }
    assert!(!exact(0.0).is_positive());
    assert!(!exact(f64::NAN).is_positive());
}

#[test]
fn arithmetic_agrees_with_double_precision() {
    let mut values = vec![
        0.0, 0.1, 0.5, 1.0, 1.5, 2.5, 0.49999999999999994, 1e15, 4503599627370497.5, 1e19, 1e20,
        1.8446744073709552e19, 1.844674407370955e19, 5e-324, 2.2250738585072014e-308, f64::MAX,
        f64::INFINITY, f64::NAN, 9007199254740993.0, 0.9999999999999999,
    ];
    let mut state: u64 = 99;
    for _ in 0..300 {
        state = state.wrapping_mul(6364136223846793005).wrapping_add(1442695040888963407);
        values.push(f64::from_bits(state));
        values.push((state >> 40) as f64 / 1024.0);
    }
    for value in values.iter().flat_map(|value| [*value, -value]) {
        assert_eq!(exact(value).truncate(), value as u64, "{value}");
        assert_eq!(exact(value).round_to_u64(), value.round() as u64, "{value}");
        for factor in [1, 2, 3, 1000, 1024, 100_000, 1 << 30, u32::MAX] {
            assert_eq!(
                exact(value).times(factor),
                exact(value * factor as f64),
                "{value} {factor}",
            );
        }
    }
}

#[test]
fn ratios_round_to_the_nearest_double() {
    for (num, den) in [(1u64, 3u64), (2, 3), (1, 10), (7, 7), (0, 5), (22, 7), (1, 1 << 40)] {
        let expected = exact(num as f64 / den as f64);
        assert_eq!(round(false, BigNat::from_u64(num), BigNat::from_u64(den)), expected);
        let mut more = BigNat::from_u64(num);
        more.mul_pow(10, 50);
        let mut parts = BigNat::from_u64(den);
        parts.mul_pow(10, 50);
        assert_eq!(round(false, more, parts), expected);
    }
    // Halfway between two doubles: the even one.
    for (num, expected) in [(9007199254740993u64, 9007199254740992u64), (9007199254740995, 9007199254740996)] {
        assert_eq!(
            round(false, BigNat::from_u64(num), BigNat::from_u64(1)),
            exact(expected as f64),
        );
    }
    // Halfway between the largest double and the next power of two.
    let mut num = BigNat::from_u64((1 << 54) - 1);
    num.mul_pow(2, 970);
    assert_eq!(round(true, num, BigNat::from_u64(1)), Float::Infinite { negative: true });
    let mut num = BigNat::from_u64((1 << 55) - 3);
    num.mul_pow(2, 969);
    assert_eq!(round(true, num, BigNat::from_u64(1)), exact(-f64::MAX));
}

#[test]
fn rounding_keeps_what_is_representable() {
    for value in [0.5, 0.75, 1.0, 1e15, 4503599627370497.5] {
        assert_eq!(
            round(false, BigNat::from_u64((value * 4.0) as u64), BigNat::from_u64(4)),
            exact(value),
        );
    }
}

#[test]
fn big_numbers_compare_and_subtract() {
    let mut a = BigNat::from_u64(u64::MAX);
    a.mul_add(u32::MAX, 1);
    a.mul_add(u32::MAX, u32::MAX);
    let mut b = BigNat::from_u64(u64::MAX);
    b.mul_add(u32::MAX, 1);
    b.mul_add(u32::MAX, u32::MAX - 1);
    assert!(a.at_least(&b) && !b.at_least(&a) && a.at_least(&a));
    a.subtract(&b);
    assert!(a.at_least(&BigNat::from_u64(1)) && BigNat::from_u64(1).at_least(&a));
    let mut c = BigNat::from_u64(3);
    c.mul_pow(7, 20);
    let mut d = BigNat::from_u64(3 * 7u64.pow(20));
    assert!(c.at_least(&d) && d.at_least(&c));
    d.subtract(&c);
    assert!(BigNat::from_u64(0).at_least(&d));
}

#[test]
fn numerals_are_decimal() {
    for n in [0, 1, 9, 10, 99, 100, 52_428_800, u64::MAX] {
        assert_eq!(to_decimal(n), n.to_string());
    }
    for n in [0, 7, -7, 10, -10, i32::MAX, i32::MIN] {
        assert_eq!(to_signed_decimal(n), n.to_string());
    }
    assert_eq!(chars_of("aé😀"), vec!['a', 'é', '😀']);
    for c in '\u{0}'..='\u{ff}' {
        assert_eq!(is_digit(c), c.is_ascii_digit());
        if let Some(d) = c.to_digit(10) {
            assert_eq!(value_of_digit(c), d);
        }
    }
}

#[test]
fn literals_have_exact_values() {
    assert_eq!(parse_float("1.5"), Some(exact(1.5)));
    assert_eq!(parse_float("-Infinity"), Some(Float::Infinite { negative: true }));
    assert_eq!(parse_float("nan"), Some(Float::Nan));
    assert_eq!(parse_float("1e309"), Some(Float::Infinite { negative: false }));
    for s in ["", "e5", ".", "1e", "1 ", "infin", "0x1"] {
        assert_eq!(parse_float(s), None, "{s:?}");
    }
}
