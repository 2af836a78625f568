use sorby::cgroups::{parse_size_to_bytes, SizeError};
use sorby::float::Float;
use sorby::literal::parse_float;
use sorby::text::{is_white_space, to_capital, trim};

#[test]
fn parses_megabytes() {
    assert_eq!(parse_size_to_bytes("50M").unwrap(), 50 * 1024 * 1024);
}

#[test]
fn parses_gigabytes_fractional() {
    assert_eq!(parse_size_to_bytes("1.5G").unwrap(), (1.5 * 1024f64.powi(3)) as u64);
}

#[test]
fn parses_bare_bytes() {
    assert_eq!(parse_size_to_bytes("2048").unwrap(), 2048);
}

#[test]
fn rejects_garbage() {
    assert!(parse_size_to_bytes("nope").is_err());
}

/// What double-precision arithmetic makes of a size.
fn computed(s: &str) -> Option<u64> {
    let s = s.trim();
    let last = s.chars().last()?;
    let (number, unit) = match last.to_ascii_uppercase() {
        'G' => (&s[..s.len() - 1], 1024u64.pow(3)),
        'M' => (&s[..s.len() - 1], 1024u64.pow(2)),
        'K' => (&s[..s.len() - 1], 1024u64),
        'B' => (&s[..s.len() - 1], 1u64),
        c if c.is_ascii_digit() => (s, 1u64),
        _ => return None,
    };
    let value: f64 = number.parse().ok()?;
    if value > 0.0 {
        Some((value * unit as f64) as u64)
    } else {
        None
    }
}

/// A fixed sequence of numbers that looks random.
fn next(state: &mut u64) -> u64 {
    *state = state.wrapping_mul(6364136223846793005).wrapping_add(1442695040888963407);
    *state >> 33
}

#[test]
fn sizes_agree_with_double_precision() {
    let sizes = [
        "1", "0", "00", "007", "1.", ".5", ".", "", " ", "1e3", "1E3", "1e+3", "1e-3", "1e", "e1",
        "1e5e5", "1.2.3", "+5", "-5", "+-5", "--5", "+", "-", "inf", "infB", "INFB", "-infB",
        "+InFiNiTyB", "infinitG", "nanB", "-nanM", "NaNK", "nanG", "50 M", " 50M ", "\u{3000}5K\u{85}",
        "5_000", "0x10", "1e400", "1e-400", "1e-5", "4.9e-324B", "2.4e-324B", "2.5e-324B",
        "1e999999999999999999999999999999999999999999", "0e999999999999999999999999999999999999",
        "1e-999999999999999999999999999999999999999999", "18446744073709551615",
        "18446744073709551616", "18446744073709551614", "9007199254740993", "9007199254740992",
        "9007199254740991", "9007199254740995K", "17179869183G", "17179869184G", "0.1G", "0.3M",
        "1.7976931348623157e308", "1.7976931348623159e308", "2e308", "50Q", "50é", "é", "5é", "m",
        "G", "b", "1e3k", "123456789012345678901234567890e-20G", "0.000000000931322574615478515625G",
        "0.00000000093132257461547851562499999999999G", "1.00000000000000011102230246251565404e15",
        "1.00000000000000011102230246251565405e15", "9007199254740993.00000000000000000000001",
        "9007199254740992.99999999999999999999", "٣", "5e٣",
    ];
    for s in sizes {
        assert_eq!(parse_size_to_bytes(s).ok(), computed(s), "size {s:?}");
    }
    let mut state = 42;
    for _ in 0..400 {
        let mut s = String::new();
        for _ in 0..next(&mut state) % 20 {
            s.push((b'0' + (next(&mut state) % 10) as u8) as char);
        }
        if next(&mut state) % 2 == 0 {
            s.push('.');
            for _ in 0..next(&mut state) % 25 {
                s.push((b'0' + (next(&mut state) % 10) as u8) as char);
            }
        }
        if next(&mut state) % 2 == 0 {
            s += &format!("e{}", next(&mut state) as i64 % 700 - 350);
        }
        s += ["", "G", "m", "k", "B"][(next(&mut state) % 5) as usize];
        assert_eq!(parse_size_to_bytes(&s).ok(), computed(&s), "size {s:?}");
    }
}

#[test]
fn literals_agree_with_double_precision() {
    let literals = [
        "0", "-0", "1", "3.14", "-3.14", "2.5E10", "2.5E-10", "5.", ".5", "0.5", "inf", "-inf",
        "+infinity", "NaN", "5e-324", "2.4703282292062327e-324", "2.4703282292062328e-324",
        "2.2250738585072014e-308", "2.2250738585072011e-308", "1.7976931348623157e308",
        "1.7976931348623158e308", "1.797693134862315808e308", "1e22", "1e23", "8.5", "123456.789e-3",
        "0.1", "0.2", "0.30000000000000004", "1e-323", "x", "1x", "١",
    ];
    for s in literals {
        let expected: Option<f64> = s.parse().ok();
        match (parse_float(s), expected) {
            (None, None) => {}
            (Some(Float::Nan), Some(value)) => assert!(value.is_nan(), "literal {s:?}"),
            (Some(found), Some(value)) => {
                assert_eq!(found, Float::from_bits(value.to_bits()), "literal {s:?}")
            }
            _ => panic!("literal {s:?}"),
        }
    }
}

#[test]
fn white_space_is_what_unicode_says() {
    for c in '\u{0}'..=char::MAX {
        assert_eq!(is_white_space(c), c.is_whitespace(), "{c:?}");
        assert_eq!(to_capital(c), c.to_ascii_uppercase(), "{c:?}");
    }
    for s in ["", " ", " a", "a ", "\u{2003}a b\u{a0}\n", "ab", "\t\t"] {
        assert_eq!(trim(s), s.trim());
    }
}

#[test]
fn each_refusal_has_its_reason() {
    assert_eq!(parse_size_to_bytes(" \t\n"), Err(SizeError::Empty));
    assert_eq!(
        parse_size_to_bytes(" nope "),
        Err(SizeError::UnrecognizedSuffix { suffix: 'E', size: "nope".to_string() }),
    );
    assert_eq!(
        parse_size_to_bytes("5 M"),
        Err(SizeError::InvalidNumber { number: "5 ".to_string() }),
    );
    assert_eq!(parse_size_to_bytes("G"), Err(SizeError::InvalidNumber { number: String::new() }));
    assert_eq!(parse_size_to_bytes("0"), Err(SizeError::NotPositive));
    assert_eq!(parse_size_to_bytes("-1K"), Err(SizeError::NotPositive));
    assert_eq!(parse_size_to_bytes("nanB"), Err(SizeError::NotPositive));
    assert_eq!(parse_size_to_bytes("1e-400"), Err(SizeError::NotPositive));
}
