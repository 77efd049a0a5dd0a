//! The arithmetic agrees with double precision, bit for bit.
use inferscope::binary64::{push_fixed, Binary64, SignedBinary64};
use inferscope::numeral::{read_counter, read_nanoseconds, read_time, Reading};

fn double(x: Binary64) -> f64 {
    x.mantissa as f64 * 2f64.powi(x.exponent)
}

/// A fixed stream of 64-bit values.
fn stream(n: usize) -> Vec<u64> {
    let mut x: u64 = 0x9e37_79b9_7f4a_7c15;
    let mut out = Vec::new();
    for i in 0..n {
        x ^= x << 13;
        x ^= x >> 7;
        x ^= x << 17;
        out.push(x >> (i % 60));
    }
    out
}

#[test]
fn integers_convert_as_doubles_do() {
    for n in stream(2_000).into_iter().chain([0, 1, (1 << 53) + 1, (1 << 54) + 2, u64::MAX]) {
        assert_eq!(double(Binary64::from_u64(n)), n as f64, "{n}");
    }
}

#[test]
fn operations_round_as_doubles_do() {
    let values = stream(300);
    for pair in values.windows(2) {
        let (a, b) = (pair[0], pair[1]);
        let (x, y) = (Binary64::from_u64(a), Binary64::from_u64(b));
        assert_eq!(double(x.product(y)), a as f64 * b as f64, "{a} * {b}");
        assert_eq!(double(x.sum(y)), a as f64 + b as f64, "{a} + {b}");
        if b != 0 {
            let q = x.quotient(y);
            assert_eq!(double(q), a as f64 / b as f64, "{a} / {b}");
            assert_eq!(q.to_u64(), (a as f64 / b as f64) as u64, "{a} / {b}");
            assert_eq!(q.round_to_u64(), (a as f64 / b as f64).round() as u64, "{a} / {b}");
            let d = q.difference(y);
            let expected = a as f64 / b as f64 - b as f64;
            let got = if d.negative { -double(d.magnitude) } else { double(d.magnitude) };
            assert_eq!(got, expected, "{a} / {b} - {b}");
        }
        assert_eq!(x.is_less(y), (a as f64) < (b as f64));
    }
}

#[test]
fn equal_values_differ_by_a_positive_zero() {
    let x = Binary64::from_u64(7);
    assert_eq!(
        x.difference(x),
        SignedBinary64 { negative: false, magnitude: Binary64::from_u64(0) }
    );
}

#[test]
fn conversion_to_an_integer_saturates() {
    let large = Binary64::from_u64(u64::MAX);
    assert_eq!(large.to_u64(), u64::MAX);
    assert_eq!(large.product(large).to_u64(), u64::MAX);
    assert_eq!(large.product(large).round_to_u64(), u64::MAX);
    assert_eq!(Binary64::from_u64(5).quotient(Binary64::from_u64(2)).round_to_u64(), 3);
    assert_eq!(Binary64::from_u64(1).quotient(Binary64::from_u64(2)).round_to_u64(), 1);
}

#[test]
fn fixed_places_agree_with_the_formatter() {
    let values = stream(200);
    for pair in values.windows(2) {
        if pair[1] != 0 {
            let x = Binary64::from_u64(pair[0]).quotient(Binary64::from_u64(pair[1]));
            for places in [0usize, 1, 2, 3, 4, 6] {
                let mut out = String::from("=");
                push_fixed(&mut out, x, places);
                assert_eq!(out, format!("={:.places$}", double(x)));
            }
        }
    }
}

fn chars(s: &str) -> Vec<char> {
    s.chars().collect()
}

/// What a double-precision parser makes of a counter.
fn counter(s: &str) -> Reading {
    match s.parse::<f64>() {
        Err(_) => Reading::NotANumber,
        Ok(x) if x < 0.0 || !x.is_finite() => Reading::Invalid,
        Ok(x) => Reading::Value(x as u64),
    }
}

#[test]
fn counters_read_as_doubles_do() {
    for s in [
        "0", "1", "96", "96.0", "+7", "-0", "-0.0", "-1", "1e3", "1.5e1", "1.5", "1.96e2", "1E2",
        "12e-1", "120e-1", "1.790060021e+09", "9007199254740993", "18446744073709551615",
        "1e-400", "1e19", "", ".", ".5", "5.", "1e", "e5", "+", "nan", "NaN", "inf", "-inf",
        "+infinity", "Infinity", "0x10", "1_000", "1 2",
    ] {
        let v = chars(s);
        assert_eq!(read_counter(&v, 0, v.len()), counter(s), "{s:?}");
    }
}

#[test]
fn seconds_read_as_nanoseconds() {
    for s in ["0", "0.014493", "2.8432e-05", "1.5", "12", "3600.25", "1e-9", "4e-10", "1e10"] {
        let v = chars(s);
        let expected = (s.parse::<f64>().unwrap() * 1e9).round() as u64;
        assert_eq!(read_nanoseconds(&v, 0, v.len()), Reading::Value(expected), "{s:?}");
    }
    for s in ["-1", "nan", "inf"] {
        let v = chars(s);
        assert_eq!(read_nanoseconds(&v, 0, v.len()), Reading::Invalid, "{s:?}");
    }
    let v = chars("abc");
    assert_eq!(read_nanoseconds(&v, 0, 3), Reading::NotANumber);
}

/// The value, through its exact binary fields.
fn exact(x: Binary64) -> f64 {
    if x.mantissa == 0 {
        0.0
    } else if x.exponent >= -1074 {
        f64::from_bits((((x.exponent + 1075) as u64) << 52) | (x.mantissa & 0xf_ffff_ffff_ffff))
    } else {
        let dropped = (-1074 - x.exponent) as u32;
        assert_eq!(x.mantissa % (1u64 << dropped), 0, "{x:?}");
        f64::from_bits(x.mantissa >> dropped)
    }
}

#[test]
fn times_read_as_doubles_do() {
    for s in [
        "1.790060021e+09", "1790059976", "0.1", "17.25", "1e-3", "123456789.987654321",
        "1790060021123", "1790060021123456789", "1e21", "0", "-0.0", "1e22", "1e23", "9e99",
        "1.7976931348623157e308", "1.7976931348623158e308", "123456789012345678901234567890",
        "1e-11", "2.9e-11", "1e-100", "2.2250738585072014e-308", "2.2250738585072011e-308",
        "4.9e-324", "2.5e-324", "7.5e-324", "1e-310", "1.23456789e-315", "2.4e-324", "-1e-400",
    ] {
        let v = chars(s);
        let t = read_time(&v, 0, v.len()).expect("a time");
        assert_eq!(exact(t), s.parse::<f64>().unwrap(), "{s:?}");
    }
    for s in ["later", "-1", "-1e-300", "inf", "NaN", "1e309", ""] {
        let v = chars(s);
        assert_eq!(read_time(&v, 0, v.len()), None, "{s:?}");
    }
}
