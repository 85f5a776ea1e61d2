//! Conversions between decimal text and floating-point bit patterns, held
//! against the ones of the standard library.

use gguf_chisel::float::{
    display_double, display_single, exact_double, is_finite, narrow, parse_double, widen,
};

/// A fixed stream of 64-bit patterns.
fn patterns(n: usize) -> Vec<u64> {
    let mut out = Vec::new();
    let mut x: u64 = 0x9e37_79b9_7f4a_7c15;
    for _ in 0..n {
        x ^= x << 13;
        x ^= x >> 7;
        x ^= x << 17;
        out.push(x);
    }
    out
}

/// Doubles at the edges of the format.
fn edges() -> Vec<f64> {
    let mut out = vec![
        0.0,
        -0.0,
        1.0,
        -1.0,
        0.1,
        0.5,
        1.5,
        2.5,
        1e-5,
        9.999999999999999e-5,
        1e-4,
        0.00012,
        1e15,
        9999999999999998.0,
        1e16,
        1.0000000000000002e16,
        1e21,
        1e22,
        1e23,
        5e-324,
        2.2250738585072014e-308,
        2.225073858507201e-308,
        f64::MAX,
        f64::MIN_POSITIVE,
        f64::EPSILON,
        9007199254740992.0,
        9007199254740993.0,
        std::f64::consts::PI,
        123456789.125,
        4.9406564584124654e-324,
        1.7976931348623157e308,
    ];
    for k in -30..30 {
        out.push(10f64.powi(k));
        out.push(3.0 * 10f64.powi(k));
    }
    for k in [-1074, -1073, -1023, -1022, -1021, -60, -1, 1, 52, 53, 54, 63, 64, 1023] {
        out.push(2f64.powi(k));
        out.push(-2f64.powi(k));
    }
    out
}

#[test]
fn doubles_print_as_the_standard_library_does() {
    for x in edges() {
        assert_eq!(display_double(x.to_bits()), format!("{x}"));
        assert_eq!(exact_double(x.to_bits()), format!("{x:?}"));
    }
    for bits in patterns(400) {
        let x = f64::from_bits(bits);
        assert_eq!(display_double(bits), format!("{x}"));
        assert_eq!(exact_double(bits), format!("{x:?}"));
    }
    // Few significant digits.
    for bits in patterns(400) {
        let x = (bits % 100_000) as f64 / 1000.0;
        assert_eq!(display_double(x.to_bits()), format!("{x}"));
        assert_eq!(exact_double(x.to_bits()), format!("{x:?}"));
    }
}

#[test]
fn singles_print_as_the_standard_library_does() {
    let edges = [
        0.0f32,
        -0.0,
        0.7,
        1.5,
        10000.0,
        1e-45,
        1.1754944e-38,
        f32::MAX,
        f32::EPSILON,
        16777216.0,
        16777218.0,
        1e10,
        3.4e-20,
    ];
    for x in edges {
        assert_eq!(display_single(x.to_bits()), format!("{x}"));
    }
    for bits in patterns(600) {
        let x = f32::from_bits(bits as u32);
        assert_eq!(display_single(bits as u32), format!("{x}"));
    }
}

#[test]
fn values_that_are_no_numbers_print_by_name() {
    assert_eq!(display_double(f64::NAN.to_bits()), "NaN");
    assert_eq!(display_double(f64::INFINITY.to_bits()), "inf");
    assert_eq!(display_double(f64::NEG_INFINITY.to_bits()), "-inf");
    assert_eq!(display_single(f32::NAN.to_bits()), "NaN");
    assert_eq!(display_single(f32::NEG_INFINITY.to_bits()), "-inf");
    assert_eq!(exact_double(f64::INFINITY.to_bits()), format!("{:?}", f64::INFINITY));
    assert_eq!(exact_double(f64::NAN.to_bits()), format!("{:?}", f64::NAN));
    assert!(!is_finite(f64::NAN.to_bits()));
    assert!(!is_finite(f64::NEG_INFINITY.to_bits()));
    assert!(is_finite(f64::MAX.to_bits()));
    assert!(is_finite((-0.0f64).to_bits()));
}

#[test]
fn text_reads_as_the_standard_library_does() {
    let texts = [
        "0", "-0", "0.0", "1", "+1", "-1", "1.", ".5", "-.5", ".", "", "+", "-", "e5", "1e", "1e+",
        "1e5", "1E5", "1e+5", "1e-5", "1.5e3", "-0.5e3", "1e400", "-1e400", "1e-400", "1e308",
        "1.7976931348623157e308", "1.7976931348623158e308", "1.7976931348623159e308",
        "179769313486231580793728971405303415079934132710037826936173778980444968292764750946649017977587207096330286416692887910946555547851940402630657488671505820681908902000708383676273854845817711531764475730270069855571366959622842914819860834936475292719074168444365510704342711559699508093042880",
        "5e-324", "2.4703282292062327e-324", "2.4703282292062328e-324", "2.47e-324",
        "9007199254740993", "9007199254740992.5", "9007199254740993.00000000000000000000001",
        "0.1", "0.30000000000000004", "inf", "-inf", "+inf", "Inf", "INF", "infinity", "-Infinity",
        "nan", "NaN", "-nan", "nano", "infi", " 1", "1 ", "1_000", "0x10", "1e99999999999999999999",
        "1e-99999999999999999999", "0e99999999999999999999", "00012.500", "1.2.3", "1e1.5", "--1",
        "1-", "\u{0661}", "3.4028235677973366e38", "1.401298464324817e-45", "hello",
    ];
    for t in texts {
        let want = t.parse::<f64>().ok();
        match (parse_double(t), want) {
            (Some(b), Some(x)) => {
                if x.is_nan() {
                    assert!(f64::from_bits(b).is_nan(), "{t}");
                } else {
                    assert_eq!(b, x.to_bits(), "{t}");
                }
            }
            (None, None) => {}
            (got, want) => panic!("{t}: {got:?} against {want:?}"),
        }
    }
    for bits in patterns(300) {
        let x = f64::from_bits(bits);
        if !x.is_nan() {
            let t = format!("{x:e}");
            assert_eq!(parse_double(&t), Some(bits), "{t}");
        }
        let t = format!("{}.{}e{}", bits % 1000, bits >> 32, (bits >> 20) as i64 % 300 - 150);
        assert_eq!(parse_double(&t), Some(t.parse::<f64>().unwrap().to_bits()), "{t}");
    }
}

#[test]
fn printed_doubles_read_back_exactly() {
    for x in edges() {
        assert_eq!(parse_double(&exact_double(x.to_bits())), Some(x.to_bits()));
        assert_eq!(parse_double(&display_double(x.to_bits())), Some(x.to_bits()));
    }
    for bits in patterns(300) {
        if is_finite(bits) {
            assert_eq!(parse_double(&exact_double(bits)), Some(bits));
        }
    }
}

#[test]
fn narrowing_rounds_as_a_cast_does() {
    let mut all = edges();
    all.extend([
        f32::MAX as f64,
        3.4028235677973366e38,
        3.4028235677973362e38,
        1.401298464324817e-45,
        7.006492321624085e-46,
        7.006492321624087e-46,
        1.1754943508222875e-38,
        16777217.0,
        16777219.0,
        f64::INFINITY,
        f64::NEG_INFINITY,
    ]);
    for x in all {
        assert_eq!(narrow(x.to_bits()), (x as f32).to_bits(), "{x}");
    }
    for bits in patterns(600) {
        let x = f64::from_bits(bits);
        if !x.is_nan() {
            assert_eq!(narrow(bits), (x as f32).to_bits(), "{x}");
        }
        // Within the reach of a single.
        let y = f64::from_bits((bits >> 12) | 0x3800_0000_0000_0000 | (bits & (1 << 63)));
        assert_eq!(narrow(y.to_bits()), (y as f32).to_bits(), "{y}");
    }
    assert!(f32::from_bits(narrow(f64::NAN.to_bits())).is_nan());
}

#[test]
fn widening_is_exact() {
    for bits in patterns(600) {
        let x = f32::from_bits(bits as u32);
        if !x.is_nan() {
            assert_eq!(widen(bits as u32), (x as f64).to_bits(), "{x}");
            assert_eq!(narrow(widen(bits as u32)), bits as u32);
        }
    }
    for bits in [0u32, 1, 2, 0x7f_ffff, 0x80_0000, 0x8000_0001, 0x7f80_0000, 0xff80_0000] {
        assert_eq!(widen(bits), (f32::from_bits(bits) as f64).to_bits());
    }
    assert!(f64::from_bits(widen(f32::NAN.to_bits())).is_nan());
}
