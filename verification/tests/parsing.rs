use mandelbrot::geometry::Bounds;
use mandelbrot::numbers::Decimal;
use mandelbrot::parse::parse_bounds;
use mandelbrot::parse::parse_complex;
use mandelbrot::parse::parse_decimal;
use mandelbrot::parse::parse_pair;

/// The floating-point value a parsed decimal stands for.
fn dec_to_f64(d: &Decimal) -> f64 {
    let den = 10u64.pow(d.scale) as f64;
    let magnitude = d.int_part as f64 + d.frac as f64 / den;
    if d.neg {
        -magnitude
    } else {
        magnitude
    }
}

#[test]
fn test_parse_pair() {
    assert_eq!(parse_pair("", ','), None);
    assert_eq!(parse_pair("123,0", ','), Some((123, 0)));
    let (re, im) = parse_complex("0.12,0.1").unwrap();
    assert_eq!(dec_to_f64(&re), 0.12);
    assert_eq!(dec_to_f64(&im), 0.1);
}

#[test]
fn test_parse_complex() {
    assert_eq!(
        parse_complex("0.12,0.1"),
        Some((
            Decimal { neg: false, int_part: 0, frac: 12, scale: 2 },
            Decimal { neg: false, int_part: 0, frac: 1, scale: 1 },
        ))
    );
    assert_eq!(
        parse_complex("-0.12,-0.1"),
        Some((
            Decimal { neg: true, int_part: 0, frac: 12, scale: 2 },
            Decimal { neg: true, int_part: 0, frac: 1, scale: 1 },
        ))
    );
    let (re, im) = parse_complex("-0.12,-0.1").unwrap();
    assert_eq!(dec_to_f64(&re), -0.12);
    assert_eq!(dec_to_f64(&im), -0.1);
}

#[test]
fn parse_pair_rejects_missing_or_bad_components() {
    assert_eq!(parse_pair("10,", ','), None);
    assert_eq!(parse_pair(",10", ','), None);
    assert_eq!(parse_pair("10", ','), None);
    assert_eq!(parse_pair("ab,cd", ','), None);
    assert_eq!(parse_pair("10,20xy", ','), None);
}

#[test]
fn parse_pair_trims_blanks() {
    assert_eq!(parse_pair(" 123 , 0 ", ','), Some((123, 0)));
    assert_eq!(parse_pair("\t10x20\n", 'x'), Some((10, 20)));
}

#[test]
fn parse_pair_rejects_overflow() {
    assert_eq!(parse_pair("4294967295,0", ','), Some((4294967295, 0)));
    assert_eq!(parse_pair("4294967296,0", ','), None);
    assert_eq!(parse_pair("99999999999999999999999999,1", ','), None);
}

#[test]
fn parse_bounds_accepts_positive_dimensions() {
    assert_eq!(parse_bounds("1024x768"), Some(Bounds { width: 1024, height: 768 }));
    assert_eq!(parse_bounds("1x1"), Some(Bounds { width: 1, height: 1 }));
}

#[test]
fn parse_bounds_rejects_zero_or_malformed() {
    assert_eq!(parse_bounds("0x5"), None);
    assert_eq!(parse_bounds("5x0"), None);
    assert_eq!(parse_bounds("5,5"), None);
    assert_eq!(parse_bounds(""), None);
}

#[test]
fn parse_decimal_forms() {
    assert_eq!(
        parse_decimal("5."),
        Some(Decimal { neg: false, int_part: 5, frac: 0, scale: 0 })
    );
    assert_eq!(
        parse_decimal(".5"),
        Some(Decimal { neg: false, int_part: 0, frac: 5, scale: 1 })
    );
    assert_eq!(
        parse_decimal("+0.5"),
        Some(Decimal { neg: false, int_part: 0, frac: 5, scale: 1 })
    );
    assert_eq!(
        parse_decimal("-1.0"),
        Some(Decimal { neg: true, int_part: 1, frac: 0, scale: 1 })
    );
    assert_eq!(
        parse_decimal("42"),
        Some(Decimal { neg: false, int_part: 42, frac: 0, scale: 0 })
    );
}

#[test]
fn parse_decimal_rejects_outside_grammar() {
    assert_eq!(parse_decimal(""), None);
    assert_eq!(parse_decimal("."), None);
    assert_eq!(parse_decimal("-"), None);
    assert_eq!(parse_decimal("1.2.3"), None);
    assert_eq!(parse_decimal("1e5"), None);
    assert_eq!(parse_decimal("0.1234567"), None);
    assert_eq!(parse_decimal("1000000000001"), None);
}

#[test]
fn parse_complex_rejects_missing_comma_or_component() {
    assert_eq!(parse_complex(""), None);
    assert_eq!(parse_complex("0.5"), None);
    assert_eq!(parse_complex("0.5,"), None);
    assert_eq!(parse_complex(",0.5"), None);
}
