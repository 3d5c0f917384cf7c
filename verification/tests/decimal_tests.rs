use exchange::decimal::{format_decimal, parse_decimal};

#[test]
fn parses_prices_and_quantities() {
    assert_eq!(parse_decimal("45000.50"), Some(4_500_050_000_000));
    assert_eq!(parse_decimal("0.005"), Some(500_000));
    assert_eq!(parse_decimal("100"), Some(10_000_000_000));
    assert_eq!(parse_decimal("-1.5"), Some(-150_000_000));
    assert_eq!(parse_decimal("+2"), Some(200_000_000));
    assert_eq!(parse_decimal(".5"), Some(50_000_000));
    assert_eq!(parse_decimal("5."), Some(500_000_000));
    assert_eq!(parse_decimal("0.00000001"), Some(1));
    assert_eq!(parse_decimal("007"), Some(700_000_000));
}

#[test]
fn rejects_what_is_not_a_decimal_number() {
    assert_eq!(parse_decimal(""), None);
    assert_eq!(parse_decimal("."), None);
    assert_eq!(parse_decimal("-"), None);
    assert_eq!(parse_decimal("abc"), None);
    assert_eq!(parse_decimal("1.2.3"), None);
    assert_eq!(parse_decimal(" 1"), None);
    assert_eq!(parse_decimal("--1"), None);
    assert_eq!(parse_decimal("１"), None);
}

#[test]
fn rounds_to_the_nearest_carried_decimal() {
    assert_eq!(parse_decimal("0.000000001"), Some(0));
    assert_eq!(parse_decimal("0.000000005"), Some(1));
    assert_eq!(parse_decimal("0.123456789"), Some(12_345_679));
    assert_eq!(parse_decimal("2.5e-8"), Some(3));
    assert_eq!(parse_decimal("-2.5e-8"), Some(-3));
    assert_eq!(parse_decimal("2.4e-8"), Some(2));
}

#[test]
fn reads_exponents() {
    assert_eq!(parse_decimal("1e2"), Some(10_000_000_000));
    assert_eq!(parse_decimal("1E2"), Some(10_000_000_000));
    assert_eq!(parse_decimal("1.5e1"), Some(1_500_000_000));
    assert_eq!(parse_decimal("1e+2"), Some(10_000_000_000));
    assert_eq!(parse_decimal("1e-2"), Some(1_000_000));
    assert_eq!(parse_decimal("-4.5e3"), Some(-450_000_000_000));
    assert_eq!(parse_decimal(".5e1"), Some(500_000_000));
    assert_eq!(parse_decimal("5.e0"), Some(500_000_000));
    assert_eq!(parse_decimal("0e999999999999999999999999"), Some(0));
    assert_eq!(parse_decimal("1e-999999999999999999999999"), Some(0));
    assert_eq!(parse_decimal("12345e-12"), Some(1));
    assert_eq!(parse_decimal("1000000000000000000000000000000e-30"), Some(100_000_000));
}

#[test]
fn rejects_malformed_exponents_and_non_finite_words() {
    assert_eq!(parse_decimal("1e"), None);
    assert_eq!(parse_decimal("e5"), None);
    assert_eq!(parse_decimal(".e1"), None);
    assert_eq!(parse_decimal("1e+"), None);
    assert_eq!(parse_decimal("1e2.5"), None);
    assert_eq!(parse_decimal("1e2e3"), None);
    assert_eq!(parse_decimal("inf"), None);
    assert_eq!(parse_decimal("-infinity"), None);
    assert_eq!(parse_decimal("NaN"), None);
    assert_eq!(parse_decimal("1e999999999999999999999999"), None);
    assert_eq!(parse_decimal("1e11"), None);
}

#[test]
fn rejects_values_out_of_range() {
    assert_eq!(parse_decimal("92233720368.54775807"), Some(i64::MAX));
    assert_eq!(parse_decimal("92233720368.54775808"), None);
    assert_eq!(parse_decimal("-92233720368.54775808"), Some(i64::MIN));
    assert_eq!(parse_decimal("-92233720368.54775809"), None);
    assert_eq!(parse_decimal("100000000000000000000000"), None);
}

#[test]
fn formats_shortest_text() {
    assert_eq!(format_decimal(4_500_050_000_000), "45000.5");
    assert_eq!(format_decimal(10_000_000_000), "100");
    assert_eq!(format_decimal(500_000), "0.005");
    assert_eq!(format_decimal(0), "0");
    assert_eq!(format_decimal(-150_000_000), "-1.5");
    assert_eq!(format_decimal(1), "0.00000001");
    assert_eq!(format_decimal(i64::MIN), "-92233720368.54775808");
    assert_eq!(format_decimal(i64::MAX), "92233720368.54775807");
}

#[test]
fn format_then_parse_gives_the_value_back() {
    for v in [0i64, 1, -1, 7, 123_456_789, -98_765_432_100, 4_500_050_000_000, i64::MAX, i64::MIN] {
        assert_eq!(parse_decimal(&format_decimal(v)), Some(v));
    }
}
