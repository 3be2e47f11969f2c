use asc_bundler::{exposure_time_of, format_quotient, parse_decimal, parse_measurement, Decimal};

#[test]
fn measurement_blocks() {
    let m = parse_measurement("  1,2,3\n4,5\n\n\nmeta one\n\nmeta two  \n");
    assert_eq!(
        m.data_rows,
        vec![vec!["1".to_string(), "2".to_string(), "3".to_string()], vec!["4".to_string(), "5".to_string()]]
    );
    assert_eq!(m.metadata_lines, vec!["meta one".to_string(), "meta two".to_string()]);
    let only_data = parse_measurement("1,2\n3,4");
    assert_eq!(only_data.data_rows.len(), 2);
    assert!(only_data.metadata_lines.is_empty());
}

#[test]
fn exposure_from_first_matching_line() {
    let meta = vec![
        "Title: x".to_string(),
        "Exposure Time (ms): 12:30".to_string(),
        "Exposure Time: 9".to_string(),
    ];
    assert_eq!(exposure_time_of(&meta), Ok("12:30".to_string()));
}

#[test]
fn decimals() {
    assert_eq!(parse_decimal("-12.50"), Some(Decimal { negative: true, mantissa: 1250, scale: 2 }));
    assert_eq!(parse_decimal("+.5"), Some(Decimal { negative: false, mantissa: 5, scale: 1 }));
    assert_eq!(parse_decimal("7."), Some(Decimal { negative: false, mantissa: 7, scale: 0 }));
    assert_eq!(parse_decimal(""), None);
    assert_eq!(parse_decimal("."), None);
    assert_eq!(parse_decimal("1.2.3"), None);
    assert_eq!(parse_decimal("1e3"), None);
    assert_eq!(parse_decimal("0.000000000000000001"), None);
    assert_eq!(parse_decimal("1234567890123456789"), None);
    assert_eq!(
        parse_decimal("123456789012345678"),
        Some(Decimal { negative: false, mantissa: 123456789012345678, scale: 0 })
    );
}

#[test]
fn quotients() {
    let d = |s: &str| parse_decimal(s).unwrap();
    assert_eq!(format_quotient(d("1"), d("3")), "0.33333333333333333");
    assert_eq!(format_quotient(d("-3"), d("4")), "-0.75");
    assert_eq!(format_quotient(d("10"), d("4.0")), "2.5");
    assert_eq!(format_quotient(d("0"), d("-5")), "0");
    assert_eq!(format_quotient(d("-6"), d("-2")), "3");
    assert_eq!(format_quotient(d("999999999999999999"), d("0.00000000000000001")), "99999999999999999900000000000000000");
    assert_eq!(format_quotient(d("1"), d("8")), "0.125");
}
