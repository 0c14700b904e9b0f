use text_align::num::{format_num, half_width, parse_num};

#[test]
fn parse_integers() {
    assert_eq!(parse_num(b"10"), Some(10_000));
    assert_eq!(parse_num(b"0"), Some(0));
    assert_eq!(parse_num(b"-3"), Some(-3_000));
    assert_eq!(parse_num(b"+7"), Some(7_000));
    assert_eq!(parse_num(b"999999999"), Some(999_999_999_000));
}

#[test]
fn parse_fractions() {
    assert_eq!(parse_num(b"10.5"), Some(10_500));
    assert_eq!(parse_num(b"-3.25"), Some(-3_250));
    assert_eq!(parse_num(b"0.125"), Some(125));
    assert_eq!(parse_num(b".5"), Some(500));
    assert_eq!(parse_num(b"5."), Some(5_000));
    // digits past the third fractional place are dropped
    assert_eq!(parse_num(b"1.23456"), Some(1_234));
}

#[test]
fn parse_rejects_malformed() {
    assert_eq!(parse_num(b""), None);
    assert_eq!(parse_num(b"abc"), None);
    assert_eq!(parse_num(b"12px"), None);
    assert_eq!(parse_num(b"1e3"), None);
    assert_eq!(parse_num(b"."), None);
    assert_eq!(parse_num(b"-"), None);
    assert_eq!(parse_num(b"--5"), None);
    assert_eq!(parse_num(b"1.2.3"), None);
    assert_eq!(parse_num(b"1234567890"), None);
}

#[test]
fn format_values() {
    assert_eq!(format_num(10_000), b"10".to_vec());
    assert_eq!(format_num(13_500), b"13.5".to_vec());
    assert_eq!(format_num(125), b"0.125".to_vec());
    assert_eq!(format_num(-1_500), b"-1.5".to_vec());
    assert_eq!(format_num(0), b"0".to_vec());
    assert_eq!(format_num(3_600), b"3.6".to_vec());
}

#[test]
fn format_then_parse_round_trip() {
    for v in [0i64, 1, 999, 1_000, 10_500, -42_125, 999_999_999_999] {
        assert_eq!(parse_num(&format_num(v)), Some(v));
    }
}

#[test]
fn half_width_rounds_magnitude_down() {
    assert_eq!(half_width(4_000), 2_000);
    assert_eq!(half_width(5), 2);
    assert_eq!(half_width(-5), -2);
    assert_eq!(half_width(0), 0);
}
