use statsd::metric::{parse, Decimal, MetricKind};

fn dec(mantissa: i64, scale: i64) -> Decimal {
    Decimal { mantissa, scale }
}

#[test]
fn parses_counter_with_default_rate() {
    let m = parse(b"foo:5|c").unwrap();
    assert_eq!(m.name, b"foo".to_vec());
    assert_eq!(m.value, dec(5, 0));
    assert_eq!(m.kind, MetricKind::Counter(dec(1, 0)));
}

#[test]
fn parses_counter_with_rate() {
    let m = parse(b"hits:3|c|@0.1").unwrap();
    assert_eq!(m.name, b"hits".to_vec());
    assert_eq!(m.value, dec(3, 0));
    assert_eq!(m.kind, MetricKind::Counter(dec(1, 1)));
}

#[test]
fn parses_gauge_timer_histogram() {
    let g = parse(b"bar:2.5|g").unwrap();
    assert_eq!(g.value, dec(25, 1));
    assert_eq!(g.kind, MetricKind::Gauge);
    let t = parse(b"baz:100|ms").unwrap();
    assert_eq!(t.value, dec(100, 0));
    assert_eq!(t.kind, MetricKind::Timer);
    let h = parse(b"q:-7|h").unwrap();
    assert_eq!(h.value, dec(-7, 0));
    assert_eq!(h.kind, MetricKind::Histogram);
}

#[test]
fn parses_signed_and_fractional_forms() {
    assert_eq!(parse(b"a:+1.25|g").unwrap().value, dec(125, 2));
    assert_eq!(parse(b"a:.5|g").unwrap().value, dec(5, 1));
    assert_eq!(parse(b"a:5.|g").unwrap().value, dec(5, 0));
    assert_eq!(parse(b"a:-0.001|ms").unwrap().value, dec(-1, 3));
}

#[test]
fn rate_of_one_is_accepted() {
    assert_eq!(parse(b"a:1|c|@1").unwrap().kind, MetricKind::Counter(dec(1, 0)));
    assert_eq!(parse(b"a:1|c|@1.00").unwrap().kind, MetricKind::Counter(dec(100, 2)));
}

#[test]
fn rejects_missing_separators() {
    assert!(parse(b"foo5|c").is_err());
    assert!(parse(b"foo:5c").is_err());
    assert!(parse(b":5|c").is_err());
    assert!(parse(b"").is_err());
}

#[test]
fn rejects_non_numeric_values() {
    assert!(parse(b"foo:abc|c").is_err());
    assert!(parse(b"foo:|c").is_err());
    assert!(parse(b"foo:-|g").is_err());
    assert!(parse(b"foo:1.2.3|g").is_err());
}

#[test]
fn rejects_unknown_type_codes() {
    assert!(parse(b"foo:5|x").is_err());
    assert!(parse(b"foo:5|").is_err());
    assert!(parse(b"foo:5|mss").is_err());
}

#[test]
fn rejects_bad_sample_rates() {
    assert!(parse(b"foo:5|c|@0").is_err());
    assert!(parse(b"foo:5|c|@0.0").is_err());
    assert!(parse(b"foo:5|c|@1.5").is_err());
    assert!(parse(b"foo:5|c|@-0.5").is_err());
    assert!(parse(b"foo:5|c|0.5").is_err());
    assert!(parse(b"foo:5|c|@x").is_err());
    assert!(parse(b"foo:5|g|@0.5").is_err());
}

#[test]
fn largest_mantissa_is_accepted() {
    let m = parse(b"big:999999999999999999|g").unwrap();
    assert_eq!(m.value, dec(999_999_999_999_999_999, 0));
}

#[test]
fn parses_exponent_form() {
    assert_eq!(parse(b"a:1e3|g").unwrap().value, dec(1, -3));
    assert_eq!(parse(b"a:2.5E-2|ms").unwrap().value, dec(25, 3));
    assert_eq!(parse(b"a:-4e+1|h").unwrap().value, dec(-4, -1));
    assert_eq!(parse(b"a:1|c|@5e-1").unwrap().kind, MetricKind::Counter(dec(5, 1)));
    assert!(parse(b"a:1|c|@1e1").is_err());
    assert!(parse(b"a:1e|g").is_err());
    assert!(parse(b"a:1e-|g").is_err());
    assert!(parse(b"a:e3|g").is_err());
    assert!(parse(b"a:1e3.5|g").is_err());
}

#[test]
fn long_values_keep_eighteen_significant_digits() {
    let m = parse(b"a:1234567890123456789|g").unwrap();
    assert_eq!(m.value, dec(123_456_789_012_345_678, -1));
    let m = parse(b"a:0000000000000000000000.5|g").unwrap();
    assert_eq!(m.value, dec(5, 1));
    let m = parse(b"a:0.00000000000000000000012345678901234567891|g").unwrap();
    assert_eq!(m.value, dec(123_456_789_012_345_678, 39));
    let m = parse(b"a:1e99999999999999999999|g").unwrap();
    assert_eq!(m.value, dec(1, -1_000_000_000));
}
