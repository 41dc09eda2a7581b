use dupscanner::sizes::{size_from_bits, split_size};

/// Reads a size as the command line does.
fn parse_size(s: &str) -> Result<u64, String> {
    let value = split_size(s).number.parse::<f64>().ok().map(f64::to_bits);
    dupscanner::sizes::parse_size(s, value)
}

#[test]
fn sizes_parse() {
    assert_eq!(parse_size("1").unwrap(), 1);
    assert_eq!(parse_size("10KB").unwrap(), 10 * 1024);
    assert_eq!(parse_size("5mb").unwrap(), 5 * 1024 * 1024);
    assert_eq!(parse_size("1.5GiB").unwrap(), (1.5 * 1024.0 * 1024.0 * 1024.0) as u64);
    assert!(parse_size("ten").is_err());
}

#[test]
fn sizes_say_what_is_wrong() {
    assert_eq!(parse_size(" ten ").unwrap_err(), "invalid size: TEN");
    assert_eq!(parse_size("").unwrap_err(), "invalid size: ");
    assert_eq!(parse_size("3 parsecs").unwrap_err(), "unknown size unit: PARSECS");
    assert_eq!(parse_size("3 tb").unwrap(), 3 << 40);
}

#[test]
fn sizes_are_worth_what_floats_are() {
    for text in [
        "0", "0.1", "0.9999999999999999999", "1.75", "7", "123456.789", "4503599627370497", "-3",
        "18446744073709551615", "99999999999999999999999", "0.0000000000000000000001",
    ] {
        let value: f64 = text.parse().unwrap();
        for (power, unit) in [(0u32, 1.0), (10, 1024.0), (40, 1099511627776.0)] {
            assert_eq!(
                size_from_bits(value.to_bits(), power),
                (value * unit) as u64,
                "{text} times {unit}"
            );
        }
    }
    assert_eq!(size_from_bits(f64::INFINITY.to_bits(), 0), u64::MAX);
    assert_eq!(size_from_bits(f64::NAN.to_bits(), 0), 0);
    assert_eq!(size_from_bits(f64::MIN_POSITIVE.to_bits(), 40), 0);
    assert_eq!(size_from_bits(5e-324f64.to_bits(), 40), 0);
}
