use prophet_scan::config::{OpenInterest, OpenInterestHist};
use prophet_scan::decimal::{parse_decimal, parse_ticks};

#[test]
fn decimals_read_as_ticks() {
    assert_eq!(parse_decimal("123.45", 2), Some(12345));
    assert_eq!(parse_decimal("1.5", 2), Some(150));
    assert_eq!(parse_decimal("7", 0), Some(7));
    assert_eq!(parse_decimal("7", 3), Some(7000));
    assert_eq!(parse_decimal("5.", 2), Some(500));
    assert_eq!(parse_decimal("0.123456789", 4), Some(1234));
    assert_eq!(parse_decimal("0042.10", 1), Some(421));
}

#[test]
fn malformed_decimals_are_rejected() {
    assert_eq!(parse_decimal("", 2), None);
    assert_eq!(parse_decimal(".5", 2), None);
    assert_eq!(parse_decimal("1.2.3", 2), None);
    assert_eq!(parse_decimal("12a", 0), None);
    assert_eq!(parse_decimal("-1", 0), None);
    assert_eq!(parse_decimal("1e5", 0), None);
    assert_eq!(parse_decimal(" 1", 0), None);
}

#[test]
fn decimal_range_limits() {
    assert_eq!(parse_decimal("18446744073709551615", 0), Some(u64::MAX));
    assert_eq!(parse_decimal("18446744073709551616", 0), None);
    assert_eq!(parse_decimal("18446744073709551.615", 3), Some(u64::MAX));
    assert_eq!(parse_decimal("18446744073709551.616", 3), None);
    assert_eq!(parse_decimal("99999999999999999999999", 0), None);
    assert_eq!(parse_ticks(b"1", 18), Some(1_000_000_000_000_000_000));
}

#[test]
fn open_interest_texts() {
    let oi = OpenInterest { symbol: "BTCUSDT".to_string(), open_interest: "81234.567".to_string(), time: 1 };
    assert_eq!(oi.open_interest_ticks(3), 81_234_567);
    let bad = OpenInterest { symbol: "BTCUSDT".to_string(), open_interest: "n/a".to_string(), time: 1 };
    assert_eq!(bad.open_interest_ticks(3), 0);
    let hist = OpenInterestHist {
        symbol: "BTCUSDT".to_string(),
        sum_open_interest: "10.5".to_string(),
        sum_open_interest_value: "1000".to_string(),
        timestamp: 1,
    };
    assert_eq!(hist.sum_open_interest_ticks(2), 1050);
}
