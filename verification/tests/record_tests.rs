use fx_store::text::{parse_price, parse_u32};
use fx_store::types::{FxError, OHLCV, PriceField};

#[test]
fn test_ohlcv_size() {
    assert_eq!(std::mem::size_of::<OHLCV>(), 40);
}

#[test]
fn test_ohlcv_parsing() {
    let ohlcv = OHLCV::from_fx(
        "20230101 120000",
        "1.23456",
        "1.23499",
        "1.23400",
        "1.23450",
        100,
        1,
    )
    .unwrap();

    let open = ohlcv.open;
    let high = ohlcv.high;
    let low = ohlcv.low;
    let close = ohlcv.close;
    let volume = ohlcv.volume;
    let symbol_id = ohlcv.symbol_id;
    let ts = ohlcv.ts;

    assert_eq!(open, 123456);
    assert_eq!(high, 123499);
    assert_eq!(low, 123400);
    assert_eq!(close, 123450);
    assert_eq!(volume, 100);
    assert_eq!(symbol_id, 1);

    // Timestamp verification: 2023-01-01 12:00:00 UTC
    // 1672574400 seconds
    assert_eq!(ts, 1672574400 * 1_000_000_000);
}

#[test]
fn test_from_fx_bad_datetime() {
    let r = OHLCV::from_fx("not a date", "1.0", "1.0", "1.0", "1.0", 1, 0);
    assert_eq!(r.unwrap_err(), FxError::ParseError);
    let r = OHLCV::from_fx("20231301 120000", "1.0", "1.0", "1.0", "1.0", 1, 0);
    assert_eq!(r.unwrap_err(), FxError::ParseError);
}

#[test]
fn test_from_fx_bad_price() {
    let r = OHLCV::from_fx("20230101 120000", "x", "1.0", "1.0", "1.0", 1, 0);
    assert_eq!(r.unwrap_err(), FxError::ParseError);
    // 43000 * 100000 exceeds the unsigned 32-bit fixed-point range.
    let r = OHLCV::from_fx("20230101 120000", "43000.0", "1.0", "1.0", "1.0", 1, 0);
    assert_eq!(r.unwrap_err(), FxError::ParseError);
}

#[test]
fn test_parse_price_truncates() {
    assert_eq!(parse_price("1.23456"), Some(123456));
    // A sixth decimal digit is truncated, not rounded.
    assert_eq!(parse_price("1.234567"), Some(123456));
    assert_eq!(parse_price("1.239999"), Some(123999));
    assert_eq!(parse_price("1.2"), Some(120000));
    assert_eq!(parse_price("7"), Some(700000));
    assert_eq!(parse_price("0.00001"), Some(1));
    assert_eq!(parse_price(""), None);
    assert_eq!(parse_price("."), None);
    assert_eq!(parse_price("1.2.3"), None);
    assert_eq!(parse_price("abc"), None);
    assert_eq!(parse_price("42949.67295"), Some(4294967295));
    assert_eq!(parse_price("42949.67296"), None);
}

#[test]
fn test_parse_u32() {
    assert_eq!(parse_u32("0"), Some(0));
    assert_eq!(parse_u32("123"), Some(123));
    assert_eq!(parse_u32("4294967295"), Some(4294967295));
    assert_eq!(parse_u32("4294967296"), None);
    assert_eq!(parse_u32(""), None);
    assert_eq!(parse_u32("1.5"), None);
}

#[test]
fn test_fixed_point_recovery() {
    let ohlcv = OHLCV::from_fx(
        "20230101 120000",
        "1.23456",
        "1.23456",
        "1.23456",
        "1.23456",
        1,
        0,
    )
    .unwrap();
    let raw = ohlcv.price_raw(PriceField::Open);
    let back = raw as f64 / 100000.0;
    assert!((back - 1.23456).abs() < 0.00001);
    assert_eq!(ohlcv.price_raw(PriceField::High), 123456);
    assert_eq!(ohlcv.price_raw(PriceField::Low), 123456);
    assert_eq!(ohlcv.price_raw(PriceField::Close), 123456);
}

#[test]
fn test_sentinel_default() {
    let z = OHLCV::default();
    assert_eq!(z.ts, 0);
    assert_eq!(z.open, 0);
    assert_eq!(z.high, 0);
    assert_eq!(z.low, 0);
    assert_eq!(z.close, 0);
    assert_eq!(z.volume, 0);
    assert_eq!(z.symbol_id, 0);
    assert_eq!(z._pad, [0u8; 10]);
}
