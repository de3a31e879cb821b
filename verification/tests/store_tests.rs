use fx_store::store::{date_label_of_day, FxStore, RawRow};
use fx_store::types::FxError;

fn row(dt: &str, price: &str, volume: &str) -> RawRow {
    RawRow {
        dt: dt.to_string(),
        open: price.to_string(),
        high: price.to_string(),
        low: price.to_string(),
        close: price.to_string(),
        volume: volume.to_string(),
    }
}

fn ts(day_secs: u64, h: u64, m: u64) -> u64 {
    (day_secs + h * 3600 + m * 60) * 1_000_000_000
}

// 2023-01-01 00:00:00 UTC
const DAY_20230101: u64 = 1672531200;

#[test]
fn test_range_query_ordering_and_bounds() {
    let mut store = FxStore::new();
    // One full day of 1-minute bars for EURUSD.
    let mut rows: Vec<RawRow> = Vec::new();
    for h in 0..24u32 {
        for m in 0..60u32 {
            let dt = format!("20230101 {:02}{:02}00", h, m);
            rows.push(row(&dt, "1.05000", &format!("{}", h * 60 + m + 1)));
        }
    }
    store.import_rows("EURUSD", &rows).unwrap();

    let out = store
        .query_range("EURUSD", ts(DAY_20230101, 11, 59), ts(DAY_20230101, 12, 1))
        .unwrap();
    assert_eq!(out.len(), 3);
    assert_eq!(out[0].ts, ts(DAY_20230101, 11, 59));
    assert_eq!(out[1].ts, ts(DAY_20230101, 12, 0));
    assert_eq!(out[2].ts, ts(DAY_20230101, 12, 1));
    assert!(out[0].ts < out[1].ts && out[1].ts < out[2].ts);
    assert_eq!(out[0].volume, 11 * 60 + 59 + 1);

    // A day with no imported block yields an empty sequence, not an error.
    let next_day = DAY_20230101 + 86400;
    let empty = store
        .query_range("EURUSD", ts(next_day, 0, 0), ts(next_day, 23, 59))
        .unwrap();
    assert!(empty.is_empty());

    // Registration order is preserved.
    store.import_rows("USDJPY", &Vec::new()).unwrap();
    let symbols = store.get_symbols();
    assert_eq!(symbols, vec!["EURUSD".to_string(), "USDJPY".to_string()]);
}

#[test]
fn test_query_unknown_symbol() {
    let store = FxStore::new();
    let r = store.query_range("GBPUSD", 0, u64::MAX);
    assert_eq!(r.unwrap_err(), FxError::UnknownSymbol);
}

#[test]
fn test_malformed_row_skipped() {
    let mut store = FxStore::new();
    let rows = vec![
        row("garbage", "1.0", "1"),
        row("20230101 120000", "1.23456", "5"),
        row("20230101 120100", "oops", "5"),
    ];
    store.import_rows("EURUSD", &rows).unwrap();
    let out = store
        .query_range("EURUSD", ts(DAY_20230101, 0, 0), ts(DAY_20230101, 23, 59))
        .unwrap();
    assert_eq!(out.len(), 1);
    assert_eq!(out[0].ts, ts(DAY_20230101, 12, 0));
    assert_eq!(out[0].open, 123456);
    assert_eq!(out[0].volume, 5);
}

#[test]
fn test_reimport_replaces_block() {
    let mut store = FxStore::new();
    store
        .import_rows("EURUSD", &vec![row("20230101 120000", "1.0", "1")])
        .unwrap();
    store
        .import_rows("EURUSD", &vec![row("20230101 120000", "2.0", "9")])
        .unwrap();
    let out = store
        .query_range("EURUSD", ts(DAY_20230101, 0, 0), ts(DAY_20230101, 23, 59))
        .unwrap();
    assert_eq!(out.len(), 1);
    assert_eq!(out[0].open, 200000);
    assert_eq!(out[0].volume, 9);
    // Re-registering the same ticker does not add a second entry.
    assert_eq!(store.get_symbols().len(), 1);
}

#[test]
fn test_last_write_wins_within_minute() {
    let mut store = FxStore::new();
    let rows = vec![
        row("20230101 120000", "1.0", "1"),
        row("20230101 120030", "2.0", "2"),
    ];
    store.import_rows("EURUSD", &rows).unwrap();
    let out = store
        .query_range("EURUSD", ts(DAY_20230101, 0, 0), ts(DAY_20230101, 23, 59))
        .unwrap();
    assert_eq!(out.len(), 1);
    assert_eq!(out[0].volume, 2);
}

#[test]
fn test_multi_day_import_and_query() {
    let mut store = FxStore::new();
    let rows = vec![
        row("20230101 230000", "1.1", "1"),
        row("20230102 010000", "1.2", "2"),
    ];
    store.import_rows("EURUSD", &rows).unwrap();
    let out = store
        .query_range(
            "EURUSD",
            ts(DAY_20230101, 0, 0),
            ts(DAY_20230101 + 86400, 23, 59),
        )
        .unwrap();
    assert_eq!(out.len(), 2);
    assert_eq!(out[0].open, 110000);
    assert_eq!(out[1].open, 120000);
    assert!(out[0].ts < out[1].ts);
}

#[test]
fn test_date_label_of_day() {
    // 2023-01-01 is epoch day 19358; 1970-01-01 is day 0.
    assert_eq!(date_label_of_day(19358), 20230101);
    assert_eq!(date_label_of_day(0), 19700101);
}
