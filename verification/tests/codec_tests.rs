use fx_store::codec::{deserialize_grid, serialize_grid};
use fx_store::types::{FxError, OHLCV};

#[test]
fn test_deserialize_short_input_is_decode_error() {
    let r = deserialize_grid(&Vec::new());
    assert_eq!(r.unwrap_err(), FxError::DecodeError);
    let r = deserialize_grid(&vec![0u8; 57599]);
    assert_eq!(r.unwrap_err(), FxError::DecodeError);
}

#[test]
fn test_serialize_deserialize_round_trip() {
    let mut grid = vec![OHLCV::default(); 1440];
    grid[7] = OHLCV {
        ts: 0x0102030405060708,
        open: 1,
        high: 2,
        low: 3,
        close: 4,
        volume: 5,
        symbol_id: 6,
        _pad: [9; 10],
    };
    let bytes = serialize_grid(&grid);
    assert_eq!(bytes.len(), 57600);
    // Little-endian layout: slot 7 starts at byte 280 with the timestamp.
    assert_eq!(bytes[280], 0x08);
    assert_eq!(bytes[287], 0x01);
    let back = deserialize_grid(&bytes).unwrap();
    assert_eq!(back.len(), 1440);
    assert_eq!(back[7].ts, grid[7].ts);
    assert_eq!(back[7].open, 1);
    assert_eq!(back[7].symbol_id, 6);
    assert_eq!(back[7]._pad, [9; 10]);
    assert_eq!(back[0].ts, 0);
}
