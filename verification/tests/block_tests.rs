use fx_store::block::CompressedBlock;
use fx_store::types::OHLCV;

#[test]
fn test_block_compression() {
    let mut records = Vec::new();
    // Create a dummy record at 12:00:00 (720th minute)
    // 2023-01-01 12:00:00 = 1672574400
    let ts = 1672574400 * 1_000_000_000;
    let rec = OHLCV {
        ts,
        open: 100000,
        high: 100000,
        low: 100000,
        close: 100000,
        volume: 100,
        symbol_id: 1,
        _pad: [0; 10],
    };
    records.push(rec);

    let block = CompressedBlock::new(20230101, 1, &records);

    // Decompress and verify
    let decompressed = block.decompress();

    // 12:00 is the 720th minute of the day
    let target_idx = 720;
    let ts_val = decompressed[target_idx].ts;
    let vol_val = decompressed[target_idx].volume;

    assert_eq!(ts_val, ts);
    assert_eq!(vol_val, 100);

    // Verify empty slot is default
    let empty_ts = decompressed[0].ts;
    assert_eq!(empty_ts, 0);
}

#[test]
fn test_block_round_trip_bit_identical() {
    let ts = (1672531200 + 3 * 3600 + 25 * 60) * 1_000_000_000 + 123456789;
    let rec = OHLCV {
        ts,
        open: 123456,
        high: 123499,
        low: 123400,
        close: 123450,
        volume: 42,
        symbol_id: 7,
        _pad: [1, 2, 3, 4, 5, 6, 7, 8, 9, 10],
    };
    let block = CompressedBlock::new(20230101, 7, &vec![rec]);
    let grid = block.decompress();
    // minute-of-day of 03:25 is 205
    let got = grid[205];
    assert_eq!(got.ts, rec.ts);
    assert_eq!(got.open, rec.open);
    assert_eq!(got.high, rec.high);
    assert_eq!(got.low, rec.low);
    assert_eq!(got.close, rec.close);
    assert_eq!(got.volume, rec.volume);
    assert_eq!(got.symbol_id, rec.symbol_id);
    assert_eq!(got._pad, rec._pad);
    assert_eq!(block.date(), 20230101);
    assert_eq!(block.symbol_id(), 7);
}

#[test]
fn test_all_empty_slots_are_sentinel() {
    let ts = 1672574400 * 1_000_000_000u64;
    let rec = OHLCV {
        ts,
        open: 5,
        high: 5,
        low: 5,
        close: 5,
        volume: 5,
        symbol_id: 3,
        _pad: [0; 10],
    };
    let block = CompressedBlock::new(20230101, 3, &vec![rec]);
    let grid = block.decompress();
    assert_eq!(grid.len(), 1440);
    for (i, slot) in grid.iter().enumerate() {
        if i == 720 {
            continue;
        }
        assert_eq!(slot.ts, 0);
        assert_eq!(slot.open, 0);
        assert_eq!(slot.high, 0);
        assert_eq!(slot.low, 0);
        assert_eq!(slot.close, 0);
        assert_eq!(slot.volume, 0);
    }
}

#[test]
fn test_last_write_wins() {
    let ts = 1672574400 * 1_000_000_000u64;
    let mut a = OHLCV::default();
    a.ts = ts;
    a.volume = 1;
    let mut b = OHLCV::default();
    b.ts = ts + 30 * 1_000_000_000;  // same minute
    b.volume = 2;
    let block = CompressedBlock::new(20230101, 0, &vec![a, b]);
    let grid = block.decompress();
    assert_eq!(grid[720].volume, 2);
}

#[test]
fn test_repeated_decompress_identical() {
    let ts = 1672574400 * 1_000_000_000u64;
    let mut rec = OHLCV::default();
    rec.ts = ts;
    rec.open = 99;
    let block = CompressedBlock::new(20230101, 0, &vec![rec]);
    let first = block.decompress();  // cold: fills the cache
    let second = block.decompress();  // warm: served from the cache
    assert_eq!(first.len(), second.len());
    for i in 0..first.len() {
        assert_eq!(first[i].ts, second[i].ts);
        assert_eq!(first[i].open, second[i].open);
        assert_eq!(first[i].high, second[i].high);
        assert_eq!(first[i].low, second[i].low);
        assert_eq!(first[i].close, second[i].close);
        assert_eq!(first[i].volume, second[i].volume);
        assert_eq!(first[i].symbol_id, second[i].symbol_id);
        assert_eq!(first[i]._pad, second[i]._pad);
    }
}

#[test]
fn test_compression_shrinks_sparse_grid() {
    let block = CompressedBlock::new(20230101, 0, &Vec::new());
    // The serialized grid is 57600 bytes; a real compressor shrinks the
    // all-zero grid far below that.
    assert!(block.compressed_size() < 57600);
    assert!(block.compressed_size() > 0);
}
