//! In-memory store of per-minute OHLCV price bars, packed day by day
//! into compressed fixed-grid blocks and indexed by symbol and date.

pub mod block;
pub mod codec;
pub mod store;
pub mod text;
pub mod types;
