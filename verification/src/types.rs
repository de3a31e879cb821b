//! The fixed-width OHLCV record, the symbol metadata record, and record
//! construction from ingestion-row text.

use vstd::prelude::*;
use vstd::string::StringSliceAdditionalSpecFns;
use crate::text::{price_of_bytes, u32_of_bytes};

verus! {

broadcast use vstd::array::axiom_array_ext_equal;

/// The error kinds the library surfaces.
#[derive(Copy, Clone, Debug, PartialEq, Eq, Structural)]
pub enum FxError {
    /// Malformed date-time or numeric text during record construction.
    ParseError,
    /// Corrupt or size-inconsistent compressed block on decompression.
    DecodeError,
    /// Query against an unregistered ticker.
    UnknownSymbol,
    /// Structural failure of an ingestion source.
    ImportError,
}

/// One minute's OHLCV bar for one symbol: 40 bytes of fixed layout.
/// Prices are 5-decimal fixed point (price times 100000, truncated).
/// The all-zero value is the sentinel meaning "no bar for this minute".
#[derive(Copy, Clone, Debug)]
pub struct OHLCV {
    /// Epoch nanoseconds, UTC.
    pub ts: u64,
    pub open: u32,
    pub high: u32,
    pub low: u32,
    pub close: u32,
    pub volume: u32,
    pub symbol_id: u16,
    /// Padding to reach exactly 40 bytes.
    pub _pad: [u8; 10],
}

/// Nanoseconds in one UTC day.
pub const DAY_NANOS: u64 = 86400000000000;

/// The all-zero sentinel record.
pub open spec fn spec_sentinel() -> OHLCV {
    OHLCV {
        ts: 0,
        open: 0,
        high: 0,
        low: 0,
        close: 0,
        volume: 0,
        symbol_id: 0,
        _pad: [0u8, 0u8, 0u8, 0u8, 0u8, 0u8, 0u8, 0u8, 0u8, 0u8],
    }
}

/// Minute-of-day slot of a timestamp: an integer in [0, 1440).
pub open spec fn spec_minute_of_day(ts: u64) -> int {
    ((ts as int / 1000000000) % 86400) / 60
}

/// Day number of a timestamp (whole UTC days since the epoch).
pub open spec fn spec_day_of(ts: u64) -> int {
    ts as int / DAY_NANOS as int
}

/// What `NaiveDateTime::parse_from_str` with format `"%Y%m%d %H%M%S"`
/// followed by `timestamp_nanos_opt` yields for the given text: the
/// outcome depends on the text alone.
pub uninterp spec fn dt_nanos_of(s: Seq<char>) -> Option<i64>;

/// Relies on chrono's `NaiveDateTime::parse_from_str` (format
/// `"%Y%m%d %H%M%S"`), `and_utc` and `DateTime::timestamp_nanos_opt`:
/// parsing a naive UTC date-time is a pure function of the text.
#[verifier::external_body]
fn parse_datetime_nanos(dt: &str) -> (r: Option<i64>)
    ensures
        r == dt_nanos_of(dt@),
{
    match chrono::NaiveDateTime::parse_from_str(dt, "%Y%m%d %H%M%S") {
        Ok(d) => d.and_utc().timestamp_nanos_opt(),
        Err(_) => None,
    }
}

/// Whether record construction succeeds on these text fields: the
/// date-time must parse to a nonnegative epoch and each price must be
/// well-formed fixed-point text in 32-bit range.
pub open spec fn from_fx_ok(dt: Seq<char>, o: Seq<u8>, h: Seq<u8>, l: Seq<u8>, c: Seq<u8>) -> bool {
    &&& dt_nanos_of(dt) matches Some(n) && n >= 0
    &&& price_of_bytes(o) is Some
    &&& price_of_bytes(h) is Some
    &&& price_of_bytes(l) is Some
    &&& price_of_bytes(c) is Some
}

impl OHLCV {
    /// The all-zero sentinel record.
    pub fn sentinel() -> (r: OHLCV)
        ensures
            r == spec_sentinel(),
    {
        let pad: [u8; 10] = [0u8, 0u8, 0u8, 0u8, 0u8, 0u8, 0u8, 0u8, 0u8, 0u8];
        proof {
            assert(pad =~= spec_sentinel()._pad);
        }
        OHLCV {
            ts: 0,
            open: 0,
            high: 0,
            low: 0,
            close: 0,
            volume: 0,
            symbol_id: 0,
            _pad: pad,
        }
    }

    /// Build a record from ingestion-row text: a UTC date-time of form
    /// `"YYYYMMDD HHMMSS"` and four prices as decimal text, converted to
    /// 5-decimal fixed point by truncation. Fails with `ParseError` when
    /// the date-time is malformed or maps to a negative epoch, and when a
    /// price is malformed or its fixed-point form exceeds 32 bits.
    pub fn from_fx(dt: &str, o: &str, h: &str, l: &str, c: &str, v: u32, sym: u16) -> (r: Result<
        OHLCV,
        FxError,
    >)
        ensures
            r is Ok <==> from_fx_ok(dt@, o.spec_bytes(), h.spec_bytes(), l.spec_bytes(),
                c.spec_bytes()),
            r matches Ok(rec) ==> {
                &&& Some(rec.ts as i64) == dt_nanos_of(dt@)
                &&& price_of_bytes(o.spec_bytes()) == Some(rec.open)
                &&& price_of_bytes(h.spec_bytes()) == Some(rec.high)
                &&& price_of_bytes(l.spec_bytes()) == Some(rec.low)
                &&& price_of_bytes(c.spec_bytes()) == Some(rec.close)
                &&& rec.volume == v
                &&& rec.symbol_id == sym
                &&& rec._pad == spec_sentinel()._pad
            },
            r matches Err(e) ==> e == FxError::ParseError,
    {
        let n: i64 = match parse_datetime_nanos(dt) {
            Some(n) => n,
            None => { return Err(FxError::ParseError) },
        };
        if n < 0 {
            return Err(FxError::ParseError);
        }
        let open: u32 = match crate::text::parse_price(o) {
            Some(p) => p,
            None => { return Err(FxError::ParseError) },
        };
        let high: u32 = match crate::text::parse_price(h) {
            Some(p) => p,
            None => { return Err(FxError::ParseError) },
        };
        let low: u32 = match crate::text::parse_price(l) {
            Some(p) => p,
            None => { return Err(FxError::ParseError) },
        };
        let close: u32 = match crate::text::parse_price(c) {
            Some(p) => p,
            None => { return Err(FxError::ParseError) },
        };
        let mut rec = OHLCV::sentinel();
        rec.ts = n as u64;
        rec.open = open;
        rec.high = high;
        rec.low = low;
        rec.close = close;
        rec.volume = v;
        rec.symbol_id = sym;
        Ok(rec)
    }

    /// The stored fixed-point integer of the chosen price field; the
    /// quoted price is this value divided by 100000.
    pub fn price_raw(&self, field: PriceField) -> (r: u32)
        ensures
            r == spec_price_field(*self, field),
    {
        match field {
            PriceField::Open => self.open,
            PriceField::High => self.high,
            PriceField::Low => self.low,
            PriceField::Close => self.close,
        }
    }

    /// Minute-of-day slot of this record's timestamp.
    pub fn minute_of_day(&self) -> (r: usize)
        ensures
            r == spec_minute_of_day(self.ts),
            0 <= r < 1440,
    {
        (((self.ts / 1000000000) % 86400) / 60) as usize
    }
}

impl Default for OHLCV {
    /// The default record is the sentinel.
    fn default() -> (r: OHLCV)
        ensures
            r == spec_sentinel(),
    {
        OHLCV::sentinel()
    }
}

/// Selects one of the four price fields of a record.
#[derive(Copy, Clone, PartialEq, Eq, Structural)]
pub enum PriceField {
    Open,
    High,
    Low,
    Close,
}

pub open spec fn spec_price_field(rec: OHLCV, field: PriceField) -> u32 {
    match field {
        PriceField::Open => rec.open,
        PriceField::High => rec.high,
        PriceField::Low => rec.low,
        PriceField::Close => rec.close,
    }
}

/// Symbol metadata: a ticker name and its dense identifier.
#[derive(Clone, Debug)]
pub struct Symbol {
    pub id: u16,
    pub name: String,
    pub base: String,
    pub quote: String,
}

} // verus!
