//! The store: a symbol registry and an index of compressed day blocks
//! keyed by symbol and day, with row ingestion and range queries.

use vstd::prelude::*;
use vstd::string::StringSliceAdditionalSpecFns;
use vstd::utf8::encode_utf8;
use std::collections::HashMap;
use chrono::Datelike;
use crate::block::{
    lemma_build_grid_slot, spec_build_grid, spec_slot_winner, CompressedBlock,
};
use crate::codec::GRID_SLOTS;
use crate::text::{price_of_bytes, u32_of_bytes};
use crate::types::{
    dt_nanos_of, spec_day_of, spec_minute_of_day, spec_sentinel, FxError, Symbol, DAY_NANOS, OHLCV,
};

verus! {

broadcast use vstd::std_specs::hash::group_hash_axioms, vstd::seq_lib::group_filter_ensures;

/// Index key of one (symbol, day) block: the day number occupies the
/// low 32 bits, the symbol id the bits above them.
pub open spec fn spec_key(sym: u16, day: u64) -> u64
    recommends
        day < 0x100000000,
{
    (((sym as int) * 0x100000000 + day as int) as u64)
}

/// A minute slot may hold only the sentinel or a bar of this day whose
/// timestamp maps back to this very slot.
pub open spec fn slot_ok(rec: OHLCV, i: int, day: int) -> bool {
    rec.ts != 0 ==> spec_day_of(rec.ts) == day && spec_minute_of_day(rec.ts) == i
}

/// What the store's invariant demands of a block stored under key `k`.
pub open spec fn block_key_ok(b: CompressedBlock, k: u64) -> bool {
    &&& b@.len() == GRID_SLOTS
    &&& forall|i: int| 0 <= i < b@.len() ==> slot_ok(#[trigger] b@[i], i, (k as int) % 0x100000000)
}

/// `names` holds `name` somewhere.
pub open spec fn contains_name(names: Seq<Seq<char>>, name: Seq<char>) -> bool {
    exists|j: int| 0 <= j < names.len() && names[j] == name
}

/// The id `name` resolves to: its index when present, the next free id
/// otherwise.
pub open spec fn spec_resolve_id(names: Seq<Seq<char>>, name: Seq<char>) -> int {
    if contains_name(names, name) {
        choose|j: int| 0 <= j < names.len() && names[j] == name
    } else {
        names.len() as int
    }
}

/// One ingestion row, already split into text fields by the reader:
/// a date-time `"YYYYMMDD HHMMSS"`, four decimal prices, and a volume.
pub struct RawRow {
    pub dt: String,
    pub open: String,
    pub high: String,
    pub low: String,
    pub close: String,
    pub volume: String,
}

/// The record a row parses to for symbol id `sym`, or `None` when any
/// field is malformed.
pub open spec fn spec_row_rec(row: RawRow, sym: u16) -> Option<OHLCV> {
    match (
        dt_nanos_of(row.dt@),
        price_of_bytes(encode_utf8(row.open@)),
        price_of_bytes(encode_utf8(row.high@)),
        price_of_bytes(encode_utf8(row.low@)),
        price_of_bytes(encode_utf8(row.close@)),
        u32_of_bytes(encode_utf8(row.volume@)),
    ) {
        (Some(n), Some(o), Some(h), Some(l), Some(c), Some(v)) => if n >= 0 {
            Some(
                OHLCV {
                    ts: n as u64,
                    open: o,
                    high: h,
                    low: l,
                    close: c,
                    volume: v,
                    symbol_id: sym,
                    _pad: spec_sentinel()._pad,
                },
            )
        } else {
            None
        },
        _ => None,
    }
}

/// The records a row sequence parses to, in row order, malformed rows
/// skipped.
pub open spec fn spec_rows_records(rows: Seq<RawRow>, sym: u16) -> Seq<OHLCV>
    decreases rows.len(),
{
    if rows.len() == 0 {
        Seq::empty()
    } else {
        let rest = spec_rows_records(rows.drop_last(), sym);
        match spec_row_rec(rows.last(), sym) {
            Some(r) => rest.push(r),
            None => rest,
        }
    }
}

/// The records of one UTC day, in their original order.
pub open spec fn spec_day_records(recs: Seq<OHLCV>, day: int) -> Seq<OHLCV> {
    recs.filter(|r: OHLCV| spec_day_of(r.ts) == day)
}

/// Day number of a timestamp, as a machine word.
pub open spec fn spec_day_u64(ts: u64) -> u64 {
    ((ts as int / DAY_NANOS as int) as u64)
}

/// Key `k` maps to the same entry in `g1` as in `g0`.
pub open spec fn untouched_at(g0: Map<u64, Seq<OHLCV>>, g1: Map<u64, Seq<OHLCV>>, k: u64) -> bool {
    &&& g1.contains_key(k) == g0.contains_key(k)
    &&& g0.contains_key(k) ==> g1[k] == g0[k]
}

/// What a successful import leaves behind: the symbol resolved or
/// registered, one freshly built block per day that has records, and
/// every other index entry untouched.
pub open spec fn import_post(pre: FxStore, post: FxStore, symbol: Seq<char>, rows: Seq<RawRow>) -> bool {
    let id = spec_resolve_id(pre.names(), symbol) as u16;
    let recs = spec_rows_records(rows, id);
    &&& if contains_name(pre.names(), symbol) {
        post.names() == pre.names()
    } else {
        post.names() == pre.names().push(symbol)
    }
    &&& forall|d: u64|
        #[trigger] spec_day_records(recs, d as int).len() > 0 ==> post.grids().contains_key(
            spec_key(id, d),
        ) && post.grids()[spec_key(id, d)] == spec_build_grid(spec_day_records(recs, d as int))
    &&& forall|k: u64|
        !(exists|d: u64| spec_day_records(recs, d as int).len() > 0 && k == spec_key(id, d))
            ==> #[trigger] untouched_at(pre.grids(), post.grids(), k)
}

/// The non-sentinel records of a grid whose timestamps lie within
/// `[start, end]`, in ascending slot order.
pub open spec fn spec_grid_slice(g: Seq<OHLCV>, start: u64, end: u64) -> Seq<OHLCV> {
    g.filter(|r: OHLCV| r.ts != 0 && start <= r.ts <= end)
}

/// What a range query emits over the days `[d0, d)`: each day's slice
/// of its indexed block, days ascending.
pub open spec fn spec_query_upto(
    s: FxStore,
    id: u16,
    start: u64,
    end: u64,
    d0: int,
    d: int,
) -> Seq<OHLCV>
    decreases d - d0,
{
    if d <= d0 {
        Seq::empty()
    } else {
        let k = spec_key(id, (d - 1) as u64);
        spec_query_upto(s, id, start, end, d0, d - 1) + (if s.grids().contains_key(k) {
            spec_grid_slice(s.grids()[k], start, end)
        } else {
            Seq::empty()
        })
    }
}

/// The whole result of a range query for symbol `id`.
pub open spec fn spec_query(s: FxStore, id: u16, start: u64, end: u64) -> Seq<OHLCV> {
    spec_query_upto(s, id, start, end, spec_day_of(start), spec_day_of(end) + 1)
}

/// Some record of `recs` falls on day `d`.
pub open spec fn day_witnessed(recs: Seq<OHLCV>, d: u64) -> bool {
    exists|j: int| 0 <= j < recs.len() && d == spec_day_u64(#[trigger] recs[j].ts)
}

/// Parse one row into a record for symbol id `sym`.
pub fn row_to_rec(row: &RawRow, sym: u16) -> (r: Option<OHLCV>)
    ensures
        r == spec_row_rec(*row, sym),
{
    let v: u32 = match crate::text::parse_u32(row.volume.as_str()) {
        Some(v) => v,
        None => { return None },
    };
    match OHLCV::from_fx(
        row.dt.as_str(),
        row.open.as_str(),
        row.high.as_str(),
        row.low.as_str(),
        row.close.as_str(),
        v,
        sym,
    ) {
        Ok(rec) => {
            proof {
                let ghost t = rec.ts;
                assert(t as i64 >= 0 ==> ((t as i64) as u64) == t) by (bit_vector);
            }
            Some(rec)
        },
        Err(_) => None,
    }
}

/// Parse every row, skipping malformed ones.
fn rows_to_records(rows: &Vec<RawRow>, sym: u16) -> (r: Vec<OHLCV>)
    ensures
        r@ == spec_rows_records(rows@, sym),
{
    let n: usize = rows.len();
    let mut out: Vec<OHLCV> = Vec::new();
    let mut i: usize = 0;
    while i < n
        invariant
            0 <= i <= n,
            n == rows@.len(),
            out@ == spec_rows_records(rows@.take(i as int), sym),
        decreases n - i,
    {
        proof {
            assert(rows@.take(i + 1).drop_last() =~= rows@.take(i as int));
            assert(rows@.take(i + 1).last() == rows@[i as int]);
        }
        match row_to_rec(&rows[i], sym) {
            Some(rec) => {
                out.push(rec);
            },
            None => {},
        }
        i = i + 1;
    }
    proof {
        assert(rows@.take(n as int) =~= rows@);
    }
    out
}

/// Collect the records of one day, keeping their order.
fn collect_day_records(recs: &Vec<OHLCV>, day: u64) -> (r: Vec<OHLCV>)
    ensures
        r@ == spec_day_records(recs@, day as int),
{
    let n: usize = recs.len();
    let mut out: Vec<OHLCV> = Vec::new();
    let mut i: usize = 0;
    while i < n
        invariant
            0 <= i <= n,
            n == recs@.len(),
            out@ == spec_day_records(recs@.take(i as int), day as int),
        decreases n - i,
    {
        proof {
            reveal(Seq::filter);
            assert(recs@.take(i + 1).drop_last() =~= recs@.take(i as int));
            assert(recs@.take(i + 1).last() == recs@[i as int]);
        }
        let rec: OHLCV = recs[i];
        if rec.ts / DAY_NANOS == day {
            out.push(rec);
        }
        i = i + 1;
    }
    proof {
        assert(recs@.take(n as int) =~= recs@);
    }
    out
}

/// Whether `v` holds `x`.
fn vec_contains_u64(v: &Vec<u64>, x: u64) -> (b: bool)
    ensures
        b == v@.contains(x),
{
    let n: usize = v.len();
    let mut i: usize = 0;
    while i < n
        invariant
            0 <= i <= n,
            n == v@.len(),
            forall|j: int| 0 <= j < i ==> v@[j] != x,
        decreases n - i,
    {
        if v[i] == x {
            return true;
        }
        i = i + 1;
    }
    false
}

/// The distinct day numbers occurring among the records.
fn collect_days(recs: &Vec<OHLCV>) -> (days: Vec<u64>)
    ensures
        forall|a: int, b: int| 0 <= a < b < days@.len() ==> days@[a] != days@[b],
        forall|j: int| 0 <= j < recs@.len() ==> days@.contains(spec_day_u64(#[trigger] recs@[j].ts)),
        forall|a: int| 0 <= a < days@.len() ==> day_witnessed(recs@, #[trigger] days@[a]),
{
    let n: usize = recs.len();
    let mut days: Vec<u64> = Vec::new();
    let mut i: usize = 0;
    while i < n
        invariant
            0 <= i <= n,
            n == recs@.len(),
            forall|a: int, b: int| 0 <= a < b < days@.len() ==> days@[a] != days@[b],
            forall|j: int| 0 <= j < i ==> days@.contains(spec_day_u64(#[trigger] recs@[j].ts)),
            forall|a: int|
                0 <= a < days@.len() ==> day_witnessed(recs@.take(i as int), #[trigger] days@[a]),
        decreases n - i,
    {
        let d: u64 = recs[i].ts / DAY_NANOS;
        let present: bool = vec_contains_u64(&days, d);
        let ghost olddays = days@;
        if !present {
            days.push(d);
        }
        proof {
            assert(days@.contains(d)) by {
                if present {
                    let idx = choose|idx: int| 0 <= idx < olddays.len() && olddays[idx] == d;
                    assert(days@[idx] == d);
                } else {
                    assert(days@[days@.len() - 1] == d);
                }
            }
            assert forall|j: int| 0 <= j < i + 1 implies days@.contains(
                spec_day_u64(#[trigger] recs@[j].ts),
            ) by {
                if j < i {
                    let idx = choose|idx: int|
                        0 <= idx < olddays.len() && olddays[idx] == spec_day_u64(recs@[j].ts);
                    assert(days@[idx] == spec_day_u64(recs@[j].ts));
                } else {
                    assert(spec_day_u64(recs@[j].ts) == d);
                }
            }
            assert forall|a: int| 0 <= a < days@.len() implies day_witnessed(
                recs@.take(i + 1),
                #[trigger] days@[a],
            ) by {
                if a < olddays.len() {
                    let j = choose|j: int|
                        0 <= j < recs@.take(i as int).len() && olddays[a] == spec_day_u64(
                            #[trigger] recs@.take(i as int)[j].ts,
                        );
                    assert(recs@.take(i + 1)[j] == recs@.take(i as int)[j]);
                    assert(days@[a] == spec_day_u64(recs@.take(i + 1)[j].ts));
                } else {
                    assert(recs@.take(i + 1)[i as int] == recs@[i as int]);
                    assert(days@[a] == spec_day_u64(recs@.take(i + 1)[i as int].ts));
                }
            }
            assert forall|a: int, b: int| 0 <= a < b < days@.len() implies days@[a] != days@[b] by {
                if b < olddays.len() {
                } else if !present && b == days@.len() - 1 {
                    assert(!olddays.contains(d));
                    assert(days@[a] == olddays[a]);
                }
            }
        }
        i = i + 1;
    }
    proof {
        assert(recs@.take(n as int) =~= recs@);
    }
    days
}

/// A timestamp's day number is at most 213503 (the last whole day a
/// 64-bit nanosecond clock can reach).
proof fn lemma_day_bound(ts: u64)
    ensures
        spec_day_u64(ts) <= 213503,
        spec_day_u64(ts) as int == spec_day_of(ts),
{
    assert(ts as int / DAY_NANOS as int <= u64::MAX as int / DAY_NANOS as int) by (nonlinear_arith)
        requires
            0 <= ts as int <= u64::MAX as int,
            DAY_NANOS as int > 0,
    ;
}

/// A day with records has a record of that day.
proof fn lemma_day_present(recs: Seq<OHLCV>, d: int)
    requires
        spec_day_records(recs, d).len() > 0,
    ensures
        exists|j: int| 0 <= j < recs.len() && spec_day_of(#[trigger] recs[j].ts) == d,
    decreases recs.len(),
{
    reveal(Seq::filter);
    if recs.len() > 0 {
        if spec_day_of(recs.last().ts) == d {
            assert(recs[recs.len() - 1] == recs.last());
        } else {
            assert(spec_day_records(recs.drop_last(), d) == spec_day_records(recs, d));
            lemma_day_present(recs.drop_last(), d);
            let j = choose|j: int|
                0 <= j < recs.drop_last().len() && spec_day_of(#[trigger] recs.drop_last()[j].ts)
                    == d;
            assert(recs[j] == recs.drop_last()[j]);
        }
    }
}

/// A record of day `d` makes that day's record list nonempty.
proof fn lemma_day_in_records(recs: Seq<OHLCV>, j: int, d: int)
    requires
        0 <= j < recs.len(),
        spec_day_of(recs[j].ts) == d,
    ensures
        spec_day_records(recs, d).len() > 0,
{
    assert(spec_day_records(recs, d).contains(recs[j]));
}

/// The civil UTC date (year, month, day-of-month) that chrono's
/// `DateTime::from_timestamp` followed by the `Datelike` accessors
/// reports for an epoch second: a pure function of the argument.
pub uninterp spec fn civil_of(secs: i64) -> (u32, u32, u32);

/// Relies on chrono's `DateTime::from_timestamp` and the `Datelike`
/// accessors: a nonnegative epoch second within the first 213504 days
/// maps to exactly its civil date, no earlier than 1970 and no later
/// than 2554, with month in 1..=12 and day-of-month in 1..=31.
#[verifier::external_body]
fn civil_of_epoch_secs(secs: i64) -> (r: (u32, u32, u32))
    requires
        0 <= secs < 213504 * 86400,
    ensures
        r == civil_of(secs),
        1970 <= r.0 <= 2555,
        1 <= r.1 <= 12,
        1 <= r.2 <= 31,
{
    match chrono::DateTime::from_timestamp(secs, 0) {
        Some(d) => (d.year() as u32, d.month(), d.day()),
        None => (1970, 1, 1),
    }
}

/// The YYYYMMDD label of an epoch day number, composed from the civil
/// date of the day's first second.
pub open spec fn spec_date_label(day: u64) -> u32 {
    let c = civil_of(((day * 86400) as i64));
    (((c.0 * 10000 + c.1 * 100 + c.2) as int) as u32)
}

/// The YYYYMMDD label of an epoch day number.
pub fn date_label_of_day(day: u64) -> (r: u32)
    requires
        day <= 213503,
    ensures
        r == spec_date_label(day),
        19700101 <= r <= 25551231,
{
    let secs: i64 = (day * 86400) as i64;
    let (y, m, d) = civil_of_epoch_secs(secs);
    y * 10000 + m * 100 + d
}

/// The symbol registry and block index.
pub struct FxStore {
    symbols: Vec<Symbol>,
    index: HashMap<u64, CompressedBlock>,
}

impl FxStore {
    /// Ticker names in registration order.
    pub closed spec fn names(self) -> Seq<Seq<char>> {
        Seq::new(self.symbols@.len() as nat, |i: int| self.symbols@[i].name@)
    }

    /// The logical contents of the block index: each key's decoded grid.
    pub closed spec fn grids(self) -> Map<u64, Seq<OHLCV>> {
        self.index@.map_values(|b: CompressedBlock| b@)
    }

    /// Well-formedness: ids are dense in registration order, names are
    /// unique, and every indexed block holds only bars of its own day,
    /// each in its own minute slot.
    pub closed spec fn wf(self) -> bool {
        &&& self.symbols@.len() <= 0x10000
        &&& forall|i: int|
            0 <= i < self.symbols@.len() ==> (#[trigger] self.symbols@[i]).id as int == i
        &&& forall|i: int, j: int|
            0 <= i < j < self.symbols@.len() ==> self.symbols@[i].name@ != self.symbols@[j].name@
        &&& forall|k: u64|
            self.index@.contains_key(k) ==> block_key_ok(#[trigger] self.index@[k], k)
    }

    /// A fresh, empty store.
    pub fn new() -> (s: FxStore)
        ensures
            s.wf(),
            s.names() == Seq::<Seq<char>>::empty(),
            s.grids() == Map::<u64, Seq<OHLCV>>::empty(),
    {
        let s = FxStore { symbols: Vec::new(), index: HashMap::new() };
        proof {
            assert(s.names() =~= Seq::<Seq<char>>::empty());
            assert(s.grids() =~= Map::<u64, Seq<OHLCV>>::empty());
        }
        s
    }

    /// Find a registered ticker's id by name.
    pub fn find_symbol(&self, name: &str) -> (r: Option<u16>)
        requires
            self.wf(),
        ensures
            r matches Some(id) ==> 0 <= id < self.names().len() && self.names()[id as int]
                == name@,
            r is None ==> !contains_name(self.names(), name@),
    {
        let owned: String = name.to_owned();
        let n: usize = self.symbols.len();
        let mut i: usize = 0;
        while i < n
            invariant
                0 <= i <= n,
                n == self.symbols@.len(),
                self.wf(),
                owned@ == name@,
                forall|j: int| 0 <= j < i ==> self.names()[j] != name@,
        decreases n - i,
        {
            if owned == self.symbols[i].name {
                let id: u16 = self.symbols[i].id;
                return Some(id);
            }
            i = i + 1;
        }
        None
    }

    /// Resolve a ticker name to its dense id, registering it with the
    /// next free id on first sight. Fails with `ImportError` only when
    /// the id space (65536 symbols) is exhausted.
    pub fn get_or_register(&mut self, name: &str) -> (r: Result<u16, FxError>)
        requires
            old(self).wf(),
        ensures
            final(self).wf(),
            final(self).grids() == old(self).grids(),
            r matches Ok(id) ==> {
                &&& id as int == spec_resolve_id(old(self).names(), name@)
                &&& if contains_name(old(self).names(), name@) {
                    final(self).names() == old(self).names()
                } else {
                    final(self).names() == old(self).names().push(name@)
                }
                &&& 0 <= id < final(self).names().len()
                &&& final(self).names()[id as int] == name@
            },
            r matches Err(e) ==> {
                &&& e == FxError::ImportError
                &&& !contains_name(old(self).names(), name@)
                &&& old(self).names().len() >= 0x10000
                &&& *final(self) == *old(self)
            },
    {
        match self.find_symbol(name) {
            Some(id) => {
                proof {
                    let j = choose|j: int|
                        0 <= j < old(self).names().len() && old(self).names()[j] == name@;
                    assert(old(self).names()[id as int] == name@);
                    assert(j == id as int);
                }
                Ok(id)
            },
            None => {
                if self.symbols.len() >= 0x10000 {
                    return Err(FxError::ImportError);
                }
                let id: u16 = self.symbols.len() as u16;
                let sym = Symbol {
                    id,
                    name: name.to_owned(),
                    base: String::new(),
                    quote: String::new(),
                };
                self.symbols.push(sym);
                proof {
                    assert(final(self).names() =~= old(self).names().push(name@));
                    assert(final(self).grids() =~= old(self).grids());
                    let ghost oldnames = old(self).names();
                    let ghost newsyms = final(self).symbols@;
                    assert forall|i2: int| 0 <= i2 < oldnames.len() implies oldnames[i2]
                        != name@ by {
                        assert(!contains_name(oldnames, name@));
                    }
                    assert forall|a: int, b: int| 0 <= a < b < newsyms.len() implies newsyms[a].name@
                        != newsyms[b].name@ by {
                        if b == newsyms.len() - 1 {
                            assert(oldnames[a] == newsyms[a].name@);
                        }
                    }
                }
                Ok(id)
            },
        }
    }

    /// Ingest already-split rows for one ticker: parse each row into a
    /// record (malformed rows are skipped, not fatal), group records by
    /// UTC day, build one compressed block per day, and insert or
    /// replace the index entry of that (symbol, day). The one failure,
    /// `ImportError`, reports an exhausted symbol table and happens
    /// before anything is written: a failed call leaves the store
    /// exactly as it was.
    #[verifier::rlimit(60)]
    pub fn import_rows(&mut self, symbol: &str, rows: &Vec<RawRow>) -> (r: Result<(), FxError>)
        requires
            old(self).wf(),
        ensures
            final(self).wf(),
            r is Ok <==> contains_name(old(self).names(), symbol@) || old(self).names().len()
                < 0x10000,
            r is Ok ==> import_post(*old(self), *final(self), symbol@, rows@),
            r matches Err(e) ==> e == FxError::ImportError && *final(self) == *old(self),
    {
        let id: u16 = match self.get_or_register(symbol) {
            Ok(id) => id,
            Err(_) => { return Err(FxError::ImportError) },
        };
        let ghost names1 = self.names();
        let ghost grids0 = self.grids();
        let recs: Vec<OHLCV> = rows_to_records(rows, id);
        let days: Vec<u64> = collect_days(&recs);
        let n: usize = days.len();
        let mut di: usize = 0;
        while di < n
            invariant
                self.wf(),
                n == days@.len(),
                0 <= di <= n,
                self.names() == names1,
                recs@ == spec_rows_records(rows@, id),
                forall|a: int, b: int| 0 <= a < b < n ==> days@[a] != days@[b],
                forall|j: int|
                    0 <= j < recs@.len() ==> days@.contains(spec_day_u64(
                        #[trigger] recs@[j].ts,
                    )),
                forall|a: int| 0 <= a < n ==> day_witnessed(recs@, #[trigger] days@[a]),
                forall|a: int|
                    0 <= a < di ==> self.grids().contains_key(
                        #[trigger] spec_key(id, days@[a]),
                    ) && self.grids()[spec_key(id, days@[a])] == spec_build_grid(spec_day_records(
                        recs@,
                        days@[a] as int,
                    )),
                forall|k: u64|
                    !(exists|a: int| 0 <= a < di && k == spec_key(id, days@[a]))
                        ==> #[trigger] untouched_at(grids0, self.grids(), k),
            decreases n - di,
        {
            let day: u64 = days[di];
            proof {
                assert(day_witnessed(recs@, day));
                let j = choose|j: int|
                    0 <= j < recs@.len() && day == spec_day_u64(#[trigger] recs@[j].ts);
                lemma_day_bound(recs@[j].ts);
            }
            let drecs: Vec<OHLCV> = collect_day_records(&recs, day);
            let label: u32 = date_label_of_day(day);
            let block: CompressedBlock = CompressedBlock::new(label, id, &drecs);
            let key: u64 = (id as u64) * 0x100000000 + day;
            let ghost prev = *self;
            proof {
                crate::block::lemma_build_grid_len(drecs@);
                assert forall|i: int| 0 <= i < block@.len() implies slot_ok(
                    #[trigger] block@[i],
                    i,
                    (key as int) % 0x100000000,
                ) by {
                    lemma_build_grid_slot(drecs@, i);
                    crate::block::lemma_slot_winner_source(drecs@, i);
                    assert((key as int) % 0x100000000 == day as int);
                    if block@[i].ts != 0 {
                        let w = spec_slot_winner(drecs@, i);
                        assert(w != spec_sentinel());
                        let j = choose|j: int|
                            0 <= j < drecs@.len() && drecs@[j] == w && spec_minute_of_day(
                                drecs@[j].ts,
                            ) == i;
                        assert(spec_day_of(drecs@[j].ts) == day as int);
                    }
                }
                assert(block_key_ok(block, key));
            }
            self.index.insert(key, block);
            proof {
                assert(self.grids() =~= prev.grids().insert(key, block@));
                assert forall|a: int|
                    0 <= a < di + 1 implies self.grids().contains_key(
                    #[trigger] spec_key(id, days@[a]),
                ) && self.grids()[spec_key(id, days@[a])] == spec_build_grid(spec_day_records(
                    recs@,
                    days@[a] as int,
                )) by {
                    if a < di {
                        assert(day_witnessed(recs@, days@[a]));
                        let jw = choose|jw: int|
                            0 <= jw < recs@.len() && days@[a] == spec_day_u64(
                                #[trigger] recs@[jw].ts,
                            );
                        lemma_day_bound(recs@[jw].ts);
                        assert(days@[a] != day);
                        assert(spec_key(id, days@[a]) != key);
                    }
                }
                assert(days@[di as int] == day);
                assert(key == spec_key(id, day));
                assert forall|k: u64|
                    !(exists|a: int| 0 <= a < di + 1 && k == spec_key(id, days@[a]))
                        implies #[trigger] untouched_at(grids0, self.grids(), k) by {
                    assert(k != spec_key(id, days@[di as int]));
                    assert(k != key);
                    assert(!(exists|a: int| 0 <= a < di && k == spec_key(id, days@[a])));
                    assert(untouched_at(grids0, prev.grids(), k));
                }
            }
            di = di + 1;
        }
        proof {
            assert(id == spec_resolve_id(old(self).names(), symbol@) as u16);
            assert(recs@ == spec_rows_records(rows@, spec_resolve_id(old(self).names(), symbol@) as u16));
            assert forall|d: u64| #[trigger] spec_day_records(recs@, d as int).len() > 0
                implies self.grids().contains_key(spec_key(id, d)) && self.grids()[spec_key(id, d)]
                == spec_build_grid(spec_day_records(recs@, d as int)) by {
                lemma_day_present(recs@, d as int);
                let j = choose|j: int|
                    0 <= j < recs@.len() && spec_day_of(recs@[j].ts) == d as int;
                lemma_day_bound(recs@[j].ts);
                assert(spec_day_u64(recs@[j].ts) == d);
                assert(days@.contains(d));
                let a = choose|a: int| 0 <= a < days@.len() && days@[a] == d;
            }
            assert(grids0 =~= old(self).grids());
            assert forall|k: u64|
                !(exists|d: u64|
                    spec_day_records(recs@, d as int).len() > 0 && k == spec_key(id, d))
                implies #[trigger] untouched_at(old(self).grids(), self.grids(), k) by {
                if exists|a: int| 0 <= a < n && k == #[trigger] spec_key(id, days@[a]) {
                    let a = choose|a: int| 0 <= a < n && k == #[trigger] spec_key(id, days@[a]);
                    let d = days@[a];
                    assert(day_witnessed(recs@, d));
                    let j = choose|j: int|
                        0 <= j < recs@.len() && d == spec_day_u64(#[trigger] recs@[j].ts);
                    lemma_day_bound(recs@[j].ts);
                    lemma_day_in_records(recs@, j, d as int);
                    assert(spec_day_records(recs@, d as int).len() > 0 && k == spec_key(id, d));
                    assert(false);
                } else {
                    assert(!(exists|a: int| 0 <= a < di && k == spec_key(id, days@[a])));
                    assert(untouched_at(grids0, self.grids(), k));
                }
            }
            assert(import_post(*old(self), *self, symbol@, rows@));
        }
        Ok(())
    }

    /// Resolve the symbol and emit, over every calendar day whose span
    /// intersects `[start_ts, end_ts]` in ascending day order, every
    /// non-sentinel record of that day's indexed block whose timestamp
    /// lies within the range (both bounds inclusive), in ascending
    /// minute order. Days without an indexed block contribute nothing;
    /// an empty result is not an error. Fails with `UnknownSymbol` if
    /// and only if the ticker is not registered.
    pub fn query_range(&self, symbol: &str, start_ts: u64, end_ts: u64) -> (r: Result<
        Vec<OHLCV>,
        FxError,
    >)
        requires
            self.wf(),
        ensures
            r is Ok <==> contains_name(self.names(), symbol@),
            r matches Err(e) ==> e == FxError::UnknownSymbol,
            r matches Ok(out) ==> out@ == spec_query(
                *self,
                spec_resolve_id(self.names(), symbol@) as u16,
                start_ts,
                end_ts,
            ),
    {
        let id: u16 = match self.find_symbol(symbol) {
            Some(id) => id,
            None => { return Err(FxError::UnknownSymbol) },
        };
        proof {
            let j = choose|j: int| 0 <= j < self.names().len() && self.names()[j] == symbol@;
            assert(j == id as int);
        }
        let d0: u64 = start_ts / DAY_NANOS;
        let d1: u64 = end_ts / DAY_NANOS;
        proof {
            lemma_day_bound(start_ts);
            lemma_day_bound(end_ts);
        }
        let mut out: Vec<OHLCV> = Vec::new();
        let mut d: u64 = d0;
        while d <= d1
            invariant
                self.wf(),
                d0 == spec_day_u64(start_ts),
                d1 == spec_day_u64(end_ts),
                d1 <= 213503,
                d0 <= d,
                d <= d1 + 1 || d == d0,
                out@ == spec_query_upto(*self, id, start_ts, end_ts, d0 as int, d as int),
            decreases d1 + 1 - d,
        {
            let key: u64 = (id as u64) * 0x100000000 + d;
            proof {
                assert(key == spec_key(id, d));
            }
            match self.index.get(&key) {
                Some(b) => {
                    let grid: Vec<OHLCV> = b.decompress();
                    proof {
                        assert(self.grids().contains_key(key));
                        assert(grid@ == self.grids()[key]);
                    }
                    let ghost base = out@;
                    let mut i: usize = 0;
                    while i < GRID_SLOTS
                        invariant
                            0 <= i <= GRID_SLOTS,
                            grid@.len() == GRID_SLOTS,
                            out@ == base + spec_grid_slice(grid@.take(i as int), start_ts, end_ts),
                        decreases GRID_SLOTS - i,
                    {
                        proof {
                            reveal(Seq::filter);
                            assert(grid@.take(i + 1).drop_last() =~= grid@.take(i as int));
                            assert(grid@.take(i + 1).last() == grid@[i as int]);
                        }
                        let rec: OHLCV = grid[i];
                        if rec.ts != 0 && start_ts <= rec.ts && rec.ts <= end_ts {
                            out.push(rec);
                        }
                        i = i + 1;
                    }
                    proof {
                        assert(grid@.take(GRID_SLOTS as int) =~= grid@);
                    }
                },
                None => {
                    proof {
                        assert(!self.grids().contains_key(key));
                    }
                },
            }
            proof {
                assert(spec_query_upto(*self, id, start_ts, end_ts, d0 as int, d + 1)
                    == spec_query_upto(*self, id, start_ts, end_ts, d0 as int, d as int) + (
                if self.grids().contains_key(spec_key(id, d)) {
                    spec_grid_slice(self.grids()[spec_key(id, d)], start_ts, end_ts)
                } else {
                    Seq::<OHLCV>::empty()
                }));
                assert(out@ =~= spec_query_upto(*self, id, start_ts, end_ts, d0 as int, d + 1));
            }
            d = d + 1;
        }
        proof {
            if d0 > d1 {
                assert(out@ =~= spec_query(*self, id, start_ts, end_ts));
            } else {
                assert(d == d1 + 1);
            }
        }
        Ok(out)
    }

    /// All registered ticker names, in registration order.
    pub fn get_symbols(&self) -> (r: Vec<String>)
        requires
            self.wf(),
        ensures
            r@.len() == self.names().len(),
            forall|i: int| 0 <= i < r@.len() ==> (#[trigger] r@[i])@ == self.names()[i],
    {
        let n: usize = self.symbols.len();
        let mut out: Vec<String> = Vec::new();
        let mut i: usize = 0;
        while i < n
            invariant
                0 <= i <= n,
                n == self.symbols@.len(),
                out@.len() == i,
                forall|j: int| 0 <= j < i ==> (#[trigger] out@[j])@ == self.names()[j],
            decreases n - i,
        {
            let s: String = self.symbols[i].name.clone();
            out.push(s);
            i = i + 1;
        }
        out
    }
}

/// A timestamp of an earlier day, or of the same day and an earlier
/// minute, is strictly smaller.
pub proof fn lemma_ts_slot_order(a: u64, b: u64)
    requires
        spec_day_of(a) < spec_day_of(b) || (spec_day_of(a) == spec_day_of(b)
            && spec_minute_of_day(a) < spec_minute_of_day(b)),
    ensures
        a < b,
{
    let ai = a as int;
    let bi = b as int;
    let g: int = 1000000000;
    let dn: int = DAY_NANOS as int;
    vstd::arithmetic::div_mod::lemma_fundamental_div_mod(ai, dn);
    vstd::arithmetic::div_mod::lemma_fundamental_div_mod(bi, dn);
    vstd::arithmetic::div_mod::lemma_mod_division_less_than_divisor(ai, dn);
    vstd::arithmetic::div_mod::lemma_mod_division_less_than_divisor(bi, dn);
    if spec_day_of(a) < spec_day_of(b) {
        assert(ai < dn * (ai / dn) + dn);
    } else {
        let qa = ai / g;
        let qb = bi / g;
        vstd::arithmetic::div_mod::lemma_fundamental_div_mod(ai, g);
        vstd::arithmetic::div_mod::lemma_fundamental_div_mod(bi, g);
        vstd::arithmetic::div_mod::lemma_mod_division_less_than_divisor(ai, g);
        vstd::arithmetic::div_mod::lemma_mod_division_less_than_divisor(bi, g);
        vstd::arithmetic::div_mod::lemma_div_denominator(ai, g, 86400);
        vstd::arithmetic::div_mod::lemma_div_denominator(bi, g, 86400);
        assert(qa / 86400 == spec_day_of(a));
        assert(qb / 86400 == spec_day_of(b));
        vstd::arithmetic::div_mod::lemma_fundamental_div_mod(qa, 86400);
        vstd::arithmetic::div_mod::lemma_fundamental_div_mod(qb, 86400);
        vstd::arithmetic::div_mod::lemma_mod_division_less_than_divisor(qa, 86400);
        vstd::arithmetic::div_mod::lemma_mod_division_less_than_divisor(qb, 86400);
        let sa = qa % 86400;
        let sb = qb % 86400;
        assert(sa < sb) by {
            if sa >= sb {
                vstd::arithmetic::div_mod::lemma_div_is_ordered(sb, sa, 60);
            }
        }
        assert(qa < qb);
        assert(ai < g * qa + g);
    }
}

/// Every record a grid slice emits is a non-sentinel bar of the given
/// day inside the bounds, and slices preserve ascending minute order.
proof fn lemma_slice_sorted(g: Seq<OHLCV>, start: u64, end: u64, day: int)
    requires
        forall|i: int| 0 <= i < g.len() ==> slot_ok(#[trigger] g[i], i, day),
    ensures
        forall|a: int|
            0 <= a < spec_grid_slice(g, start, end).len() ==> ((#[trigger] spec_grid_slice(
                g,
                start,
                end,
            )[a]).ts != 0 && start <= spec_grid_slice(g, start, end)[a].ts <= end && spec_day_of(
                spec_grid_slice(g, start, end)[a].ts,
            ) == day && spec_minute_of_day(spec_grid_slice(g, start, end)[a].ts) < g.len()),
        forall|a: int, b: int|
            0 <= a < b < spec_grid_slice(g, start, end).len() ==> spec_minute_of_day(
                spec_grid_slice(g, start, end)[a].ts,
            ) < spec_minute_of_day(spec_grid_slice(g, start, end)[b].ts),
    decreases g.len(),
{
    reveal(Seq::filter);
    if g.len() > 0 {
        assert forall|i: int| 0 <= i < g.drop_last().len() implies slot_ok(
            #[trigger] g.drop_last()[i],
            i,
            day,
        ) by {
            assert(g[i] == g.drop_last()[i]);
        }
        lemma_slice_sorted(g.drop_last(), start, end, day);
        let s = spec_grid_slice(g, start, end);
        let sub = spec_grid_slice(g.drop_last(), start, end);
        let last = g.last();
        if last.ts != 0 && start <= last.ts <= end {
            assert(s == sub.push(last));
            assert(slot_ok(g[g.len() - 1], g.len() - 1, day));
            assert(spec_minute_of_day(last.ts) == g.len() - 1);
        } else {
            assert(s == sub);
        }
    }
}

/// Everything `spec_query_upto` emits lies within the bounds, is
/// non-sentinel, belongs to a day in `[d0, d)`, and the whole sequence
/// is strictly ascending in timestamp.
proof fn lemma_query_upto_sorted(s: FxStore, id: u16, start: u64, end: u64, d0: int, d: int)
    requires
        s.wf(),
        0 <= d0,
        d <= 0x100000000,
    ensures
        forall|a: int|
            0 <= a < spec_query_upto(s, id, start, end, d0, d).len() ==> ((
            #[trigger] spec_query_upto(s, id, start, end, d0, d)[a]).ts != 0 && start
                <= spec_query_upto(s, id, start, end, d0, d)[a].ts <= end && d0 <= spec_day_of(
                spec_query_upto(s, id, start, end, d0, d)[a].ts,
            ) < d),
        forall|a: int, b: int|
            0 <= a < b < spec_query_upto(s, id, start, end, d0, d).len() ==> spec_query_upto(
                s,
                id,
                start,
                end,
                d0,
                d,
            )[a].ts < spec_query_upto(s, id, start, end, d0, d)[b].ts,
    decreases d - d0,
{
    if d > d0 {
        lemma_query_upto_sorted(s, id, start, end, d0, d - 1);
        let q = spec_query_upto(s, id, start, end, d0, d);
        let p = spec_query_upto(s, id, start, end, d0, d - 1);
        let k = spec_key(id, (d - 1) as u64);
        if s.grids().contains_key(k) {
            let grid = s.grids()[k];
            assert(s.index@.contains_key(k));
            assert(grid == s.index@[k]@);
            assert(block_key_ok(s.index@[k], k));
            assert((k as int) % 0x100000000 == d - 1) by {
                vstd::arithmetic::div_mod::lemma_mod_multiples_vanish(
                    id as int,
                    d - 1,
                    0x100000000,
                );
                vstd::arithmetic::div_mod::lemma_mod_division_less_than_divisor(
                    d - 1,
                    0x100000000,
                );
                assert((d - 1) % 0x100000000 == d - 1) by {
                    vstd::arithmetic::div_mod::lemma_small_mod((d - 1) as nat, 0x100000000);
                }
            }
            lemma_slice_sorted(grid, start, end, d - 1);
            let sl = spec_grid_slice(grid, start, end);
            assert(q == p + sl);
            assert forall|a: int, b: int| 0 <= a < b < q.len() implies q[a].ts < q[b].ts by {
                if b < p.len() {
                } else if a >= p.len() {
                    assert(q[a] == sl[a - p.len()] && q[b] == sl[b - p.len()]);
                    lemma_ts_slot_order(q[a].ts, q[b].ts);
                } else {
                    assert(q[a] == p[a] && q[b] == sl[b - p.len()]);
                    lemma_ts_slot_order(q[a].ts, q[b].ts);
                }
            }
        } else {
            assert(q =~= p);
        }
    }
}

/// Law: a range query's result is strictly ascending in timestamp, and
/// every record it holds is a non-sentinel bar whose timestamp lies
/// within the inclusive bounds.
pub proof fn lemma_query_sorted_and_bounded(s: FxStore, id: u16, start: u64, end: u64)
    requires
        s.wf(),
    ensures
        forall|a: int|
            0 <= a < spec_query(s, id, start, end).len() ==> ((#[trigger] spec_query(
                s,
                id,
                start,
                end,
            )[a]).ts != 0 && start <= spec_query(s, id, start, end)[a].ts <= end),
        forall|a: int, b: int|
            0 <= a < b < spec_query(s, id, start, end).len() ==> spec_query(s, id, start, end)[a].ts
                < spec_query(s, id, start, end)[b].ts,
{
    lemma_day_bound(start);
    lemma_day_bound(end);
    lemma_query_upto_sorted(s, id, start, end, spec_day_of(start), spec_day_of(end) + 1);
}


} // verus!
