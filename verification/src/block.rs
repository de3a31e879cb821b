//! One symbol's one calendar day of minute bars, stored as compressed
//! bytes of the serialized 1440-slot grid, with a lazily populated,
//! concurrency-safe cache of the decompressed grid.

use vstd::prelude::*;
use vstd::rwlock::{RwLock, RwLockPredicate};
use crate::codec::{
    deserialize_grid, grid_bytes, lemma_grid_bytes_len, lemma_grid_roundtrip, serialize_grid,
    GRID_SLOTS, GRID_WIDTH,
};
use crate::types::{spec_minute_of_day, spec_sentinel, OHLCV};

verus! {

/// Compression level used for new blocks: zstd's fast default.
pub const BLOCK_COMPRESSION_LEVEL: i32 = 3;

/// What `zstd::bulk::compress` produces for the given input at the
/// given level: a pure function of both.
pub uninterp spec fn zstd_of(s: Seq<u8>, level: int) -> Seq<u8>;

/// Relies on `zstd::bulk::compress`: block compression is deterministic
/// in the input bytes and the level, and it succeeds at a valid level,
/// since the call allocates a `compress_bound`-sized buffer that a
/// single-shot compression cannot overrun. The one failure left is
/// allocation failure, on which this wrapper aborts as the allocator
/// itself would.
#[verifier::external_body]
fn zstd_compress(data: &Vec<u8>, level: i32) -> (r: Vec<u8>)
    requires
        1 <= level <= 19,
    ensures
        r@ == zstd_of(data@, level as int),
{
    zstd::bulk::compress(data.as_slice(), level).unwrap()
}

/// Relies on `zstd::bulk::decompress`: zstd is lossless, so a compressed
/// frame decompressed with enough capacity yields the original bytes.
#[verifier::external_body]
fn zstd_decompress(data: &Vec<u8>, capacity: usize) -> (r: Option<Vec<u8>>)
    ensures
        r is None ==> forall|s: Seq<u8>, level: int|
            !(data@ == #[trigger] zstd_of(s, level) && s.len() <= capacity),
        r matches Some(d) ==> forall|s: Seq<u8>, level: int|
            data@ == #[trigger] zstd_of(s, level) && s.len() <= capacity ==> d@ == s,
{
    match zstd::bulk::decompress(data.as_slice(), capacity) {
        Ok(d) => Some(d),
        Err(_) => None,
    }
}

/// The grid a sequence of records packs into: every slot starts as the
/// sentinel, and each record lands at its minute-of-day slot, later
/// records overwriting earlier ones (last write wins).
pub open spec fn spec_build_grid(records: Seq<OHLCV>) -> Seq<OHLCV>
    decreases records.len(),
{
    if records.len() == 0 {
        Seq::new(GRID_SLOTS as nat, |i: int| spec_sentinel())
    } else {
        spec_build_grid(records.drop_last()).update(
            spec_minute_of_day(records.last().ts),
            records.last(),
        )
    }
}

/// The record that wins minute slot `m`: the last record of the sequence
/// mapping to that slot, or the sentinel when none does.
pub open spec fn spec_slot_winner(records: Seq<OHLCV>, m: int) -> OHLCV
    decreases records.len(),
{
    if records.len() == 0 {
        spec_sentinel()
    } else if spec_minute_of_day(records.last().ts) == m {
        records.last()
    } else {
        spec_slot_winner(records.drop_last(), m)
    }
}

pub proof fn lemma_build_grid_len(records: Seq<OHLCV>)
    ensures
        spec_build_grid(records).len() == GRID_SLOTS,
    decreases records.len(),
{
    if records.len() > 0 {
        lemma_build_grid_len(records.drop_last());
    }
}

/// Law: every minute slot of a built grid holds exactly the last record
/// that mapped to it, and the sentinel when no record did. In
/// particular, a record placed at its own minute-of-day slot with no
/// later record for that minute is read back bit-identical, and an
/// untouched slot reads back all zero.
pub proof fn lemma_build_grid_slot(records: Seq<OHLCV>, m: int)
    requires
        0 <= m < GRID_SLOTS,
    ensures
        spec_build_grid(records)[m] == spec_slot_winner(records, m),
    decreases records.len(),
{
    lemma_build_grid_len(records);
    if records.len() > 0 {
        lemma_build_grid_slot(records.drop_last(), m);
        lemma_build_grid_len(records.drop_last());
    }
}

/// A slot's winner is either the sentinel or one of the records, and
/// then one whose minute-of-day is that slot.
pub proof fn lemma_slot_winner_source(records: Seq<OHLCV>, m: int)
    ensures
        spec_slot_winner(records, m) == spec_sentinel() || exists|j: int|
            0 <= j < records.len() && #[trigger] records[j] == spec_slot_winner(records, m)
                && spec_minute_of_day(records[j].ts) == m,
    decreases records.len(),
{
    if records.len() > 0 {
        if spec_minute_of_day(records.last().ts) == m {
            assert(records[records.len() - 1] == spec_slot_winner(records, m));
        } else {
            lemma_slot_winner_source(records.drop_last(), m);
            if spec_slot_winner(records, m) != spec_sentinel() {
                let j = choose|j: int|
                    0 <= j < records.drop_last().len() && #[trigger] records.drop_last()[j]
                        == spec_slot_winner(records.drop_last(), m) && spec_minute_of_day(
                        records.drop_last()[j].ts,
                    ) == m;
                assert(records[j] == records.drop_last()[j]);
            }
        }
    }
}

proof fn lemma_winner_is_last(records: Seq<OHLCV>, j: int, m: int)
    requires
        0 <= j < records.len(),
        spec_minute_of_day(records[j].ts) == m,
        forall|k: int| j < k < records.len() ==> spec_minute_of_day(#[trigger] records[k].ts) != m,
    ensures
        spec_slot_winner(records, m) == records[j],
    decreases records.len(),
{
    if j == records.len() - 1 {
    } else {
        assert(records.drop_last()[j] == records[j]);
        lemma_winner_is_last(records.drop_last(), j, m);
    }
}

proof fn lemma_winner_none(records: Seq<OHLCV>, m: int)
    requires
        forall|k: int| 0 <= k < records.len() ==> spec_minute_of_day(#[trigger] records[k].ts) != m,
    ensures
        spec_slot_winner(records, m) == spec_sentinel(),
    decreases records.len(),
{
    if records.len() > 0 {
        lemma_winner_none(records.drop_last(), m);
    }
}

/// Law (round trip): a record placed into a block at its correct
/// minute-of-day slot, with no later record claiming the same minute,
/// is read back bit-identical from the block's grid — the very sequence
/// `decompress` returns.
pub proof fn lemma_block_round_trip(b: CompressedBlock, records: Seq<OHLCV>, j: int)
    requires
        b@ == spec_build_grid(records),
        0 <= j < records.len(),
        forall|k: int|
            j < k < records.len() ==> spec_minute_of_day(#[trigger] records[k].ts)
                != spec_minute_of_day(records[j].ts),
    ensures
        b@[spec_minute_of_day(records[j].ts)] == records[j],
{
    let m = spec_minute_of_day(records[j].ts);
    lemma_build_grid_slot(records, m);
    lemma_winner_is_last(records, j, m);
}

/// Law (sentinel default): a minute-of-day slot no record contributed
/// to decodes to the all-zero sentinel record.
pub proof fn lemma_block_sentinel_slot(b: CompressedBlock, records: Seq<OHLCV>, m: int)
    requires
        b@ == spec_build_grid(records),
        0 <= m < GRID_SLOTS,
        forall|k: int| 0 <= k < records.len() ==> spec_minute_of_day(#[trigger] records[k].ts) != m,
    ensures
        b@[m] == spec_sentinel(),
{
    lemma_build_grid_slot(records, m);
    lemma_winner_none(records, m);
}

/// Build the 1440-slot grid for a day's records.
fn build_grid(records: &Vec<OHLCV>) -> (g: Vec<OHLCV>)
    ensures
        g@ == spec_build_grid(records@),
        g@.len() == GRID_SLOTS,
{
    let mut g: Vec<OHLCV> = Vec::new();
    let mut i: usize = 0;
    while i < GRID_SLOTS
        invariant
            0 <= i <= GRID_SLOTS,
            g@.len() == i,
            forall|j: int| 0 <= j < i ==> g@[j] == spec_sentinel(),
        decreases GRID_SLOTS - i,
    {
        g.push(OHLCV::sentinel());
        i = i + 1;
    }
    proof {
        assert(g@ =~= spec_build_grid(records@.take(0int)));
    }
    let mut k: usize = 0;
    while k < records.len()
        invariant
            0 <= k <= records@.len(),
            g@ == spec_build_grid(records@.take(k as int)),
            g@.len() == GRID_SLOTS,
        decreases records@.len() - k,
    {
        let rec: OHLCV = records[k];
        let m: usize = rec.minute_of_day();
        proof {
            lemma_build_grid_len(records@.take(k as int));
        }
        vstd::pervasive::VecAdditionalExecFns::set(&mut g, m, rec);
        proof {
            assert(records@.take(k + 1).drop_last() =~= records@.take(k as int));
            assert(records@.take(k + 1).last() == records@[k as int]);
        }
        k = k + 1;
    }
    proof {
        assert(records@.take(records@.len() as int) =~= records@);
    }
    g
}

/// Predicate of a block's cache lock: a populated cache holds exactly
/// the block's decoded grid.
pub struct CachePred {
    pub grid: Seq<OHLCV>,
}

impl RwLockPredicate<Option<Vec<OHLCV>>> for CachePred {
    open spec fn inv(self, v: Option<Vec<OHLCV>>) -> bool {
        v matches Some(g) ==> g@ == self.grid
    }
}

/// One symbol's one day of minute bars, compressed, with a lazily
/// populated shared cache of the decompressed grid. Immutable once
/// constructed.
pub struct CompressedBlock {
    date: u32,
    symbol_id: u16,
    data: Vec<u8>,
    cache: RwLock<Option<Vec<OHLCV>>, CachePred>,
    grid: Ghost<Seq<OHLCV>>,
}

impl View for CompressedBlock {
    type V = Seq<OHLCV>;

    /// The logical 1440-slot minute grid this block stores.
    closed spec fn view(&self) -> Seq<OHLCV> {
        self.grid@
    }
}

impl CompressedBlock {
    /// The block's bytes decode to its logical grid, and its cache can
    /// only ever hold that grid.
    #[verifier::type_invariant]
    pub closed spec fn wf(self) -> bool {
        &&& self.grid@.len() == GRID_SLOTS
        &&& self.data@ == zstd_of(grid_bytes(self.grid@), BLOCK_COMPRESSION_LEVEL as int)
        &&& self.cache.pred() == (CachePred { grid: self.grid@ })
    }

    /// The YYYYMMDD date label of this block.
    pub fn date(&self) -> (r: u32)
        ensures
            r == self.spec_date(),
    {
        self.date
    }

    pub closed spec fn spec_date(self) -> u32 {
        self.date
    }

    /// The dense symbol identifier of this block.
    pub fn symbol_id(&self) -> (r: u16)
        ensures
            r == self.spec_symbol_id(),
    {
        self.symbol_id
    }

    pub closed spec fn spec_symbol_id(self) -> u16 {
        self.symbol_id
    }

    /// Size in bytes of the stored compressed form.
    pub fn compressed_size(&self) -> (r: usize)
    {
        self.data.len()
    }

    /// Build a block from a day's records: pack them into the minute
    /// grid (last write wins per slot), serialize, and compress.
    pub fn new(date: u32, symbol_id: u16, records: &Vec<OHLCV>) -> (b: CompressedBlock)
        ensures
            b@ == spec_build_grid(records@),
            b.spec_date() == date,
            b.spec_symbol_id() == symbol_id,
    {
        let grid = build_grid(records);
        let bytes = serialize_grid(&grid);
        let compressed = zstd_compress(&bytes, BLOCK_COMPRESSION_LEVEL);
        CompressedBlock {
            date,
            symbol_id,
            data: compressed,
            cache: RwLock::new(None, Ghost(CachePred { grid: grid@ })),
            grid: Ghost(grid@),
        }
    }

    /// Return the block's decompressed 1440-slot grid. A populated cache
    /// is returned as a copy; otherwise the stored bytes are
    /// decompressed, decoded, published to the cache, and returned.
    /// Every caller receives exactly the block's logical grid.
    pub fn decompress(&self) -> (r: Vec<OHLCV>)
        ensures
            r@ == self@,
            r@.len() == GRID_SLOTS,
    {
        proof {
            use_type_invariant(self);
        }
        let read = self.cache.acquire_read();
        let hit: bool = read.borrow().is_some();
        if hit {
            let cached = read.borrow();
            let out: Vec<OHLCV> = match cached {
                Some(g) => g.clone(),
                None => {
                    proof {
                        assert(false);
                    }
                    Vec::new()
                },
            };
            read.release_read();
            proof {
                assert(out@ =~= self.grid@);
            }
            out
        } else {
            read.release_read();
            proof {
                lemma_grid_bytes_len(self.grid@);
                assert(self.data@ == zstd_of(grid_bytes(self.grid@), BLOCK_COMPRESSION_LEVEL as int));
            }
            let raw = match zstd_decompress(&self.data, GRID_WIDTH) {
                Some(v) => v,
                None => {
                    proof {
                        assert(false);
                    }
                    Vec::new()
                },
            };
            let grid = match deserialize_grid(&raw) {
                Ok(g) => g,
                Err(_) => {
                    proof {
                        assert(false);
                    }
                    Vec::new()
                },
            };
            proof {
                lemma_grid_roundtrip(self.grid@, grid@);
            }
            let copy: Vec<OHLCV> = grid.clone();
            proof {
                assert(copy@ =~= grid@);
            }
            let (_, write) = self.cache.acquire_write();
            write.release_write(Some(copy));
            grid
        }
    }
}

} // verus!
