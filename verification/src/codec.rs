//! The fixed binary layout of a day's minute grid: 1440 slots of 40
//! little-endian bytes each, serialized and deserialized by the library
//! itself so that the byte form is pinned down exactly.

use vstd::prelude::*;
use vstd::bytes::{
    lemma_auto_spec_u16_to_from_le_bytes, lemma_auto_spec_u32_to_from_le_bytes,
    lemma_auto_spec_u64_to_from_le_bytes, spec_u16_from_le_bytes, spec_u16_to_le_bytes,
    spec_u32_from_le_bytes, spec_u32_to_le_bytes, spec_u64_from_le_bytes, spec_u64_to_le_bytes,
    u16_from_le_bytes, u16_to_le_bytes, u32_from_le_bytes, u32_to_le_bytes, u64_from_le_bytes,
    u64_to_le_bytes,
};
use crate::types::{FxError, OHLCV};

verus! {

broadcast use vstd::array::axiom_array_ext_equal, vstd::array::array_len_matches_n;

/// Slots in one day's grid: one per UTC minute.
pub const GRID_SLOTS: usize = 1440;

/// Serialized width of a whole grid.
pub const GRID_WIDTH: usize = 57600;

/// The 40-byte little-endian layout of one record.
pub open spec fn rec_bytes(r: OHLCV) -> Seq<u8> {
    spec_u64_to_le_bytes(r.ts) + spec_u32_to_le_bytes(r.open) + spec_u32_to_le_bytes(r.high)
        + spec_u32_to_le_bytes(r.low) + spec_u32_to_le_bytes(r.close) + spec_u32_to_le_bytes(
        r.volume,
    ) + spec_u16_to_le_bytes(r.symbol_id) + r._pad@
}

/// The concatenated layout of a grid.
pub open spec fn grid_bytes(g: Seq<OHLCV>) -> Seq<u8>
    decreases g.len(),
{
    if g.len() == 0 {
        Seq::empty()
    } else {
        grid_bytes(g.drop_last()) + rec_bytes(g.last())
    }
}

/// The record `r` is what the 40 bytes `s` decode to.
pub open spec fn rec_matches(r: OHLCV, s: Seq<u8>) -> bool {
    &&& s.len() == 40
    &&& r.ts == spec_u64_from_le_bytes(s.subrange(0, 8))
    &&& r.open == spec_u32_from_le_bytes(s.subrange(8, 12))
    &&& r.high == spec_u32_from_le_bytes(s.subrange(12, 16))
    &&& r.low == spec_u32_from_le_bytes(s.subrange(16, 20))
    &&& r.close == spec_u32_from_le_bytes(s.subrange(20, 24))
    &&& r.volume == spec_u32_from_le_bytes(s.subrange(24, 28))
    &&& r.symbol_id == spec_u16_from_le_bytes(s.subrange(28, 30))
    &&& r._pad@ == s.subrange(30, 40)
}

pub proof fn lemma_rec_bytes_len(r: OHLCV)
    ensures
        rec_bytes(r).len() == 40,
{
    lemma_auto_spec_u64_to_from_le_bytes();
    lemma_auto_spec_u32_to_from_le_bytes();
    lemma_auto_spec_u16_to_from_le_bytes();
}

/// Decoding the bytes of a record gives back that record.
pub proof fn lemma_rec_roundtrip(r1: OHLCV, r2: OHLCV)
    requires
        rec_matches(r2, rec_bytes(r1)),
    ensures
        r2 == r1,
{
    lemma_auto_spec_u64_to_from_le_bytes();
    lemma_auto_spec_u32_to_from_le_bytes();
    lemma_auto_spec_u16_to_from_le_bytes();
    let s = rec_bytes(r1);
    assert(s.subrange(0, 8) =~= spec_u64_to_le_bytes(r1.ts));
    assert(s.subrange(8, 12) =~= spec_u32_to_le_bytes(r1.open));
    assert(s.subrange(12, 16) =~= spec_u32_to_le_bytes(r1.high));
    assert(s.subrange(16, 20) =~= spec_u32_to_le_bytes(r1.low));
    assert(s.subrange(20, 24) =~= spec_u32_to_le_bytes(r1.close));
    assert(s.subrange(24, 28) =~= spec_u32_to_le_bytes(r1.volume));
    assert(s.subrange(28, 30) =~= spec_u16_to_le_bytes(r1.symbol_id));
    assert(s.subrange(30, 40) =~= r1._pad@);
    assert(r2._pad =~= r1._pad);
}

pub proof fn lemma_grid_bytes_len(g: Seq<OHLCV>)
    ensures
        grid_bytes(g).len() == 40 * g.len(),
    decreases g.len(),
{
    if g.len() > 0 {
        lemma_grid_bytes_len(g.drop_last());
        lemma_rec_bytes_len(g.last());
    }
}

/// Slot `i` of a grid occupies bytes `40 * i .. 40 * i + 40` of its layout.
pub proof fn lemma_grid_bytes_slice(g: Seq<OHLCV>, i: int)
    requires
        0 <= i < g.len(),
    ensures
        grid_bytes(g).subrange(40 * i, 40 * i + 40) == rec_bytes(g[i]),
    decreases g.len(),
{
    lemma_grid_bytes_len(g.drop_last());
    lemma_rec_bytes_len(g.last());
    if i == g.len() - 1 {
        assert(grid_bytes(g).subrange(40 * i, 40 * i + 40) =~= rec_bytes(g[i]));
    } else {
        lemma_grid_bytes_slice(g.drop_last(), i);
        assert(grid_bytes(g).subrange(40 * i, 40 * i + 40) =~= grid_bytes(g.drop_last()).subrange(
            40 * i,
            40 * i + 40,
        ));
    }
}

/// Round trip: a grid decoded from its own layout is that grid.
pub proof fn lemma_grid_roundtrip(g: Seq<OHLCV>, d: Seq<OHLCV>)
    requires
        g.len() == d.len(),
        forall|i: int|
            0 <= i < d.len() ==> rec_matches(
                #[trigger] d[i],
                grid_bytes(g).subrange(40 * i, 40 * i + 40),
            ),
    ensures
        d == g,
{
    assert forall|i: int| 0 <= i < d.len() implies d[i] == g[i] by {
        lemma_grid_bytes_slice(g, i);
        lemma_rec_roundtrip(g[i], d[i]);
    }
    assert(d =~= g);
}

/// Serialize a full grid into its fixed 57600-byte layout.
pub fn serialize_grid(grid: &Vec<OHLCV>) -> (r: Vec<u8>)
    requires
        grid@.len() == GRID_SLOTS,
    ensures
        r@ == grid_bytes(grid@),
        r@.len() == GRID_WIDTH,
{
    let mut out: Vec<u8> = Vec::new();
    let mut i: usize = 0;
    while i < GRID_SLOTS
        invariant
            grid@.len() == GRID_SLOTS,
            0 <= i <= GRID_SLOTS,
            out@ == grid_bytes(grid@.take(i as int)),
        decreases GRID_SLOTS - i,
    {
        let rec: OHLCV = grid[i];
        let ghost base = out@;
        let mut t: Vec<u8> = u64_to_le_bytes(rec.ts);
        out.append(&mut t);
        let mut t: Vec<u8> = u32_to_le_bytes(rec.open);
        out.append(&mut t);
        let mut t: Vec<u8> = u32_to_le_bytes(rec.high);
        out.append(&mut t);
        let mut t: Vec<u8> = u32_to_le_bytes(rec.low);
        out.append(&mut t);
        let mut t: Vec<u8> = u32_to_le_bytes(rec.close);
        out.append(&mut t);
        let mut t: Vec<u8> = u32_to_le_bytes(rec.volume);
        out.append(&mut t);
        let mut t: Vec<u8> = u16_to_le_bytes(rec.symbol_id);
        out.append(&mut t);
        let ghost head = out@;
        let mut k: usize = 0;
        while k < 10
            invariant
                0 <= k <= 10,
                out@ == head + rec._pad@.take(k as int),
            decreases 10 - k,
        {
            out.push(rec._pad[k]);
            proof {
                assert(rec._pad@.take(k + 1).drop_last() =~= rec._pad@.take(k as int));
                assert(out@ =~= head + rec._pad@.take(k + 1));
            }
            k = k + 1;
        }
        proof {
            assert(rec._pad@.take(10int) =~= rec._pad@);
            assert(grid@.take(i + 1).drop_last() =~= grid@.take(i as int));
            assert(grid@.take(i + 1).last() == grid@[i as int]);
            assert(out@ =~= base + rec_bytes(grid@[i as int]));
            assert(out@ =~= grid_bytes(grid@.take(i + 1)));
        }
        i = i + 1;
    }
    proof {
        assert(grid@.take(GRID_SLOTS as int) =~= grid@);
        lemma_grid_bytes_len(grid@);
    }
    out
}

/// Deserialize a grid from its byte layout. The first 1440 slots are
/// decoded; bytes beyond them are ignored. Shorter input is a
/// `DecodeError`.
pub fn deserialize_grid(bytes: &Vec<u8>) -> (r: Result<Vec<OHLCV>, FxError>)
    ensures
        r is Ok <==> bytes@.len() >= GRID_WIDTH,
        r matches Ok(g) ==> {
            &&& g@.len() == GRID_SLOTS
            &&& forall|i: int|
                0 <= i < GRID_SLOTS ==> rec_matches(
                    #[trigger] g@[i],
                    bytes@.subrange(40 * i, 40 * i + 40),
                )
        },
        r matches Err(e) ==> e == FxError::DecodeError,
{
    if bytes.len() < GRID_WIDTH {
        return Err(FxError::DecodeError);
    }
    let bs: &[u8] = bytes.as_slice();
    let mut g: Vec<OHLCV> = Vec::new();
    let mut i: usize = 0;
    while i < GRID_SLOTS
        invariant
            0 <= i <= GRID_SLOTS,
            bytes@.len() >= GRID_WIDTH,
            bs@ == bytes@,
            g@.len() == i,
            forall|j: int|
                0 <= j < i ==> rec_matches(#[trigger] g@[j], bytes@.subrange(40 * j, 40 * j + 40)),
        decreases GRID_SLOTS - i,
    {
        let off: usize = i * 40;
        let ghost srec = bytes@.subrange(40 * i, 40 * i + 40);
        let ts: u64 = u64_from_le_bytes(vstd::slice::slice_subrange(bs, off, off + 8));
        let open: u32 = u32_from_le_bytes(vstd::slice::slice_subrange(bs, off + 8, off + 12));
        let high: u32 = u32_from_le_bytes(vstd::slice::slice_subrange(bs, off + 12, off + 16));
        let low: u32 = u32_from_le_bytes(vstd::slice::slice_subrange(bs, off + 16, off + 20));
        let close: u32 = u32_from_le_bytes(vstd::slice::slice_subrange(bs, off + 20, off + 24));
        let volume: u32 = u32_from_le_bytes(vstd::slice::slice_subrange(bs, off + 24, off + 28));
        let symbol_id: u16 = u16_from_le_bytes(vstd::slice::slice_subrange(bs, off + 28, off + 30));
        let mut pad: [u8; 10] = [0u8, 0u8, 0u8, 0u8, 0u8, 0u8, 0u8, 0u8, 0u8, 0u8];
        let mut k: usize = 0;
        while k < 10
            invariant
                0 <= k <= 10,
                off == 40 * i,
                0 <= i < GRID_SLOTS,
                bytes@.len() >= GRID_WIDTH,
                bs@ == bytes@,
                forall|j: int| 0 <= j < k ==> pad@[j] == bytes@[off + 30 + j],
            decreases 10 - k,
        {
            pad[k] = *vstd::slice::slice_index_get(bs, off + 30 + k);
            k = k + 1;
        }
        let rec = OHLCV { ts, open, high, low, close, volume, symbol_id, _pad: pad };
        proof {
            assert(srec.subrange(0, 8) =~= bytes@.subrange(40 * i, 40 * i + 8));
            assert(srec.subrange(8, 12) =~= bytes@.subrange(40 * i + 8, 40 * i + 12));
            assert(srec.subrange(12, 16) =~= bytes@.subrange(40 * i + 12, 40 * i + 16));
            assert(srec.subrange(16, 20) =~= bytes@.subrange(40 * i + 16, 40 * i + 20));
            assert(srec.subrange(20, 24) =~= bytes@.subrange(40 * i + 20, 40 * i + 24));
            assert(srec.subrange(24, 28) =~= bytes@.subrange(40 * i + 24, 40 * i + 28));
            assert(srec.subrange(28, 30) =~= bytes@.subrange(40 * i + 28, 40 * i + 30));
            assert(rec._pad@ =~= srec.subrange(30, 40));
            assert(rec_matches(rec, srec));
        }
        g.push(rec);
        i = i + 1;
    }
    Ok(g)
}

} // verus!
