//! Byte-level parsing of the decimal fields an ingestion row carries:
//! unsigned integers (volume) and fixed-point prices with 5 decimal
//! digits of precision (price text `"1.23456"` becomes `123456`).

use vstd::prelude::*;
use vstd::string::StringSliceAdditionalSpecFns;

verus! {

/// A byte that is an ASCII decimal digit.
pub open spec fn is_digit_byte(b: u8) -> bool {
    48 <= b <= 57
}

/// Every byte of `s` is an ASCII decimal digit.
pub open spec fn all_digits(s: Seq<u8>) -> bool {
    forall|i: int| 0 <= i < s.len() ==> is_digit_byte(#[trigger] s[i])
}

/// Value of a big-endian decimal digit string ("123" is 123).
pub open spec fn dec_val(s: Seq<u8>) -> int
    decreases s.len(),
{
    if s.len() == 0 {
        0
    } else {
        dec_val(s.drop_last()) * 10 + (s.last() - 48)
    }
}

pub open spec fn pow10(n: nat) -> int
    decreases n,
{
    if n == 0 {
        1
    } else {
        10 * pow10((n - 1) as nat)
    }
}

pub proof fn lemma_dec_val_bounds(s: Seq<u8>)
    requires
        all_digits(s),
    ensures
        0 <= dec_val(s) < pow10(s.len()),
    decreases s.len(),
{
    if s.len() > 0 {
        assert(is_digit_byte(s[s.len() - 1]));
        lemma_dec_val_bounds(s.drop_last());
    }
}

/// Appending digits to a digit string never decreases its value.
pub proof fn lemma_dec_val_prefix(s: Seq<u8>, i: int)
    requires
        all_digits(s),
        0 <= i <= s.len(),
    ensures
        dec_val(s.take(i)) <= dec_val(s),
    decreases s.len() - i,
{
    if i < s.len() {
        lemma_dec_val_prefix(s, i + 1);
        let t = s.take(i + 1);
        assert(t.drop_last() =~= s.take(i));
        lemma_dec_val_bounds(s.take(i));
        assert(is_digit_byte(s[i]));
        assert(dec_val(t) == dec_val(s.take(i)) * 10 + (s[i] - 48));
    } else {
        assert(s.take(i) =~= s);
    }
}

/// Index of the first `.` in `s`, or `s.len()` when there is none,
/// scanning from position `i`.
pub open spec fn first_dot_from(s: Seq<u8>, i: int) -> int
    decreases s.len() - i,
{
    if i < 0 || i >= s.len() {
        s.len() as int
    } else if s[i] == 46 {
        i
    } else {
        first_dot_from(s, i + 1)
    }
}

pub open spec fn first_dot(s: Seq<u8>) -> int {
    first_dot_from(s, 0)
}

pub proof fn lemma_first_dot_at(s: Seq<u8>, d: int)
    requires
        0 <= d <= s.len(),
        forall|j: int| 0 <= j < d ==> s[j] != 46,
        d == s.len() || s[d] == 46,
    ensures
        first_dot(s) == d,
{
    lemma_first_dot_from_skip(s, 0, d);
}

proof fn lemma_first_dot_from_skip(s: Seq<u8>, i: int, d: int)
    requires
        0 <= i <= d <= s.len(),
        forall|j: int| i <= j < d ==> s[j] != 46,
        d == s.len() || s[d] == 46,
    ensures
        first_dot_from(s, i) == d,
    decreases d - i,
{
    if i < d {
        lemma_first_dot_from_skip(s, i + 1, d);
    }
}

/// Value of the fractional digit string `s` read to exactly 5 places:
/// extra digits are truncated, missing places count as zero.
pub open spec fn frac5_val(s: Seq<u8>) -> int {
    if s.len() >= 5 {
        dec_val(s.take(5))
    } else {
        dec_val(s) * pow10((5 - s.len()) as nat)
    }
}

/// The exact mathematical value of price text `s` scaled by 100000 and
/// truncated toward zero: digits, optionally followed by `.` and more
/// digits. `None` when the text has any other shape.
pub open spec fn price_val(s: Seq<u8>) -> Option<int> {
    let d = first_dot(s);
    let ip = s.take(d);
    let fp = if d == s.len() {
        Seq::<u8>::empty()
    } else {
        s.subrange(d + 1, s.len() as int)
    };
    if 0 < d && all_digits(ip) && all_digits(fp) {
        Some(dec_val(ip) * 100000 + frac5_val(fp))
    } else {
        None
    }
}

/// The 5-decimal fixed-point form of price text `s`: its scaled value
/// when that fits in 32 bits, `None` otherwise or when malformed.
pub open spec fn price_of_bytes(s: Seq<u8>) -> Option<u32> {
    match price_val(s) {
        Some(v) => if v <= u32::MAX { Some(v as u32) } else { None },
        None => None,
    }
}

/// Value of unsigned decimal text `s` when it is nonempty, all digits,
/// and fits in 32 bits; `None` otherwise.
pub open spec fn u32_of_bytes(s: Seq<u8>) -> Option<u32> {
    if s.len() > 0 && all_digits(s) && dec_val(s) <= u32::MAX {
        Some(dec_val(s) as u32)
    } else {
        None
    }
}

/// Parse unsigned decimal text into a `u32`.
pub fn parse_u32(s: &str) -> (r: Option<u32>)
    ensures
        r == u32_of_bytes(s.spec_bytes()),
{
    let b: &[u8] = s.as_bytes();
    let n: usize = b.len();
    if n == 0 {
        return None;
    }
    let mut i: usize = 0;
    let mut acc: u64 = 0;
    while i < n
        invariant
            0 <= i <= n,
            n == b@.len(),
            b@ == s.spec_bytes(),
            all_digits(b@.take(i as int)),
            acc == dec_val(b@.take(i as int)),
            acc <= u32::MAX,
        decreases n - i,
    {
        let c: u8 = *vstd::slice::slice_index_get(b, i);
        if c < 48 || c > 57 {
            assert(!is_digit_byte(b@[i as int]));
            return None;
        }
        proof {
            assert(b@.take(i + 1).drop_last() =~= b@.take(i as int));
        }
        acc = acc * 10 + ((c - 48) as u64);
        i = i + 1;
        if acc > 0xffff_ffff {
            proof {
                if all_digits(b@) {
                    lemma_dec_val_prefix(b@, i as int);
                }
            }
            return None;
        }
    }
    proof {
        assert(b@.take(n as int) =~= b@);
    }
    Some(acc as u32)
}

/// Parse price text into its 5-decimal fixed-point form.
pub fn parse_price(s: &str) -> (r: Option<u32>)
    ensures
        r == price_of_bytes(s.spec_bytes()),
{
    let b: &[u8] = s.as_bytes();
    let n: usize = b.len();
    // Locate the first dot, if any.
    let mut d: usize = 0;
    while d < n && *vstd::slice::slice_index_get(b, d) != 46
        invariant
            0 <= d <= n,
            n == b@.len(),
            b@ == s.spec_bytes(),
            forall|j: int| 0 <= j < d ==> b@[j] != 46,
        decreases n - d,
    {
        d = d + 1;
    }
    proof {
        lemma_first_dot_at(b@, d as int);
    }
    let ghost ip = b@.take(d as int);
    let ghost fp = if d == n {
        Seq::<u8>::empty()
    } else {
        b@.subrange(d as int + 1, n as int)
    };
    if d == 0 {
        return None;
    }
    // Integer part.
    let mut i: usize = 0;
    let mut acc: u64 = 0;
    while i < d
        invariant
            0 < d <= n,
            0 <= i <= d,
            n == b@.len(),
            b@ == s.spec_bytes(),
            first_dot(b@) == d,
            ip == b@.take(d as int),
            fp == (if d == n { Seq::<u8>::empty() } else { b@.subrange(d as int + 1, n as int) }),
            all_digits(ip.take(i as int)),
            acc == dec_val(ip.take(i as int)),
            acc <= u32::MAX,
        decreases d - i,
    {
        let c: u8 = *vstd::slice::slice_index_get(b, i);
        proof {
            assert(ip[i as int] == b@[i as int]);
        }
        if c < 48 || c > 57 {
            assert(!is_digit_byte(ip[i as int]));
            return None;
        }
        proof {
            assert(ip.take(i + 1).drop_last() =~= ip.take(i as int));
        }
        acc = acc * 10 + ((c - 48) as u64);
        i = i + 1;
        if acc > 0xffff_ffff {
            proof {
                if price_val(b@) is Some {
                    assert(all_digits(ip) && all_digits(fp));
                    lemma_dec_val_prefix(ip, i as int);
                    assert(frac5_val(fp) >= 0) by {
                        if fp.len() >= 5 {
                            assert(all_digits(fp.take(5)));
                            lemma_dec_val_bounds(fp.take(5));
                        } else {
                            lemma_dec_val_bounds(fp);
                            lemma_pow10_bound((5 - fp.len()) as nat);
                            assert(dec_val(fp) * pow10((5 - fp.len()) as nat) >= 0)
                                by (nonlinear_arith)
                                requires
                                    dec_val(fp) >= 0,
                                    pow10((5 - fp.len()) as nat) > 0,
                            ;
                        }
                    }
                }
            }
            return None;
        }
    }
    proof {
        assert(ip.take(d as int) =~= ip);
    }
    // Fractional part: at most 5 digits contribute, the rest only need
    // to be digits; short parts are padded with zeros.
    let fplen: usize = if d == n {
        0
    } else {
        n - d - 1
    };
    let mut j: usize = 0;
    let mut fval: u64 = 0;
    while j < fplen
        invariant
            0 <= j <= fplen,
            n == b@.len(),
            b@ == s.spec_bytes(),
            0 < d <= n,
            first_dot(b@) == d,
            ip == b@.take(d as int),
            all_digits(ip),
            fplen == if d == n { 0int } else { n - d - 1 },
            fp == (if d == n { Seq::<u8>::empty() } else { b@.subrange(d as int + 1, n as int) }),
            fplen == fp.len(),
            all_digits(fp.take(j as int)),
            fval == dec_val(fp.take(if j < 5 { j as int } else { 5int })),
            fval <= 99999,
        decreases fplen - j,
    {
        let c: u8 = *vstd::slice::slice_index_get(b, d + 1 + j);
        proof {
            assert(fp[j as int] == b@[d + 1 + j]);
        }
        if c < 48 || c > 57 {
            assert(!is_digit_byte(fp[j as int]));
            return None;
        }
        if j < 5 {
            proof {
                assert(fp.take(j + 1).drop_last() =~= fp.take(j as int));
                let t = fp.take(j + 1);
                assert(all_digits(t));
                lemma_dec_val_bounds(t);
                lemma_pow10_bound((j + 1) as nat);
            }
            fval = fval * 10 + ((c - 48) as u64);
        }
        j = j + 1;
    }
    proof {
        assert(fp.take(fplen as int) =~= fp);
    }
    // Pad a short fractional part with zeros up to 5 places.
    if fplen < 5 {
        proof {
            lemma_dec_val_bounds(fp);
        }
        let mut k: usize = fplen;
        while k < 5
            invariant
                fplen <= k <= 5,
                fplen == fp.len(),
                all_digits(fp),
                fval == dec_val(fp) * pow10((k - fplen) as nat),
                fval < pow10(k as nat),
            decreases 5 - k,
        {
            proof {
                lemma_dec_val_bounds(fp);
                lemma_pow10_bound(k as nat);
                lemma_pow10_bound((k - fplen) as nat);
                let p = pow10((k - fplen) as nat);
                assert(pow10((k + 1 - fplen) as nat) == 10 * p);
                assert(pow10((k + 1) as nat) == 10 * pow10(k as nat));
                assert(dec_val(fp) * (10 * p) == (dec_val(fp) * p) * 10) by (nonlinear_arith);
            }
            fval = fval * 10;
            k = k + 1;
        }
        proof {
            lemma_pow10_bound(5);
        }
    }
    assert(fval == frac5_val(fp));
    assert(fval <= 99999) by {
        if fplen >= 5 {
            lemma_dec_val_bounds(fp.take(5));
            lemma_pow10_bound(5);
        } else {
            lemma_pow10_bound(5);
        }
    }
    let total: u64 = acc * 100000 + fval;
    assert(price_val(b@) == Some(dec_val(ip) * 100000 + frac5_val(fp)));
    assert(total == dec_val(ip) * 100000 + frac5_val(fp));
    if total > 0xffff_ffff {
        return None;
    }
    Some(total as u32)
}

proof fn lemma_pow10_pos(n: nat)
    ensures
        0 < pow10(n),
    decreases n,
{
    if n > 0 {
        lemma_pow10_pos((n - 1) as nat);
    }
}

proof fn lemma_pow10_mono(a: nat, b: nat)
    requires
        a <= b,
    ensures
        0 < pow10(a) <= pow10(b),
    decreases b - a,
{
    if a < b {
        lemma_pow10_mono(a, (b - 1) as nat);
    } else {
        lemma_pow10_pos(a);
    }
}

proof fn lemma_pow10_bound(n: nat)
    requires
        n <= 5,
    ensures
        0 < pow10(n) <= 100000,
{
    assert(pow10(0) == 1);
    assert(pow10(1) == 10);
    assert(pow10(2) == 100);
    assert(pow10(3) == 1000);
    assert(pow10(4) == 10000);
    assert(pow10(5) == 100000);
    lemma_pow10_mono(n, 5);
}

} // verus!
