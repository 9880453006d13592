//! Byte encodings of column values, used when a column is compressed:
//! plain little-endian values, wrapping deltas of signed integers, and the
//! XOR-with-previous encoding of 64-bit float bit patterns.
use crate::bytes::{concat_map, lemma_window, push_u64, read_u64, i32_from_le, i32_le, i64_from_le, i64_le, lemma_concat_map_index, lemma_concat_map_len, lemma_le_roundtrips, push_i32, push_i64, read_i32, read_i64};
use crate::bytes::{lemma_i8_cast_roundtrip, push_u16, push_u32, read_u16, read_u32};
use crate::column::ColumnEncoding;
use crate::fmt::{spec_decimal, u128_to_decimal, u64_to_decimal};
use crate::types::KcmError;
use vstd::string::*;
use vstd::bytes::{spec_u16_from_le_bytes, spec_u16_to_le_bytes, spec_u32_from_le_bytes, spec_u32_to_le_bytes, spec_u64_from_le_bytes, spec_u64_to_le_bytes};
use vstd::prelude::*;
use vstd::std_specs::bits::{axiom_u64_trailing_zeros, u64_leading_zeros, u64_trailing_zeros};
use vstd::wrapping::{i32_specs, i64_specs};

verus! {

// ---------------------------------------------------------------------
// Wrapping deltas of i64 values
// ---------------------------------------------------------------------

/// The first value, then each value minus the one before it, wrapping.
pub open spec fn deltas64(v: Seq<i64>) -> Seq<i64> {
    Seq::new(v.len(), |i: int| if i == 0 { v[0] } else { i64_specs::wrapping_sub(v[i], v[i - 1]) })
}

/// Running sums of `d`, wrapping: the inverse of `deltas64`.
pub open spec fn sums64(d: Seq<i64>) -> Seq<i64>
    decreases d.len(),
{
    if d.len() <= 1 {
        d
    } else {
        let p = sums64(d.drop_last());
        p.push(i64_specs::wrapping_add(p.last(), d.last()))
    }
}

/// The bytes of the delta encoding: each delta as 8 little-endian bytes.
pub open spec fn delta64_bytes(v: Seq<i64>) -> Seq<u8> {
    concat_map(deltas64(v), |x: i64| i64_le(x))
}

/// The first `count` little-endian `i64` words of `data`.
pub open spec fn words64(data: Seq<u8>, count: nat) -> Seq<i64> {
    Seq::new(count, |i: int| i64_from_le(data.subrange(8 * i, 8 * i + 8)))
}

/// What decoding `count` delta-encoded values gives: nothing when the bytes
/// are too few.
pub open spec fn delta64_decode(data: Seq<u8>, count: nat) -> Option<Seq<i64>> {
    if count == 0 {
        Some(Seq::empty())
    } else if data.len() < 8 * count {
        None
    } else {
        Some(sums64(words64(data, count)))
    }
}

proof fn lemma_sums64_len(d: Seq<i64>)
    ensures
        sums64(d).len() == d.len(),
    decreases d.len(),
{
    if d.len() > 1 {
        lemma_sums64_len(d.drop_last());
    }
}

/// Summing the deltas gives the values back.
pub proof fn law_delta64_sums(v: Seq<i64>)
    ensures
        sums64(deltas64(v)) == v,
    decreases v.len(),
{
    if v.len() > 1 {
        let p = v.drop_last();
        assert(deltas64(v).drop_last() =~= deltas64(p));
        law_delta64_sums(p);
        lemma_sums64_len(deltas64(p));
        assert(sums64(deltas64(v)) =~= v);
    } else {
        assert(sums64(deltas64(v)) =~= v);
    }
}

/// Decoding the delta encoding of `v` gives `v` back.
pub proof fn law_delta64_roundtrip(v: Seq<i64>)
    ensures
        delta64_decode(delta64_bytes(v), v.len()) == Some(v),
{
    lemma_le_roundtrips();
    let enc = |x: i64| i64_le(x);
    let d = deltas64(v);
    lemma_concat_map_len(d, enc, 8);
    if v.len() > 0 {
        assert forall|k: int| 0 <= k < v.len() implies #[trigger] words64(delta64_bytes(v), v.len())[k] == d[k] by {
            lemma_concat_map_index(d, enc, 8, k);
        }
        assert(words64(delta64_bytes(v), v.len()) =~= d);
        law_delta64_sums(v);
    } else {
        assert(v =~= Seq::<i64>::empty());
    }
}

/// The delta encoding of `values`.
pub fn encode_delta_i64(values: &[i64]) -> (r: Vec<u8>)
    ensures
        r@ == delta64_bytes(values@),
{
    let n = values.len();
    let mut out: Vec<u8> = Vec::new();
    let ghost d = deltas64(values@);
    let mut i: usize = 0;
    while i < n
        invariant
            n == values@.len(),
            d == deltas64(values@),
            i <= n,
            out@ == concat_map(d.subrange(0, i as int), |x: i64| i64_le(x)),
        decreases n - i,
    {
        let delta = if i == 0 { values[0] } else { values[i].wrapping_sub(values[i - 1]) };
        assert(delta == d[i as int]);
        push_i64(&mut out, delta);
        assert(d.subrange(0, i + 1).drop_last() =~= d.subrange(0, i as int));
        i = i + 1;
    }
    assert(d.subrange(0, n as int) =~= d);
    out
}

/// The message for `count` values of `width` bytes each that `len` bytes
/// cannot hold: `{prefix}expected {count * width} bytes{middle}, got {len}`.
pub open spec fn size_message(prefix: Seq<char>, count: nat, width: nat, middle: Seq<char>, len: nat) -> Seq<char> {
    prefix + "expected "@ + spec_decimal(count * width) + " bytes"@ + middle + ", got "@ + spec_decimal(len)
}

fn size_text(prefix: &str, count: usize, width: usize, middle: &str, len: usize) -> (r: String)
    requires
        width <= 8,
    ensures
        r@ == size_message(prefix@, count as nat, width as nat, middle@, len as nat),
{
    let mut s = String::from_str(prefix);
    s.append("expected ");
    let c: u128 = count as u128;
    let w: u128 = width as u128;
    assert(c * w <= 0xffff_ffff_ffff_ffff_u128 * 8) by (nonlinear_arith)
        requires
            c <= 0xffff_ffff_ffff_ffff_u128,
            w <= 8,
    ;
    let product: u128 = c * w;
    let p = u128_to_decimal(product);
    s.append(p.as_str());
    s.append(" bytes");
    s.append(middle);
    s.append(", got ");
    let l = u64_to_decimal(len as u64);
    s.append(l.as_str());
    s
}

/// Decodes `count` delta-encoded values; too few bytes are corrupt.
pub fn decode_delta_i64(data: &[u8], count: usize) -> (r: Result<Vec<i64>, KcmError>)
    ensures
        r is Ok <==> delta64_decode(data@, count as nat) is Some,
        r matches Ok(v) ==> delta64_decode(data@, count as nat) == Some(v@),
        r matches Err(e) ==> (e matches KcmError::Corrupted(m) && m@ == size_message(
            "Delta decode i64: "@,
            count as nat,
            8,
            ""@,
            data@.len(),
        )),
{
    let mut values: Vec<i64> = Vec::new();
    if count == 0 {
        return Ok(values);
    }
    let len = data.len();
    if count > len / 8 {
        assert(len < 8 * count) by (nonlinear_arith)
            requires
                count > len / 8,
        ;
        return Err(KcmError::Corrupted(size_text("Delta decode i64: ", count, 8, "", len)));
    }
    assert(8 * count <= len) by (nonlinear_arith)
        requires
            count <= len / 8,
    ;
    let ghost w = words64(data@, count as nat);
    let mut i: usize = 0;
    while i < count
        invariant
            len == data@.len(),
            8 * count <= len,
            w == words64(data@, count as nat),
            i <= count,
            values@ == sums64(w.subrange(0, i as int)),
        decreases count - i,
    {
        let word = read_i64(data, 8 * i);
        assert(word == w[i as int]);
        let ghost before = values@;
        proof {
            lemma_sums64_len(w.subrange(0, i as int));
            assert(w.subrange(0, i + 1).drop_last() =~= w.subrange(0, i as int));
        }
        if i == 0 {
            values.push(word);
            assert(values@ =~= sums64(w.subrange(0, 1)));
        } else {
            let prev = values[i - 1];
            values.push(prev.wrapping_add(word));
            assert(values@ =~= sums64(w.subrange(0, i + 1)));
        }
        i = i + 1;
    }
    assert(w.subrange(0, count as int) =~= w);
    Ok(values)
}

// ---------------------------------------------------------------------
// Wrapping deltas of i32 values
// ---------------------------------------------------------------------

/// The first value, then each value minus the one before it, wrapping.
pub open spec fn deltas32(v: Seq<i32>) -> Seq<i32> {
    Seq::new(v.len(), |i: int| if i == 0 { v[0] } else { i32_specs::wrapping_sub(v[i], v[i - 1]) })
}

/// Running sums of `d`, wrapping: the inverse of `deltas32`.
pub open spec fn sums32(d: Seq<i32>) -> Seq<i32>
    decreases d.len(),
{
    if d.len() <= 1 {
        d
    } else {
        let p = sums32(d.drop_last());
        p.push(i32_specs::wrapping_add(p.last(), d.last()))
    }
}

/// The bytes of the delta encoding: each delta as 4 little-endian bytes.
pub open spec fn delta32_bytes(v: Seq<i32>) -> Seq<u8> {
    concat_map(deltas32(v), |x: i32| i32_le(x))
}

/// The first `count` little-endian `i32` words of `data`.
pub open spec fn words32(data: Seq<u8>, count: nat) -> Seq<i32> {
    Seq::new(count, |i: int| i32_from_le(data.subrange(4 * i, 4 * i + 4)))
}

/// What decoding `count` delta-encoded values gives: nothing when the bytes
/// are too few.
pub open spec fn delta32_decode(data: Seq<u8>, count: nat) -> Option<Seq<i32>> {
    if count == 0 {
        Some(Seq::empty())
    } else if data.len() < 4 * count {
        None
    } else {
        Some(sums32(words32(data, count)))
    }
}

proof fn lemma_sums32_len(d: Seq<i32>)
    ensures
        sums32(d).len() == d.len(),
    decreases d.len(),
{
    if d.len() > 1 {
        lemma_sums32_len(d.drop_last());
    }
}

/// Summing the deltas gives the values back.
pub proof fn law_delta32_sums(v: Seq<i32>)
    ensures
        sums32(deltas32(v)) == v,
    decreases v.len(),
{
    if v.len() > 1 {
        let p = v.drop_last();
        assert(deltas32(v).drop_last() =~= deltas32(p));
        law_delta32_sums(p);
        lemma_sums32_len(deltas32(p));
        assert(sums32(deltas32(v)) =~= v);
    } else {
        assert(sums32(deltas32(v)) =~= v);
    }
}

/// Decoding the delta encoding of `v` gives `v` back.
pub proof fn law_delta32_roundtrip(v: Seq<i32>)
    ensures
        delta32_decode(delta32_bytes(v), v.len()) == Some(v),
{
    lemma_le_roundtrips();
    let enc = |x: i32| i32_le(x);
    let d = deltas32(v);
    lemma_concat_map_len(d, enc, 4);
    if v.len() > 0 {
        assert forall|k: int| 0 <= k < v.len() implies #[trigger] words32(delta32_bytes(v), v.len())[k] == d[k] by {
            lemma_concat_map_index(d, enc, 4, k);
        }
        assert(words32(delta32_bytes(v), v.len()) =~= d);
        law_delta32_sums(v);
    } else {
        assert(v =~= Seq::<i32>::empty());
    }
}

/// The delta encoding of `values`.
pub fn encode_delta_i32(values: &[i32]) -> (r: Vec<u8>)
    ensures
        r@ == delta32_bytes(values@),
{
    let n = values.len();
    let mut out: Vec<u8> = Vec::new();
    let ghost d = deltas32(values@);
    let mut i: usize = 0;
    while i < n
        invariant
            n == values@.len(),
            d == deltas32(values@),
            i <= n,
            out@ == concat_map(d.subrange(0, i as int), |x: i32| i32_le(x)),
        decreases n - i,
    {
        let delta = if i == 0 { values[0] } else { values[i].wrapping_sub(values[i - 1]) };
        assert(delta == d[i as int]);
        push_i32(&mut out, delta);
        assert(d.subrange(0, i + 1).drop_last() =~= d.subrange(0, i as int));
        i = i + 1;
    }
    assert(d.subrange(0, n as int) =~= d);
    out
}

/// Decodes `count` delta-encoded values; too few bytes are corrupt.
pub fn decode_delta_i32(data: &[u8], count: usize) -> (r: Result<Vec<i32>, KcmError>)
    ensures
        r is Ok <==> delta32_decode(data@, count as nat) is Some,
        r matches Ok(v) ==> delta32_decode(data@, count as nat) == Some(v@),
        r matches Err(e) ==> (e matches KcmError::Corrupted(m) && m@ == size_message(
            "Delta decode i32: "@,
            count as nat,
            4,
            ""@,
            data@.len(),
        )),
{
    let mut values: Vec<i32> = Vec::new();
    if count == 0 {
        return Ok(values);
    }
    let len = data.len();
    if count > len / 4 {
        assert(len < 4 * count) by (nonlinear_arith)
            requires
                count > len / 4,
        ;
        return Err(KcmError::Corrupted(size_text("Delta decode i32: ", count, 4, "", len)));
    }
    assert(4 * count <= len) by (nonlinear_arith)
        requires
            count <= len / 4,
    ;
    let ghost w = words32(data@, count as nat);
    let mut i: usize = 0;
    while i < count
        invariant
            len == data@.len(),
            4 * count <= len,
            w == words32(data@, count as nat),
            i <= count,
            values@ == sums32(w.subrange(0, i as int)),
        decreases count - i,
    {
        let word = read_i32(data, 4 * i);
        assert(word == w[i as int]);
        let ghost before = values@;
        proof {
            lemma_sums32_len(w.subrange(0, i as int));
            assert(w.subrange(0, i + 1).drop_last() =~= w.subrange(0, i as int));
        }
        if i == 0 {
            values.push(word);
            assert(values@ =~= sums32(w.subrange(0, 1)));
        } else {
            let prev = values[i - 1];
            values.push(prev.wrapping_add(word));
            assert(values@ =~= sums32(w.subrange(0, i + 1)));
        }
        i = i + 1;
    }
    assert(w.subrange(0, count as int) =~= w);
    Ok(values)
}


// ---------------------------------------------------------------------
// XOR encoding of 64-bit float bit patterns
// ---------------------------------------------------------------------

/// The entry that encodes `cur` after `prev`: a zero byte when they are
/// equal; otherwise a one byte, the leading-zero count of their XOR, the
/// XOR shifted right past its trailing zeros (8 little-endian bytes), and
/// the trailing-zero count.
pub open spec fn xor_entry(prev: u64, cur: u64) -> Seq<u8> {
    let x = cur ^ prev;
    if x == 0 {
        seq![0u8]
    } else {
        let t = u64_trailing_zeros(x);
        seq![1u8, u64_leading_zeros(x) as u8] + spec_u64_to_le_bytes(x >> (t as u64)) + seq![t as u8]
    }
}

/// The entries of `rest`, each encoded after the value before it.
pub open spec fn xor_tail(prev: u64, rest: Seq<u64>) -> Seq<u8>
    decreases rest.len(),
{
    if rest.len() == 0 {
        Seq::empty()
    } else {
        xor_entry(prev, rest[0]) + xor_tail(rest[0], rest.drop_first())
    }
}

/// The XOR encoding: the first pattern as 8 little-endian bytes, then one
/// entry per further pattern.
pub open spec fn xor_bytes(v: Seq<u64>) -> Seq<u8> {
    if v.len() == 0 {
        Seq::empty()
    } else {
        spec_u64_to_le_bytes(v[0]) + xor_tail(v[0], v.drop_first())
    }
}

/// Reading `k` entries from `off`, the pattern before them being `prev`:
/// a zero flag repeats `prev`; any other flag is followed by ten bytes, of
/// which the eight after the first are the shifted XOR and the last is the
/// shift (taken modulo 64). Nothing when the bytes run out.
pub open spec fn xor_parse(data: Seq<u8>, off: int, prev: u64, k: nat) -> Option<Seq<u64>>
    decreases k,
{
    if k == 0 {
        Some(Seq::empty())
    } else if off < 0 || off >= data.len() {
        None
    } else if data[off] == 0 {
        match xor_parse(data, off + 1, prev, (k - 1) as nat) {
            Some(r) => Some(seq![prev] + r),
            None => None,
        }
    } else if off + 11 > data.len() {
        None
    } else {
        let cur = prev ^ (spec_u64_from_le_bytes(data.subrange(off + 2, off + 10)) << ((data[off + 10] % 64) as u64));
        match xor_parse(data, off + 11, cur, (k - 1) as nat) {
            Some(r) => Some(seq![cur] + r),
            None => None,
        }
    }
}

/// Where parsing `k` entries from `off` fails: the offset of the entry
/// that is missing or cut short (`-1` when nothing fails).
pub open spec fn xor_fail(data: Seq<u8>, off: int, prev: u64, k: nat) -> int
    decreases k,
{
    if k == 0 {
        -1
    } else if off < 0 || off >= data.len() {
        off
    } else if data[off] == 0 {
        xor_fail(data, off + 1, prev, (k - 1) as nat)
    } else if off + 11 > data.len() {
        off
    } else {
        let cur = prev ^ (spec_u64_from_le_bytes(data.subrange(off + 2, off + 10)) << ((data[off + 10] % 64) as u64));
        xor_fail(data, off + 11, cur, (k - 1) as nat)
    }
}

/// The error of decoding `count` patterns from bytes that are too few.
pub open spec fn xor_error(data: Seq<u8>, count: nat) -> Seq<char> {
    if data.len() < 8 {
        "Gorilla decode: insufficient data for first value"@
    } else {
        let f = xor_fail(data, 8, spec_u64_from_le_bytes(data.subrange(0, 8)), (count - 1) as nat);
        if f >= data.len() {
            "Gorilla decode: insufficient data at offset "@ + spec_decimal(f as nat) + ", have "@ + spec_decimal(data.len())
        } else {
            "Gorilla decode: need 9 bytes for entry at offset "@ + spec_decimal((f + 1) as nat) + ", have "@
                + spec_decimal((data.len() - f - 1) as nat)
        }
    }
}

/// What decoding `count` patterns gives: nothing when the bytes are too few.
pub open spec fn xor_decode(data: Seq<u8>, count: nat) -> Option<Seq<u64>> {
    if count == 0 {
        Some(Seq::empty())
    } else if data.len() < 8 {
        None
    } else {
        let first = spec_u64_from_le_bytes(data.subrange(0, 8));
        match xor_parse(data, 8, first, (count - 1) as nat) {
            Some(r) => Some(seq![first] + r),
            None => None,
        }
    }
}

/// The pattern the entries end on.
pub open spec fn xor_last(prev: u64, rest: Seq<u64>) -> u64 {
    if rest.len() == 0 {
        prev
    } else {
        rest.last()
    }
}

proof fn lemma_xor_tail_push(prev: u64, rest: Seq<u64>, c: u64)
    ensures
        xor_tail(prev, rest.push(c)) == xor_tail(prev, rest) + xor_entry(xor_last(prev, rest), c),
    decreases rest.len(),
{
    if rest.len() == 0 {
        assert(rest.push(c).drop_first() =~= Seq::<u64>::empty());
        assert(rest.push(c)[0] == c);
        assert(xor_tail(c, Seq::<u64>::empty()) == Seq::<u8>::empty());
        assert(xor_tail(prev, rest) == Seq::<u8>::empty());
        assert(xor_tail(prev, rest.push(c)) =~= xor_entry(prev, c));
    } else {
        assert(rest.push(c).drop_first() =~= rest.drop_first().push(c));
        lemma_xor_tail_push(rest[0], rest.drop_first(), c);
        if rest.len() == 1 {
            assert(rest.drop_first() =~= Seq::<u64>::empty());
        }
        assert(xor_tail(prev, rest.push(c)) =~= xor_tail(prev, rest) + xor_entry(xor_last(prev, rest), c));
    }
}

/// Facts of the bit operations an entry relies on.
proof fn lemma_xor_bits(prev: u64, cur: u64)
    ensures
        (cur ^ prev == 0) ==> cur == prev,
        (cur ^ prev) != 0 ==> u64_trailing_zeros(cur ^ prev) < 64,
        (cur ^ prev) != 0 ==> prev ^ (((cur ^ prev) >> (u64_trailing_zeros(cur ^ prev) as u64)) << (u64_trailing_zeros(cur
            ^ prev) as u64)) == cur,
{
    let x = cur ^ prev;
    assert(x == 0 ==> cur == prev) by (bit_vector)
        requires
            x == cur ^ prev,
    ;
    if x != 0 {
        axiom_u64_trailing_zeros(x);
        let t = u64_trailing_zeros(x) as u64;
        assert(t < 64);
        assert(x << ((64 - t) as u64) == 0u64);
        assert((x >> t) << t == x) by (bit_vector)
            requires
                t < 64,
                x << ((64 - t) as u64) == 0u64,
        ;
        assert(prev ^ x == cur) by (bit_vector)
            requires
                x == cur ^ prev,
        ;
    }
}

proof fn lemma_xor_entry_len(prev: u64, cur: u64)
    ensures
        (cur ^ prev == 0) ==> xor_entry(prev, cur).len() == 1,
        (cur ^ prev != 0) ==> xor_entry(prev, cur).len() == 11,
{
    lemma_le_roundtrips();
}

/// The entries encoded after `prev`, found at `off`, read back as `rest`.
proof fn lemma_xor_parse(data: Seq<u8>, off: int, prev: u64, rest: Seq<u64>)
    requires
        0 <= off,
        off + xor_tail(prev, rest).len() <= data.len(),
        data.subrange(off, off + xor_tail(prev, rest).len()) == xor_tail(prev, rest),
    ensures
        xor_parse(data, off, prev, rest.len()) == Some(rest),
    decreases rest.len(),
{
    if rest.len() == 0 {
        assert(xor_parse(data, off, prev, 0) == Some(Seq::<u64>::empty()));
        assert(rest =~= Seq::<u64>::empty());
    } else {
        let c = rest[0];
        let e = xor_entry(prev, c);
        let t = xor_tail(c, rest.drop_first());
        let whole = xor_tail(prev, rest);
        assert(whole == e + t);
        lemma_xor_entry_len(prev, c);
        lemma_xor_bits(prev, c);
        lemma_le_roundtrips();
        lemma_window(data, off, whole, e.len() as int, whole.len() as int);
        assert(whole.subrange(e.len() as int, whole.len() as int) =~= t);
        lemma_window(data, off, whole, 0, e.len() as int);
        assert(whole.subrange(0, e.len() as int) =~= e);
        assert(data[off] == e[0]) by {
            assert(data.subrange(off, off + e.len())[0] == data[off]);
        }
        let x = c ^ prev;
        if x == 0 {
            lemma_xor_parse(data, off + 1, c, rest.drop_first());
            assert(seq![c] + rest.drop_first() =~= rest);
        } else {
            let tz = u64_trailing_zeros(x);
            let sh = x >> (tz as u64);
            assert(e =~= seq![1u8, u64_leading_zeros(x) as u8] + spec_u64_to_le_bytes(sh) + seq![tz as u8]);
            assert(e.subrange(2, 10) =~= spec_u64_to_le_bytes(sh));
            lemma_window(data, off, e, 2, 10);
            assert(data.subrange(off + 2, off + 10) == spec_u64_to_le_bytes(sh));
            assert(data[off + 10] == e[10]) by {
                assert(data.subrange(off, off + e.len())[10] == data[off + 10]);
            }
            assert(e[10] == tz as u8);
            assert(((tz as u8) % 64) as u64 == tz as u64);
            lemma_xor_parse(data, off + 11, c, rest.drop_first());
            assert(seq![c] + rest.drop_first() =~= rest);
        }
    }
}

/// Decoding the XOR encoding of `v` gives `v` back.
pub proof fn law_xor_column_roundtrip(v: Seq<u64>)
    ensures
        xor_decode(xor_bytes(v), v.len()) == Some(v),
{
    if v.len() == 0 {
        assert(v =~= Seq::<u64>::empty());
    } else {
        lemma_le_roundtrips();
        let d = xor_bytes(v);
        let head = spec_u64_to_le_bytes(v[0]);
        let tail = xor_tail(v[0], v.drop_first());
        assert(d.subrange(0, 8) =~= head);
        assert(d.subrange(8, 8 + tail.len() as int) =~= tail);
        lemma_xor_parse(d, 8, v[0], v.drop_first());
        assert(seq![v[0]] + v.drop_first() =~= v);
    }
}

proof fn lemma_xor_parse_len(data: Seq<u8>, off: int, prev: u64, k: nat)
    ensures
        xor_parse(data, off, prev, k) matches Some(r) ==> r.len() == k,
    decreases k,
{
    if k > 0 && 0 <= off < data.len() {
        if data[off] == 0 {
            lemma_xor_parse_len(data, off + 1, prev, (k - 1) as nat);
        } else if off + 11 <= data.len() {
            let cur = prev ^ (spec_u64_from_le_bytes(data.subrange(off + 2, off + 10)) << ((data[off + 10] % 64) as u64));
            lemma_xor_parse_len(data, off + 11, cur, (k - 1) as nat);
        }
    }
}

/// The XOR encoding of `values`.
pub fn encode_xor_u64(values: &[u64]) -> (r: Vec<u8>)
    ensures
        r@ == xor_bytes(values@),
{
    let n = values.len();
    let mut out: Vec<u8> = Vec::new();
    if n == 0 {
        return out;
    }
    push_u64(&mut out, values[0]);
    let ghost v = values@;
    let mut prev = values[0];
    let mut i: usize = 1;
    assert(v.subrange(1, 1) =~= Seq::<u64>::empty());
    while i < n
        invariant
            n == v.len(),
            v == values@,
            1 <= i <= n,
            prev == xor_last(v[0], v.subrange(1, i as int)),
            out@ == spec_u64_to_le_bytes(v[0]) + xor_tail(v[0], v.subrange(1, i as int)),
        decreases n - i,
    {
        let cur = values[i];
        let x = cur ^ prev;
        let ghost before = out@;
        if x == 0 {
            out.push(0u8);
        } else {
            out.push(1u8);
            let leading = x.leading_zeros();
            let trailing = x.trailing_zeros();
            proof {
                axiom_u64_trailing_zeros(x);
            }
            out.push(leading as u8);
            push_u64(&mut out, x >> (trailing as u64));
            out.push(trailing as u8);
        }
        proof {
            lemma_xor_tail_push(v[0], v.subrange(1, i as int), cur);
            assert(v.subrange(1, i + 1) =~= v.subrange(1, i as int).push(cur));
            assert(out@ =~= before + xor_entry(prev, cur));
        }
        prev = cur;
        i = i + 1;
    }
    assert(v.subrange(1, n as int) =~= v.drop_first());
    out
}

/// Decodes `count` XOR-encoded patterns; bytes that run out are corrupt.
pub fn decode_xor_u64(data: &[u8], count: usize) -> (r: Result<Vec<u64>, KcmError>)
    ensures
        r is Ok <==> xor_decode(data@, count as nat) is Some,
        r matches Ok(v) ==> xor_decode(data@, count as nat) == Some(v@),
        r matches Err(e) ==> (e matches KcmError::Corrupted(m) && m@ == xor_error(data@, count as nat)),
{
    let mut values: Vec<u64> = Vec::new();
    if count == 0 {
        return Ok(values);
    }
    let len = data.len();
    if len < 8 {
        return Err(KcmError::Corrupted(String::from_str("Gorilla decode: insufficient data for first value")));
    }
    let first = read_u64(data, 0);
    let ghost fail = xor_fail(data@, 8, first, (count - 1) as nat);
    values.push(first);
    let mut prev = first;
    let mut off: usize = 8;
    let mut i: usize = 1;
    while i < count
        invariant
            len == data@.len(),
            8 <= off,
            1 <= i <= count,
            xor_decode(data@, count as nat) == (match xor_parse(data@, off as int, prev, (count - i) as nat) {
                Some(r) => Some(values@ + r),
                None => None,
            }),
            len >= 8,
            fail == xor_fail(data@, 8, spec_u64_from_le_bytes(data@.subrange(0, 8)), (count - 1) as nat),
            fail == xor_fail(data@, off as int, prev, (count - i) as nat),
        decreases count - i,
    {
        if off >= len {
            let mut m = String::from_str("Gorilla decode: insufficient data at offset ");
            let a = u64_to_decimal(off as u64);
            m.append(a.as_str());
            m.append(", have ");
            let b = u64_to_decimal(len as u64);
            m.append(b.as_str());
            return Err(KcmError::Corrupted(m));
        }
        let flag = data[off];
        let ghost k = (count - i) as nat;
        let ghost before = values@;
        if flag == 0 {
            values.push(prev);
            proof {
                assert(xor_parse(data@, off as int, prev, k) == match xor_parse(data@, off + 1, prev, (k - 1) as nat) {
                    Some(r) => Some(seq![prev] + r),
                    None => None,
                });
                if let Some(r) = xor_parse(data@, off + 1, prev, (k - 1) as nat) {
                    assert(before + (seq![prev] + r) =~= values@ + r);
                }
            }
            off = off + 1;
        } else {
            if len - off < 11 {
                let mut m = String::from_str("Gorilla decode: need 9 bytes for entry at offset ");
                let a = u64_to_decimal((off + 1) as u64);
                m.append(a.as_str());
                m.append(", have ");
                let b = u64_to_decimal((len - off - 1) as u64);
                m.append(b.as_str());
                return Err(KcmError::Corrupted(m));
            }
            let shifted = read_u64(data, off + 2);
            let shift = data[off + 10] % 64;
            let cur = prev ^ (shifted << (shift as u64));
            values.push(cur);
            proof {
                assert(xor_parse(data@, off as int, prev, k) == match xor_parse(data@, off + 11, cur, (k - 1) as nat) {
                    Some(r) => Some(seq![cur] + r),
                    None => None,
                });
                if let Some(r) = xor_parse(data@, off + 11, cur, (k - 1) as nat) {
                    assert(before + (seq![cur] + r) =~= values@ + r);
                }
            }
            prev = cur;
            off = off + 11;
        }
        i = i + 1;
    }
    assert(xor_parse(data@, off as int, prev, 0) == Some(Seq::<u64>::empty()));
    assert(values@ + Seq::<u64>::empty() =~= values@);
    Ok(values)
}

// ---------------------------------------------------------------------
// Values a column can hold
// ---------------------------------------------------------------------

/// A fixed-width value with little-endian bytes.
pub trait LeBytes: Copy + Sized {
    /// The number of bytes of one value.
    spec fn spec_width() -> nat;

    /// The little-endian bytes of a value.
    spec fn spec_le(v: Self) -> Seq<u8>;

    /// The value whose little-endian bytes are `b`.
    spec fn spec_from_le(b: Seq<u8>) -> Self;

    fn width() -> (w: usize)
        ensures
            w == Self::spec_width(),
            1 <= w <= 8,
    ;

    fn push_le(buf: &mut Vec<u8>, v: Self)
        ensures
            final(buf)@ == old(buf)@ + Self::spec_le(v),
    ;

    fn read_le(data: &[u8], off: usize) -> (v: Self)
        requires
            off + Self::spec_width() <= data@.len(),
        ensures
            v == Self::spec_from_le(data@.subrange(off as int, off + Self::spec_width())),
    ;

    /// A value's bytes have the width and read back as the value.
    proof fn lemma_le(v: Self)
        ensures
            Self::spec_le(v).len() == Self::spec_width(),
            Self::spec_from_le(Self::spec_le(v)) == v,
    ;
}

/// A value a column can hold, with how a slice of such values is encoded
/// under each column encoding.
pub trait ColumnValue: LeBytes {
    /// The bytes `encode_values` produces.
    spec fn spec_encode(v: Seq<Self>, enc: ColumnEncoding) -> Seq<u8>;

    /// What `decode_values` gives for `count` values, or nothing when the
    /// bytes are corrupt.
    spec fn spec_decode(data: Seq<u8>, count: nat, enc: ColumnEncoding) -> Option<Seq<Self>>;

    fn encode_values(values: &[Self], enc: ColumnEncoding) -> (r: Vec<u8>)
        ensures
            r@ == Self::spec_encode(values@, enc),
    ;

    fn decode_values(data: &[u8], count: usize, enc: ColumnEncoding) -> (r: Result<Vec<Self>, KcmError>)
        ensures
            r is Ok <==> Self::spec_decode(data@, count as nat, enc) is Some,
            r matches Ok(v) ==> Self::spec_decode(data@, count as nat, enc) == Some(v@),
            r matches Err(e) ==> e is Corrupted,
    ;

    /// Decoding what an encoding produced gives the values back.
    proof fn lemma_roundtrip(v: Seq<Self>, enc: ColumnEncoding)
        ensures
            Self::spec_decode(Self::spec_encode(v, enc), v.len(), enc) == Some(v),
    ;

    /// A successful decoding gives exactly `count` values.
    proof fn lemma_decode_len(data: Seq<u8>, count: nat, enc: ColumnEncoding)
        ensures
            Self::spec_decode(data, count, enc) matches Some(v) ==> v.len() == count,
    ;
}

/// Each value's little-endian bytes, one after the other.
pub open spec fn identity_bytes<T: LeBytes>(v: Seq<T>) -> Seq<u8> {
    concat_map(v, |x: T| T::spec_le(x))
}

/// The first `count` values of `data`, or nothing when it is too short.
pub open spec fn identity_decode<T: LeBytes>(data: Seq<u8>, count: nat) -> Option<Seq<T>> {
    if data.len() < T::spec_width() * count {
        None
    } else {
        Some(Seq::new(count, |i: int| T::spec_from_le(data.subrange(T::spec_width() * i, T::spec_width() * i + T::spec_width()))))
    }
}

/// Decoding the plain encoding of `v` gives `v` back.
pub proof fn law_identity_roundtrip<T: LeBytes>(v: Seq<T>)
    ensures
        identity_decode::<T>(identity_bytes(v), v.len()) == Some(v),
{
    let enc = |x: T| T::spec_le(x);
    let w = T::spec_width();
    assert forall|x: T| #[trigger] enc(x).len() == w by {
        T::lemma_le(x);
    }
    lemma_concat_map_len(v, enc, w);
    let d = identity_bytes(v);
    let r = Seq::new(v.len(), |i: int| T::spec_from_le(d.subrange(w * i, w * i + w)));
    assert forall|k: int| 0 <= k < v.len() implies #[trigger] r[k] == v[k] by {
        lemma_concat_map_index(v, enc, w, k);
        T::lemma_le(v[k]);
    }
    assert(r =~= v);
}

/// The plain encoding of `values`.
pub fn encode_identity<T: LeBytes>(values: &[T]) -> (r: Vec<u8>)
    ensures
        r@ == identity_bytes(values@),
{
    let n = values.len();
    let mut out: Vec<u8> = Vec::new();
    let mut i: usize = 0;
    while i < n
        invariant
            n == values@.len(),
            i <= n,
            out@ == concat_map(values@.subrange(0, i as int), |x: T| T::spec_le(x)),
        decreases n - i,
    {
        T::push_le(&mut out, values[i]);
        assert(values@.subrange(0, i + 1).drop_last() =~= values@.subrange(0, i as int));
        i = i + 1;
    }
    assert(values@.subrange(0, n as int) =~= values@);
    out
}

/// Reads `count` plain-encoded values; too few bytes are corrupt.
pub fn decode_to_slice<T: LeBytes>(data: &[u8], count: usize) -> (r: Result<Vec<T>, KcmError>)
    ensures
        r is Ok <==> identity_decode::<T>(data@, count as nat) is Some,
        r matches Ok(v) ==> identity_decode::<T>(data@, count as nat) == Some(v@),
        r matches Err(e) ==> (e matches KcmError::Corrupted(m) && m@ == size_message(
            "Decode: "@,
            count as nat,
            T::spec_width(),
            " for "@ + spec_decimal(count as nat) + " elements"@,
            data@.len(),
        )),
{
    let w = T::width();
    let len = data.len();
    if count > len / w {
        assert(len < w * count) by (nonlinear_arith)
            requires
                count > len / w,
                w >= 1,
        ;
        let mut middle = String::from_str(" for ");
        let c = u64_to_decimal(count as u64);
        middle.append(c.as_str());
        middle.append(" elements");
        return Err(KcmError::Corrupted(size_text("Decode: ", count, w, middle.as_str(), len)));
    }
    assert(w * count <= len) by (nonlinear_arith)
        requires
            count <= len / w,
            w >= 1,
    ;
    let ghost expect = Seq::new(count as nat, |i: int| T::spec_from_le(data@.subrange(w * i, w * i + w)));
    let mut values: Vec<T> = Vec::new();
    let mut i: usize = 0;
    while i < count
        invariant
            len == data@.len(),
            w == T::spec_width(),
            1 <= w <= 8,
            w * count <= len,
            i <= count,
            expect == Seq::new(count as nat, |i: int| T::spec_from_le(data@.subrange(w * i, w * i + w))),
            values@ == expect.subrange(0, i as int),
        decreases count - i,
    {
        assert(w * i + w <= w * count) by (nonlinear_arith)
            requires
                i < count,
                w >= 1,
        ;
        let v = T::read_le(data, w * i);
        values.push(v);
        assert(values@ =~= expect.subrange(0, i + 1));
        i = i + 1;
    }
    assert(expect.subrange(0, count as int) =~= expect);
    Ok(values)
}

impl LeBytes for u8 {
    open spec fn spec_width() -> nat {
        1
    }

    open spec fn spec_le(v: u8) -> Seq<u8> {
        seq![v]
    }

    open spec fn spec_from_le(b: Seq<u8>) -> u8 {
        b[0]
    }

    fn width() -> (w: usize) {
        1
    }

    fn push_le(buf: &mut Vec<u8>, v: u8) {
        buf.push(v);
    }

    fn read_le(data: &[u8], off: usize) -> (v: u8) {
        data[off]
    }

    proof fn lemma_le(v: u8) {
    }
}

impl ColumnValue for u8 {
    open spec fn spec_encode(v: Seq<u8>, enc: ColumnEncoding) -> Seq<u8> {
        identity_bytes(v)
    }

    open spec fn spec_decode(data: Seq<u8>, count: nat, enc: ColumnEncoding) -> Option<Seq<u8>> {
        identity_decode(data, count)
    }

    fn encode_values(values: &[u8], enc: ColumnEncoding) -> (r: Vec<u8>) {
        encode_identity(values)
    }

    fn decode_values(data: &[u8], count: usize, enc: ColumnEncoding) -> (r: Result<Vec<u8>, KcmError>) {
        decode_to_slice(data, count)
    }

    proof fn lemma_roundtrip(v: Seq<u8>, enc: ColumnEncoding) {
        law_identity_roundtrip(v);
    }

    proof fn lemma_decode_len(data: Seq<u8>, count: nat, enc: ColumnEncoding) {
    }
}

impl LeBytes for i8 {
    open spec fn spec_width() -> nat {
        1
    }

    open spec fn spec_le(v: i8) -> Seq<u8> {
        seq![v as u8]
    }

    open spec fn spec_from_le(b: Seq<u8>) -> i8 {
        b[0] as i8
    }

    fn width() -> (w: usize) {
        1
    }

    fn push_le(buf: &mut Vec<u8>, v: i8) {
        buf.push(v as u8);
    }

    fn read_le(data: &[u8], off: usize) -> (v: i8) {
        data[off] as i8
    }

    proof fn lemma_le(v: i8) {
        lemma_i8_cast_roundtrip(v);
    }
}

impl ColumnValue for i8 {
    open spec fn spec_encode(v: Seq<i8>, enc: ColumnEncoding) -> Seq<u8> {
        identity_bytes(v)
    }

    open spec fn spec_decode(data: Seq<u8>, count: nat, enc: ColumnEncoding) -> Option<Seq<i8>> {
        identity_decode(data, count)
    }

    fn encode_values(values: &[i8], enc: ColumnEncoding) -> (r: Vec<u8>) {
        encode_identity(values)
    }

    fn decode_values(data: &[u8], count: usize, enc: ColumnEncoding) -> (r: Result<Vec<i8>, KcmError>) {
        decode_to_slice(data, count)
    }

    proof fn lemma_roundtrip(v: Seq<i8>, enc: ColumnEncoding) {
        law_identity_roundtrip(v);
    }

    proof fn lemma_decode_len(data: Seq<u8>, count: nat, enc: ColumnEncoding) {
    }
}

impl LeBytes for u16 {
    open spec fn spec_width() -> nat {
        2
    }

    open spec fn spec_le(v: u16) -> Seq<u8> {
        spec_u16_to_le_bytes(v)
    }

    open spec fn spec_from_le(b: Seq<u8>) -> u16 {
        spec_u16_from_le_bytes(b)
    }

    fn width() -> (w: usize) {
        2
    }

    fn push_le(buf: &mut Vec<u8>, v: u16) {
        push_u16(buf, v);
    }

    fn read_le(data: &[u8], off: usize) -> (v: u16) {
        read_u16(data, off)
    }

    proof fn lemma_le(v: u16) {
        lemma_le_roundtrips();
    }
}

impl ColumnValue for u16 {
    open spec fn spec_encode(v: Seq<u16>, enc: ColumnEncoding) -> Seq<u8> {
        identity_bytes(v)
    }

    open spec fn spec_decode(data: Seq<u8>, count: nat, enc: ColumnEncoding) -> Option<Seq<u16>> {
        identity_decode(data, count)
    }

    fn encode_values(values: &[u16], enc: ColumnEncoding) -> (r: Vec<u8>) {
        encode_identity(values)
    }

    fn decode_values(data: &[u8], count: usize, enc: ColumnEncoding) -> (r: Result<Vec<u16>, KcmError>) {
        decode_to_slice(data, count)
    }

    proof fn lemma_roundtrip(v: Seq<u16>, enc: ColumnEncoding) {
        law_identity_roundtrip(v);
    }

    proof fn lemma_decode_len(data: Seq<u8>, count: nat, enc: ColumnEncoding) {
    }
}

impl LeBytes for u32 {
    open spec fn spec_width() -> nat {
        4
    }

    open spec fn spec_le(v: u32) -> Seq<u8> {
        spec_u32_to_le_bytes(v)
    }

    open spec fn spec_from_le(b: Seq<u8>) -> u32 {
        spec_u32_from_le_bytes(b)
    }

    fn width() -> (w: usize) {
        4
    }

    fn push_le(buf: &mut Vec<u8>, v: u32) {
        push_u32(buf, v);
    }

    fn read_le(data: &[u8], off: usize) -> (v: u32) {
        read_u32(data, off)
    }

    proof fn lemma_le(v: u32) {
        lemma_le_roundtrips();
    }
}

impl ColumnValue for u32 {
    open spec fn spec_encode(v: Seq<u32>, enc: ColumnEncoding) -> Seq<u8> {
        identity_bytes(v)
    }

    open spec fn spec_decode(data: Seq<u8>, count: nat, enc: ColumnEncoding) -> Option<Seq<u32>> {
        identity_decode(data, count)
    }

    fn encode_values(values: &[u32], enc: ColumnEncoding) -> (r: Vec<u8>) {
        encode_identity(values)
    }

    fn decode_values(data: &[u8], count: usize, enc: ColumnEncoding) -> (r: Result<Vec<u32>, KcmError>) {
        decode_to_slice(data, count)
    }

    proof fn lemma_roundtrip(v: Seq<u32>, enc: ColumnEncoding) {
        law_identity_roundtrip(v);
    }

    proof fn lemma_decode_len(data: Seq<u8>, count: nat, enc: ColumnEncoding) {
    }
}

impl LeBytes for i32 {
    open spec fn spec_width() -> nat {
        4
    }

    open spec fn spec_le(v: i32) -> Seq<u8> {
        i32_le(v)
    }

    open spec fn spec_from_le(b: Seq<u8>) -> i32 {
        i32_from_le(b)
    }

    fn width() -> (w: usize) {
        4
    }

    fn push_le(buf: &mut Vec<u8>, v: i32) {
        push_i32(buf, v);
    }

    fn read_le(data: &[u8], off: usize) -> (v: i32) {
        read_i32(data, off)
    }

    proof fn lemma_le(v: i32) {
        lemma_le_roundtrips();
    }
}

impl ColumnValue for i32 {
    open spec fn spec_encode(v: Seq<i32>, enc: ColumnEncoding) -> Seq<u8> {
        if enc is Delta {
            delta32_bytes(v)
        } else {
            identity_bytes(v)
        }
    }

    open spec fn spec_decode(data: Seq<u8>, count: nat, enc: ColumnEncoding) -> Option<Seq<i32>> {
        if enc is Delta {
            delta32_decode(data, count)
        } else {
            identity_decode(data, count)
        }
    }

    fn encode_values(values: &[i32], enc: ColumnEncoding) -> (r: Vec<u8>) {
        match enc {
            ColumnEncoding::Delta => encode_delta_i32(values),
            _ => encode_identity(values),
        }
    }

    fn decode_values(data: &[u8], count: usize, enc: ColumnEncoding) -> (r: Result<Vec<i32>, KcmError>) {
        match enc {
            ColumnEncoding::Delta => decode_delta_i32(data, count),
            _ => decode_to_slice(data, count),
        }
    }

    proof fn lemma_roundtrip(v: Seq<i32>, enc: ColumnEncoding) {
        law_identity_roundtrip(v);
        law_delta32_roundtrip(v);
    }

    proof fn lemma_decode_len(data: Seq<u8>, count: nat, enc: ColumnEncoding) {
        lemma_sums32_len(words32(data, count));
    }
}

impl LeBytes for i64 {
    open spec fn spec_width() -> nat {
        8
    }

    open spec fn spec_le(v: i64) -> Seq<u8> {
        i64_le(v)
    }

    open spec fn spec_from_le(b: Seq<u8>) -> i64 {
        i64_from_le(b)
    }

    fn width() -> (w: usize) {
        8
    }

    fn push_le(buf: &mut Vec<u8>, v: i64) {
        push_i64(buf, v);
    }

    fn read_le(data: &[u8], off: usize) -> (v: i64) {
        read_i64(data, off)
    }

    proof fn lemma_le(v: i64) {
        lemma_le_roundtrips();
    }
}

impl ColumnValue for i64 {
    open spec fn spec_encode(v: Seq<i64>, enc: ColumnEncoding) -> Seq<u8> {
        if enc is Delta {
            delta64_bytes(v)
        } else {
            identity_bytes(v)
        }
    }

    open spec fn spec_decode(data: Seq<u8>, count: nat, enc: ColumnEncoding) -> Option<Seq<i64>> {
        if enc is Delta {
            delta64_decode(data, count)
        } else {
            identity_decode(data, count)
        }
    }

    fn encode_values(values: &[i64], enc: ColumnEncoding) -> (r: Vec<u8>) {
        match enc {
            ColumnEncoding::Delta => encode_delta_i64(values),
            _ => encode_identity(values),
        }
    }

    fn decode_values(data: &[u8], count: usize, enc: ColumnEncoding) -> (r: Result<Vec<i64>, KcmError>) {
        match enc {
            ColumnEncoding::Delta => decode_delta_i64(data, count),
            _ => decode_to_slice(data, count),
        }
    }

    proof fn lemma_roundtrip(v: Seq<i64>, enc: ColumnEncoding) {
        law_identity_roundtrip(v);
        law_delta64_roundtrip(v);
    }

    proof fn lemma_decode_len(data: Seq<u8>, count: nat, enc: ColumnEncoding) {
        lemma_sums64_len(words64(data, count));
    }
}

/// `u64` values are the bit patterns of 64-bit floats: the XOR encoding
/// applies to them.
impl LeBytes for u64 {
    open spec fn spec_width() -> nat {
        8
    }

    open spec fn spec_le(v: u64) -> Seq<u8> {
        spec_u64_to_le_bytes(v)
    }

    open spec fn spec_from_le(b: Seq<u8>) -> u64 {
        spec_u64_from_le_bytes(b)
    }

    fn width() -> (w: usize) {
        8
    }

    fn push_le(buf: &mut Vec<u8>, v: u64) {
        push_u64(buf, v);
    }

    fn read_le(data: &[u8], off: usize) -> (v: u64) {
        read_u64(data, off)
    }

    proof fn lemma_le(v: u64) {
        lemma_le_roundtrips();
    }
}

impl ColumnValue for u64 {
    open spec fn spec_encode(v: Seq<u64>, enc: ColumnEncoding) -> Seq<u8> {
        if enc is Gorilla {
            xor_bytes(v)
        } else {
            identity_bytes(v)
        }
    }

    open spec fn spec_decode(data: Seq<u8>, count: nat, enc: ColumnEncoding) -> Option<Seq<u64>> {
        if enc is Gorilla {
            xor_decode(data, count)
        } else {
            identity_decode(data, count)
        }
    }

    fn encode_values(values: &[u64], enc: ColumnEncoding) -> (r: Vec<u8>) {
        match enc {
            ColumnEncoding::Gorilla => encode_xor_u64(values),
            _ => encode_identity(values),
        }
    }

    fn decode_values(data: &[u8], count: usize, enc: ColumnEncoding) -> (r: Result<Vec<u64>, KcmError>) {
        match enc {
            ColumnEncoding::Gorilla => decode_xor_u64(data, count),
            _ => decode_to_slice(data, count),
        }
    }

    proof fn lemma_roundtrip(v: Seq<u64>, enc: ColumnEncoding) {
        law_identity_roundtrip(v);
        law_xor_column_roundtrip(v);
    }

    proof fn lemma_decode_len(data: Seq<u8>, count: nat, enc: ColumnEncoding) {
        if count > 0 && data.len() >= 8 {
            lemma_xor_parse_len(data, 8, spec_u64_from_le_bytes(data.subrange(0, 8)), (count - 1) as nat);
        }
    }
}

/// Under every encoding, decoding a column's encoded values gives them back.
pub proof fn law_column_encoding_roundtrip<T: ColumnValue>(v: Seq<T>, enc: ColumnEncoding)
    ensures
        T::spec_decode(T::spec_encode(v, enc), v.len(), enc) == Some(v),
{
    T::lemma_roundtrip(v, enc);
}
} // verus!
