//! Little-endian encodings of the fixed-width integers used by the
//! on-disk formats (write-ahead log, database file, key store).
use vstd::bytes::*;
use vstd::prelude::*;
use vstd::slice::*;

verus! {

/// Little-endian bytes of an `i64` (two's complement).
pub open spec fn i64_le(x: i64) -> Seq<u8> {
    spec_u64_to_le_bytes(x as u64)
}

/// Little-endian bytes of an `i32` (two's complement).
pub open spec fn i32_le(x: i32) -> Seq<u8> {
    spec_u32_to_le_bytes(x as u32)
}

/// The `i64` whose little-endian bytes are `s`.
pub open spec fn i64_from_le(s: Seq<u8>) -> i64 {
    spec_u64_from_le_bytes(s) as i64
}

/// The `i32` whose little-endian bytes are `s`.
pub open spec fn i32_from_le(s: Seq<u8>) -> i32 {
    spec_u32_from_le_bytes(s) as i32
}

pub proof fn lemma_i64_cast_roundtrip(x: i64)
    ensures
        (x as u64) as i64 == x,
{
    assert((x as u64) as i64 == x) by (bit_vector);
}

pub proof fn lemma_i32_cast_roundtrip(x: i32)
    ensures
        (x as u32) as i32 == x,
{
    assert((x as u32) as i32 == x) by (bit_vector);
}

pub proof fn lemma_i8_cast_roundtrip(x: i8)
    ensures
        (x as u8) as i8 == x,
{
    assert((x as u8) as i8 == x) by (bit_vector);
}

/// Every little-endian encoding has its width and decodes back.
pub proof fn lemma_le_roundtrips()
    ensures
        forall|x: u16| #![trigger spec_u16_to_le_bytes(x)] spec_u16_to_le_bytes(x).len() == 2 && spec_u16_from_le_bytes(spec_u16_to_le_bytes(x)) == x,
        forall|x: u32| #![trigger spec_u32_to_le_bytes(x)] spec_u32_to_le_bytes(x).len() == 4 && spec_u32_from_le_bytes(spec_u32_to_le_bytes(x)) == x,
        forall|x: u64| #![trigger spec_u64_to_le_bytes(x)] spec_u64_to_le_bytes(x).len() == 8 && spec_u64_from_le_bytes(spec_u64_to_le_bytes(x)) == x,
        forall|x: i64| #![trigger i64_le(x)] i64_le(x).len() == 8 && i64_from_le(i64_le(x)) == x,
        forall|x: i32| #![trigger i32_le(x)] i32_le(x).len() == 4 && i32_from_le(i32_le(x)) == x,
{
    lemma_auto_spec_u16_to_from_le_bytes();
    lemma_auto_spec_u32_to_from_le_bytes();
    lemma_auto_spec_u64_to_from_le_bytes();
    assert forall|x: i64| #![trigger i64_le(x)] i64_le(x).len() == 8 && i64_from_le(i64_le(x)) == x by {
        lemma_i64_cast_roundtrip(x);
    }
    assert forall|x: i32| #![trigger i32_le(x)] i32_le(x).len() == 4 && i32_from_le(i32_le(x)) == x by {
        lemma_i32_cast_roundtrip(x);
    }
}

/// Appends the little-endian bytes of `x`.
pub fn push_u16(buf: &mut Vec<u8>, x: u16)
    ensures
        final(buf)@ == old(buf)@ + spec_u16_to_le_bytes(x),
{
    let mut b = u16_to_le_bytes(x);
    buf.append(&mut b);
}

/// Appends the little-endian bytes of `x`.
pub fn push_u32(buf: &mut Vec<u8>, x: u32)
    ensures
        final(buf)@ == old(buf)@ + spec_u32_to_le_bytes(x),
{
    let mut b = u32_to_le_bytes(x);
    buf.append(&mut b);
}

/// Appends the little-endian bytes of `x`.
pub fn push_u64(buf: &mut Vec<u8>, x: u64)
    ensures
        final(buf)@ == old(buf)@ + spec_u64_to_le_bytes(x),
{
    let mut b = u64_to_le_bytes(x);
    buf.append(&mut b);
}

/// Appends the little-endian bytes of `x`.
pub fn push_i64(buf: &mut Vec<u8>, x: i64)
    ensures
        final(buf)@ == old(buf)@ + i64_le(x),
{
    push_u64(buf, x as u64);
}

/// Appends the little-endian bytes of `x`.
pub fn push_i32(buf: &mut Vec<u8>, x: i32)
    ensures
        final(buf)@ == old(buf)@ + i32_le(x),
{
    push_u32(buf, x as u32);
}

/// Reads a little-endian `u16` at `offset`.
pub fn read_u16(data: &[u8], offset: usize) -> (r: u16)
    requires
        offset + 2 <= data@.len(),
    ensures
        r == spec_u16_from_le_bytes(data@.subrange(offset as int, offset + 2)),
{
    u16_from_le_bytes({ let _n = data.len(); slice_subrange(data, offset, offset + 2) })
}

/// Reads a little-endian `u32` at `offset`.
pub fn read_u32(data: &[u8], offset: usize) -> (r: u32)
    requires
        offset + 4 <= data@.len(),
    ensures
        r == spec_u32_from_le_bytes(data@.subrange(offset as int, offset + 4)),
{
    u32_from_le_bytes({ let _n = data.len(); slice_subrange(data, offset, offset + 4) })
}

/// Reads a little-endian `u64` at `offset`.
pub fn read_u64(data: &[u8], offset: usize) -> (r: u64)
    requires
        offset + 8 <= data@.len(),
    ensures
        r == spec_u64_from_le_bytes(data@.subrange(offset as int, offset + 8)),
{
    u64_from_le_bytes({ let _n = data.len(); slice_subrange(data, offset, offset + 8) })
}

/// Reads a little-endian `i64` at `offset`.
pub fn read_i64(data: &[u8], offset: usize) -> (r: i64)
    requires
        offset + 8 <= data@.len(),
    ensures
        r == i64_from_le(data@.subrange(offset as int, offset + 8)),
{
    read_u64(data, offset) as i64
}

/// Reads a little-endian `i32` at `offset`.
pub fn read_i32(data: &[u8], offset: usize) -> (r: i32)
    requires
        offset + 4 <= data@.len(),
    ensures
        r == i32_from_le(data@.subrange(offset as int, offset + 4)),
{
    read_u32(data, offset) as i32
}


/// Appends all of `src`.
pub fn push_bytes(buf: &mut Vec<u8>, src: &[u8])
    ensures
        final(buf)@ == old(buf)@ + src@,
{
    let n = src.len();
    let mut i: usize = 0;
    while i < n
        invariant
            n == src@.len(),
            i <= n,
            buf@ == old(buf)@ + src@.subrange(0, i as int),
        decreases n - i,
    {
        buf.push(src[i]);
        assert(buf@ =~= old(buf)@ + src@.subrange(0, i + 1));
        i = i + 1;
    }
    assert(src@.subrange(0, n as int) =~= src@);
}

/// A copy of `data[start..end]`.
pub fn copy_range(data: &[u8], start: usize, end: usize) -> (r: Vec<u8>)
    requires
        start <= end <= data@.len(),
    ensures
        r@ == data@.subrange(start as int, end as int),
{
    let mut out: Vec<u8> = Vec::new();
    let mut i: usize = start;
    while i < end
        invariant
            start <= i <= end,
            end <= data@.len(),
            out@ == data@.subrange(start as int, i as int),
        decreases end - i,
    {
        out.push(data[i]);
        assert(out@ =~= data@.subrange(start as int, i + 1));
        i = i + 1;
    }
    out
}


/// The encodings of the elements of `s`, one after the other.
pub open spec fn concat_map<T>(s: Seq<T>, enc: spec_fn(T) -> Seq<u8>) -> Seq<u8>
    decreases s.len(),
{
    if s.len() == 0 {
        Seq::empty()
    } else {
        concat_map(s.drop_last(), enc) + enc(s.last())
    }
}

/// With encodings of width `w`, element `k` sits at bytes `w*k .. w*k+w`.
pub proof fn lemma_concat_map_index<T>(s: Seq<T>, enc: spec_fn(T) -> Seq<u8>, w: nat, k: int)
    requires
        forall|x: T| #[trigger] enc(x).len() == w,
        0 <= k < s.len(),
    ensures
        concat_map(s, enc).len() == w * s.len(),
        concat_map(s, enc).subrange(w * k, w * k + w) == enc(s[k]),
    decreases s.len(),
{
    lemma_concat_map_len(s, enc, w);
    let c = concat_map(s, enc);
    let p = concat_map(s.drop_last(), enc);
    lemma_concat_map_len(s.drop_last(), enc, w);
    assert(w * (s.len() - 1) == w * s.len() - w) by (nonlinear_arith);
    if k == s.len() - 1 {
        assert(w * k == w * s.len() - w) by (nonlinear_arith)
            requires
                k == s.len() - 1,
        ;
        assert(c.subrange(w * k, w * k + w) =~= enc(s.last()));
    } else {
        lemma_concat_map_index(s.drop_last(), enc, w, k);
        assert(w * k + w <= w * (s.len() - 1)) by (nonlinear_arith)
            requires
                k < s.len() - 1,
                0 <= k,
        ;
        assert(c.subrange(w * k, w * k + w) =~= p.subrange(w * k, w * k + w));
    }
}

/// With encodings of width `w`, the whole is `w` bytes per element.
pub proof fn lemma_concat_map_len<T>(s: Seq<T>, enc: spec_fn(T) -> Seq<u8>, w: nat)
    requires
        forall|x: T| #[trigger] enc(x).len() == w,
    ensures
        concat_map(s, enc).len() == w * s.len(),
    decreases s.len(),
{
    if s.len() > 0 {
        lemma_concat_map_len(s.drop_last(), enc, w);
        assert(w * (s.len() - 1) + w == w * s.len()) by (nonlinear_arith);
    }
}


/// The second part of a concatenation sits right after the first.
pub proof fn lemma_concat_right(a: Seq<u8>, b: Seq<u8>)
    ensures
        (a + b).subrange(a.len() as int, (a.len() + b.len()) as int) == b,
        (a + b).subrange(0, a.len() as int) == a,
{
    assert((a + b).subrange(a.len() as int, (a.len() + b.len()) as int) =~= b);
    assert((a + b).subrange(0, a.len() as int) =~= a);
}

/// A window of `d` that equals `w` gives equal sub-windows.
pub proof fn lemma_window(d: Seq<u8>, off: int, w: Seq<u8>, a: int, b: int)
    requires
        0 <= off,
        off + w.len() <= d.len(),
        d.subrange(off, off + w.len()) == w,
        0 <= a <= b <= w.len(),
    ensures
        d.subrange(off + a, off + b) == w.subrange(a, b),
{
    assert forall|k: int| 0 <= k < b - a implies d.subrange(off + a, off + b)[k] == w.subrange(a, b)[k] by {
        assert(d.subrange(off, off + w.len())[a + k] == d[off + a + k]);
    }
    assert(d.subrange(off + a, off + b) =~= w.subrange(a, b));
}

} // verus!
