//! Value codecs: delta encoding of `i64`, run-length encoding of bytes,
//! and XOR ("Gorilla") encoding of 64-bit floating-point bit patterns.
use crate::bytes::{i64_from_le, i64_le, lemma_le_roundtrips, push_i64, push_u32, push_u64, read_i64, read_u32, read_u64};
use crate::types::KcmError;
use vstd::bytes::{spec_u32_from_le_bytes, spec_u32_to_le_bytes, spec_u64_from_le_bytes, spec_u64_to_le_bytes};
use vstd::prelude::*;
use vstd::string::*;

verus! {

/// A codec turns a slice of values into bytes and back.
pub trait Codec<T: Copy> {
    /// The inputs on which `encode` is defined.
    spec fn encode_ok(&self, data: Seq<T>) -> bool;

    /// The inputs on which `decode` is defined.
    spec fn decode_ok(&self, data: Seq<u8>, count: nat) -> bool;

    fn encode(&self, data: &[T]) -> (r: Result<Vec<u8>, KcmError>)
        requires
            self.encode_ok(data@),
    ;

    fn decode(&self, data: &[u8], count: usize) -> (r: Result<Vec<T>, KcmError>)
        requires
            self.decode_ok(data@, count as nat),
    ;
}

// ---------------------------------------------------------------------
// Delta codec
// ---------------------------------------------------------------------

/// Delta encoding of `i64` values: the first value, then each difference
/// to the previous value, all as 8 little-endian bytes.
pub struct DeltaCodec;

/// The little-endian bytes of each value, concatenated.
pub open spec fn i64_concat(s: Seq<i64>) -> Seq<u8>
    decreases s.len(),
{
    if s.len() == 0 {
        Seq::empty()
    } else {
        i64_concat(s.drop_last()) + i64_le(s.last())
    }
}

/// The `i`-th delta of `v`: `v[0]`, then `v[i] - v[i-1]`.
pub open spec fn delta_at(v: Seq<i64>, i: int) -> int {
    if i == 0 {
        v[0] as int
    } else {
        v[i] - v[i - 1]
    }
}

/// Every difference of consecutive values fits in an `i64`.
pub open spec fn deltas_fit(v: Seq<i64>) -> bool {
    forall|i: int| 0 < i < v.len() ==> i64::MIN <= #[trigger] delta_at(v, i) <= i64::MAX
}

/// The delta sequence of `v`.
pub open spec fn spec_deltas(v: Seq<i64>) -> Seq<i64> {
    Seq::new(v.len(), |i: int| delta_at(v, i) as i64)
}

/// The `k`-th 8-byte little-endian `i64` of `data`.
pub open spec fn i64_word(data: Seq<u8>, k: int) -> i64 {
    i64_from_le(data.subrange(8 * k, 8 * k + 8))
}

/// How many deltas the decoder reads: at most `count`, at most the whole words of `data`.
pub open spec fn delta_words(data: Seq<u8>, count: nat) -> nat {
    if count < data.len() / 8 { count } else { data.len() / 8 }
}

/// The sum of the first `k + 1` words of `data`.
pub open spec fn word_prefix_sum(data: Seq<u8>, k: int) -> int
    decreases k,
{
    if k <= 0 {
        i64_word(data, 0) as int
    } else {
        word_prefix_sum(data, k - 1) + i64_word(data, k)
    }
}

/// Decoding does not overflow: every running sum fits in an `i64`.
pub open spec fn delta_sums_fit(data: Seq<u8>, count: nat) -> bool {
    forall|k: int| 0 <= k < delta_words(data, count) ==> i64::MIN <= #[trigger] word_prefix_sum(data, k) <= i64::MAX
}

/// The values that delta decoding of `data` yields.
pub open spec fn spec_delta_decode(data: Seq<u8>, count: nat) -> Seq<i64> {
    if count == 0 || data.len() == 0 {
        Seq::empty()
    } else {
        Seq::new(delta_words(data, count), |k: int| word_prefix_sum(data, k) as i64)
    }
}

proof fn lemma_i64_concat_len(s: Seq<i64>)
    ensures
        i64_concat(s).len() == 8 * s.len(),
    decreases s.len(),
{
    lemma_le_roundtrips();
    if s.len() > 0 {
        lemma_i64_concat_len(s.drop_last());
    }
}

proof fn lemma_i64_concat_word(s: Seq<i64>, k: int)
    requires
        0 <= k < s.len(),
    ensures
        i64_word(i64_concat(s), k) == s[k],
    decreases s.len(),
{
    lemma_le_roundtrips();
    lemma_i64_concat_len(s);
    lemma_i64_concat_len(s.drop_last());
    let c = i64_concat(s);
    let p = i64_concat(s.drop_last());
    if k == s.len() - 1 {
        assert(c.subrange(8 * k, 8 * k + 8) =~= i64_le(s.last()));
    } else {
        lemma_i64_concat_word(s.drop_last(), k);
        assert(c.subrange(8 * k, 8 * k + 8) =~= p.subrange(8 * k, 8 * k + 8));
    }
}

proof fn lemma_delta_prefix(v: Seq<i64>, k: int)
    requires
        0 <= k < v.len(),
        deltas_fit(v),
    ensures
        word_prefix_sum(i64_concat(spec_deltas(v)), k) == v[k],
    decreases k,
{
    let d = spec_deltas(v);
    lemma_i64_concat_word(d, k);
    if k > 0 {
        lemma_delta_prefix(v, k - 1);
        assert(i64::MIN <= delta_at(v, k) <= i64::MAX);
    }
}

/// Delta decoding undoes delta encoding, for every sequence whose
/// consecutive differences fit in an `i64`.
pub proof fn law_delta_roundtrip(v: Seq<i64>)
    requires
        deltas_fit(v),
    ensures
        delta_sums_fit(i64_concat(spec_deltas(v)), v.len()),
        spec_delta_decode(i64_concat(spec_deltas(v)), v.len()) == v,
{
    let data = i64_concat(spec_deltas(v));
    lemma_i64_concat_len(spec_deltas(v));
    assert(delta_words(data, v.len()) == v.len());
    assert forall|k: int| 0 <= k < delta_words(data, v.len() as nat) implies i64::MIN <= #[trigger] word_prefix_sum(data, k) <= i64::MAX by {
        lemma_delta_prefix(v, k);
    }
    if v.len() > 0 {
        assert forall|k: int| 0 <= k < v.len() implies spec_delta_decode(data, v.len())[k] == v[k] by {
            lemma_delta_prefix(v, k);
        }
        assert(spec_delta_decode(data, v.len()) =~= v);
    } else {
        assert(spec_delta_decode(data, v.len()) =~= v);
    }
}

impl Codec<i64> for DeltaCodec {
    open spec fn encode_ok(&self, data: Seq<i64>) -> bool {
        deltas_fit(data)
    }

    open spec fn decode_ok(&self, data: Seq<u8>, count: nat) -> bool {
        delta_sums_fit(data, count)
    }

    fn encode(&self, data: &[i64]) -> (r: Result<Vec<u8>, KcmError>)
        ensures
            r == Ok::<Vec<u8>, KcmError>(r->Ok_0) && r->Ok_0@ == i64_concat(spec_deltas(data@)),
    {
        let n = data.len();
        let mut result: Vec<u8> = Vec::new();
        if n == 0 {
            proof {
                assert(spec_deltas(data@) =~= Seq::<i64>::empty());
            }
            return Ok(result);
        }
        push_i64(&mut result, data[0]);
        proof {
            let d = spec_deltas(data@);
            assert(d.subrange(0, 1).drop_last() =~= Seq::<i64>::empty());
            assert(i64_concat(Seq::<i64>::empty()) == Seq::<u8>::empty());
            assert(d.subrange(0, 1).last() == data@[0]);
            assert(result@ =~= i64_concat(d.subrange(0, 1)));
        }
        let mut i: usize = 1;
        while i < n
            invariant
                n == data@.len(),
                1 <= i <= n,
                deltas_fit(data@),
                result@ == i64_concat(spec_deltas(data@).subrange(0, i as int)),
            decreases n - i,
        {
            assert(i64::MIN <= delta_at(data@, i as int) <= i64::MAX);
            let delta = data[i] - data[i - 1];
            push_i64(&mut result, delta);
            proof {
                let d = spec_deltas(data@);
                assert(d.subrange(0, i + 1).drop_last() =~= d.subrange(0, i as int));
            }
            i = i + 1;
        }
        proof {
            assert(spec_deltas(data@).subrange(0, n as int) =~= spec_deltas(data@));
        }
        Ok(result)
    }

    fn decode(&self, data: &[u8], count: usize) -> (r: Result<Vec<i64>, KcmError>)
        ensures
            r == Ok::<Vec<i64>, KcmError>(r->Ok_0) && r->Ok_0@ == spec_delta_decode(data@, count as nat),
    {
        let len = data.len();
        let mut result: Vec<i64> = Vec::new();
        if count == 0 || len == 0 {
            proof {
                assert(result@ =~= spec_delta_decode(data@, count as nat));
            }
            return Ok(result);
        }
        let ghost n = delta_words(data@, count as nat);
        let mut i: usize = 0;
        let mut current: i64 = 0;
        while len - i >= 8 && result.len() < count
            invariant
                len == data@.len(),
                n == delta_words(data@, count as nat),
                count > 0,
                i == 8 * result@.len(),
                i <= len,
                result@.len() <= n,
                delta_sums_fit(data@, count as nat),
                forall|k: int| 0 <= k < result@.len() ==> result@[k] == word_prefix_sum(data@, k) as i64,
                result@.len() > 0 ==> current == result@.last(),
                result@.len() == 0 ==> current == 0,
            decreases len - i,
        {
            let k = result.len();
            let delta = read_i64(data, i);
            proof {
                assert(k < n);
                assert(i64::MIN <= word_prefix_sum(data@, k as int) <= i64::MAX);
                if k > 0 {
                    assert(current == word_prefix_sum(data@, k - 1));
                }
            }
            current = current + delta;
            result.push(current);
            i = i + 8;
        }
        proof {
            assert(result@.len() == n);
            assert(result@ =~= spec_delta_decode(data@, count as nat));
        }
        Ok(result)
    }
}

// ---------------------------------------------------------------------
// Run-length codec
// ---------------------------------------------------------------------

/// Run-length encoding of bytes: each run is its value byte followed by
/// its length as 4 little-endian bytes; runs are maximal, up to `u32::MAX`.
pub struct RleCodec;

/// The number of leading elements of `s` equal to `v`.
pub open spec fn lead_run(s: Seq<u8>, v: u8) -> nat
    decreases s.len(),
{
    if s.len() == 0 || s[0] != v {
        0
    } else {
        1 + lead_run(s.drop_first(), v)
    }
}

/// The length of the first run of `s`.
pub open spec fn first_run(s: Seq<u8>) -> nat {
    if s.len() == 0 {
        0
    } else if lead_run(s, s[0]) < u32::MAX {
        lead_run(s, s[0])
    } else {
        u32::MAX as nat
    }
}

/// The run-length encoding of `s`.
pub open spec fn spec_rle_encode(s: Seq<u8>) -> Seq<u8>
    decreases s.len(),
{
    if s.len() == 0 {
        Seq::empty()
    } else {
        let c = first_run(s);
        proof {
            lemma_lead_run(s, s[0]);
        }
        if c == 0 {
            Seq::empty()
        } else {
            seq![s[0]] + spec_u32_to_le_bytes(c as u32) + spec_rle_encode(s.skip(c as int))
        }
    }
}

/// Strict decoding: `None` when a run is cut short.
pub open spec fn spec_rle_decode(d: Seq<u8>) -> Option<Seq<u8>>
    decreases d.len(),
{
    if d.len() == 0 {
        Some(Seq::empty())
    } else if d.len() < 5 {
        None
    } else {
        let c = spec_u32_from_le_bytes(d.subrange(1, 5));
        match spec_rle_decode(d.skip(5)) {
            Some(rest) => Some(Seq::new(c as nat, |i: int| d[0]) + rest),
            None => None,
        }
    }
}

/// Lenient decoding: whole runs are decoded, a trailing partial run is ignored.
pub open spec fn spec_rle_decode_lenient(d: Seq<u8>) -> Seq<u8>
    decreases d.len(),
{
    if d.len() < 5 {
        Seq::empty()
    } else {
        let c = spec_u32_from_le_bytes(d.subrange(1, 5));
        Seq::new(c as nat, |i: int| d[0]) + spec_rle_decode_lenient(d.skip(5))
    }
}

pub proof fn lemma_lead_run(s: Seq<u8>, v: u8)
    ensures
        lead_run(s, v) <= s.len(),
        forall|k: int| 0 <= k < lead_run(s, v) ==> s[k] == v,
        lead_run(s, v) < s.len() ==> s[lead_run(s, v) as int] != v,
    decreases s.len(),
{
    if s.len() > 0 && s[0] == v {
        lemma_lead_run(s.drop_first(), v);
        assert forall|k: int| 0 <= k < lead_run(s, v) implies s[k] == v by {
            if k > 0 {
                assert(s[k] == s.drop_first()[k - 1]);
            }
        }
    }
}

proof fn lemma_lead_run_exact(s: Seq<u8>, v: u8, c: nat)
    requires
        c <= s.len(),
        forall|k: int| 0 <= k < c ==> s[k] == v,
        c < s.len() ==> s[c as int] != v,
    ensures
        lead_run(s, v) == c,
    decreases s.len(),
{
    if c > 0 {
        assert forall|k: int| 0 <= k < c - 1 implies s.drop_first()[k] == v by {
            assert(s.drop_first()[k] == s[k + 1]);
        }
        lemma_lead_run_exact(s.drop_first(), v, (c - 1) as nat);
    }
}

proof fn lemma_lead_run_at_least(s: Seq<u8>, v: u8, c: nat)
    requires
        c <= s.len(),
        forall|k: int| 0 <= k < c ==> s[k] == v,
    ensures
        lead_run(s, v) >= c,
    decreases s.len(),
{
    if c > 0 {
        assert forall|k: int| 0 <= k < c - 1 implies s.drop_first()[k] == v by {
            assert(s.drop_first()[k] == s[k + 1]);
        }
        lemma_lead_run_at_least(s.drop_first(), v, (c - 1) as nat);
    }
}

/// Run-length encodes `data` (shared by the codec and the compressor).
pub fn rle_encode_bytes(data: &[u8]) -> (r: Vec<u8>)
    ensures
        r@ == spec_rle_encode(data@),
{
    let n = data.len();
    let mut result: Vec<u8> = Vec::new();
    let mut i: usize = 0;
    proof {
        assert(data@.skip(0) =~= data@);
        assert(result@ + spec_rle_encode(data@.skip(0)) =~= spec_rle_encode(data@));
    }
    while i < n
        invariant
            n == data@.len(),
            i <= n,
            spec_rle_encode(data@) == result@ + spec_rle_encode(data@.skip(i as int)),
        decreases n - i,
    {
        let value = data[i];
        let mut count: u32 = 1;
        while (i + (count as usize) < n) && data[i + count as usize] == value && count < u32::MAX
            invariant
                n == data@.len(),
                i < n,
                1 <= count,
                i + count <= n,
                data@[i as int] == value,
                forall|k: int| i <= k < i + count ==> data@[k] == value,
            decreases n - i - count,
        {
            count = count + 1;
        }
        let ghost s = data@.skip(i as int);
        proof {
            assert forall|k: int| 0 <= k < count implies s[k] == value by {
                assert(s[k] == data@[i + k]);
            }
            if count == u32::MAX {
                lemma_lead_run_at_least(s, value, count as nat);
            } else {
                if i + count < n {
                    assert(s[count as int] == data@[i + count]);
                }
                lemma_lead_run_exact(s, value, count as nat);
            }
            assert(first_run(s) == count);
            assert(s.skip(count as int) =~= data@.skip(i + count));
        }
        let ghost before = result@;
        result.push(value);
        push_u32(&mut result, count);
        proof {
            assert(spec_rle_encode(s) == seq![value] + spec_u32_to_le_bytes(count) + spec_rle_encode(s.skip(count as int)));
            assert(result@ =~= before + seq![value] + spec_u32_to_le_bytes(count));
            assert(before + spec_rle_encode(s) =~= result@ + spec_rle_encode(data@.skip(i + count)));
        }
        i = i + count as usize;
    }
    proof {
        assert(data@.skip(n as int) =~= Seq::<u8>::empty());
        assert(result@ + Seq::<u8>::empty() =~= result@);
    }
    result
}

/// Strict run-length decoding of `data`.
pub fn rle_decode_strict(data: &[u8]) -> (r: Result<Vec<u8>, KcmError>)
    ensures
        r is Ok <==> spec_rle_decode(data@) is Some,
        r matches Ok(v) ==> spec_rle_decode(data@) == Some(v@),
        r matches Err(e) ==> (e matches KcmError::Corrupted(m) && m@ == "Incomplete RLE entry"@),
{
    let n = data.len();
    let mut result: Vec<u8> = Vec::new();
    let mut i: usize = 0;
    proof {
        assert(data@.skip(0) =~= data@);
        assert(spec_rle_decode(data@) == (match spec_rle_decode(data@.skip(0)) { Some(t) => Some(result@ + t), None => None::<Seq<u8>> }));
    }
    while i < n
        invariant
            n == data@.len(),
            i <= n,
            spec_rle_decode(data@) == (match spec_rle_decode(data@.skip(i as int)) { Some(t) => Some(result@ + t), None => None::<Seq<u8>> }),
        decreases n - i,
    {
        let ghost s = data@.skip(i as int);
        let value = data[i];
        if n - i < 5 {
            proof {
                assert(spec_rle_decode(s) is None);
            }
            return Err(KcmError::Corrupted(String::from_str("Incomplete RLE entry")));
        }
        let count = read_u32(data, i + 1);
        proof {
            assert(s.subrange(1, 5) =~= data@.subrange(i + 1, i + 5));
            assert(s.skip(5) =~= data@.skip(i + 5));
        }
        let ghost before = result@;
        let mut k: u32 = 0;
        while k < count
            invariant
                k <= count,
                result@.len() == before.len() + k,
                result@.subrange(0, before.len() as int) == before,
                forall|j: int| before.len() <= j < result@.len() ==> result@[j] == value,
            decreases count - k,
        {
            result.push(value);
            proof {
                assert(result@.subrange(0, before.len() as int) =~= before);
            }
            k = k + 1;
        }
        proof {
            let run = Seq::new(count as nat, |j: int| s[0]);
            assert(result@ =~= before + run);
            match spec_rle_decode(s.skip(5)) {
                Some(t) => {
                    assert(before + (run + t) =~= result@ + t);
                },
                None => {},
            }
        }
        i = i + 5;
    }
    proof {
        assert(data@.skip(n as int) =~= Seq::<u8>::empty());
        assert(result@ + Seq::<u8>::empty() =~= result@);
    }
    Ok(result)
}

/// Lenient run-length decoding of `data`: a trailing partial run is ignored.
pub fn rle_decode_lenient(data: &[u8]) -> (r: Vec<u8>)
    ensures
        r@ == spec_rle_decode_lenient(data@),
{
    let n = data.len();
    let mut result: Vec<u8> = Vec::new();
    let mut i: usize = 0;
    proof {
        assert(data@.skip(0) =~= data@);
        assert(result@ + spec_rle_decode_lenient(data@.skip(0)) =~= spec_rle_decode_lenient(data@));
    }
    while n - i >= 5
        invariant
            n == data@.len(),
            i <= n,
            spec_rle_decode_lenient(data@) == result@ + spec_rle_decode_lenient(data@.skip(i as int)),
        decreases n - i,
    {
        let ghost s = data@.skip(i as int);
        let value = data[i];
        let count = read_u32(data, i + 1);
        proof {
            assert(s.subrange(1, 5) =~= data@.subrange(i + 1, i + 5));
            assert(s.skip(5) =~= data@.skip(i + 5));
        }
        let ghost before = result@;
        let mut k: u32 = 0;
        while k < count
            invariant
                k <= count,
                result@.len() == before.len() + k,
                result@.subrange(0, before.len() as int) == before,
                forall|j: int| before.len() <= j < result@.len() ==> result@[j] == value,
            decreases count - k,
        {
            result.push(value);
            proof {
                assert(result@.subrange(0, before.len() as int) =~= before);
            }
            k = k + 1;
        }
        proof {
            let run = Seq::new(count as nat, |j: int| s[0]);
            assert(result@ =~= before + run);
            assert(before + (run + spec_rle_decode_lenient(s.skip(5))) =~= result@ + spec_rle_decode_lenient(data@.skip(i + 5)));
        }
        i = i + 5;
    }
    proof {
        let s = data@.skip(i as int);
        assert(s.len() < 5);
        assert(result@ + Seq::<u8>::empty() =~= result@);
    }
    result
}

proof fn lemma_rle_roundtrip(s: Seq<u8>)
    ensures
        spec_rle_decode(spec_rle_encode(s)) == Some(s),
        spec_rle_decode_lenient(spec_rle_encode(s)) == s,
    decreases s.len(),
{
    lemma_le_roundtrips();
    if s.len() == 0 {
        assert(spec_rle_encode(s) =~= Seq::<u8>::empty());
        assert(s =~= Seq::<u8>::empty());
    } else {
        let v = s[0];
        lemma_lead_run(s, v);
        let c = first_run(s);
        assert(c >= 1);
        let rest = s.skip(c as int);
        lemma_rle_roundtrip(rest);
        let e = spec_rle_encode(s);
        let head = seq![v] + spec_u32_to_le_bytes(c as u32);
        assert(e =~= head + spec_rle_encode(rest));
        assert(e.subrange(1, 5) =~= spec_u32_to_le_bytes(c as u32));
        assert(e.skip(5) =~= spec_rle_encode(rest));
        assert(e[0] == v);
        let run = Seq::new(c, |i: int| e[0]);
        assert(run + rest =~= s);
    }
}

/// Decoding a run-length encoding gives back the bytes that were encoded,
/// under both the strict and the lenient decoder.
pub proof fn law_rle_roundtrip(s: Seq<u8>)
    ensures
        spec_rle_decode(spec_rle_encode(s)) == Some(s),
        spec_rle_decode_lenient(spec_rle_encode(s)) == s,
{
    lemma_rle_roundtrip(s);
}

impl Codec<u8> for RleCodec {
    open spec fn encode_ok(&self, data: Seq<u8>) -> bool {
        true
    }

    open spec fn decode_ok(&self, data: Seq<u8>, count: nat) -> bool {
        true
    }

    fn encode(&self, data: &[u8]) -> (r: Result<Vec<u8>, KcmError>)
        ensures
            r == Ok::<Vec<u8>, KcmError>(r->Ok_0) && r->Ok_0@ == spec_rle_encode(data@),
    {
        Ok(rle_encode_bytes(data))
    }

    fn decode(&self, data: &[u8], _count: usize) -> (r: Result<Vec<u8>, KcmError>)
        ensures
            r is Ok <==> spec_rle_decode(data@) is Some,
            r matches Ok(v) ==> spec_rle_decode(data@) == Some(v@),
            r matches Err(e) ==> (e matches KcmError::Corrupted(m) && m@ == "Incomplete RLE entry"@),
    {
        rle_decode_strict(data)
    }
}

// ---------------------------------------------------------------------
// XOR codec for floating-point bit patterns
// ---------------------------------------------------------------------

/// XOR encoding of 64-bit float bit patterns: the first pattern, then each
/// pattern XOR the previous one, all as 8 little-endian bytes.
pub struct GorillaCodec;

/// The XOR sequence of `v`.
pub open spec fn spec_xors(v: Seq<u64>) -> Seq<u64> {
    Seq::new(v.len(), |i: int| if i == 0 { v[0] } else { v[i] ^ v[i - 1] })
}

/// The little-endian bytes of each word, concatenated.
pub open spec fn u64_concat(s: Seq<u64>) -> Seq<u8>
    decreases s.len(),
{
    if s.len() == 0 {
        Seq::empty()
    } else {
        u64_concat(s.drop_last()) + spec_u64_to_le_bytes(s.last())
    }
}

/// The `k`-th 8-byte little-endian word of `data`.
pub open spec fn u64_word(data: Seq<u8>, k: int) -> u64 {
    spec_u64_from_le_bytes(data.subrange(8 * k, 8 * k + 8))
}

/// The XOR of the first `k + 1` words of `data`.
pub open spec fn word_prefix_xor(data: Seq<u8>, k: int) -> u64
    decreases k,
{
    if k <= 0 {
        u64_word(data, 0)
    } else {
        word_prefix_xor(data, k - 1) ^ u64_word(data, k)
    }
}

/// The patterns that XOR decoding of `data` yields; `None` when `count > 0`
/// and `data` holds less than one word.
pub open spec fn spec_xor_decode(data: Seq<u8>, count: nat) -> Option<Seq<u64>> {
    if count == 0 {
        Some(Seq::empty())
    } else if data.len() < 8 {
        None
    } else {
        Some(Seq::new(delta_words(data, count), |k: int| word_prefix_xor(data, k)))
    }
}

proof fn lemma_u64_concat_word(s: Seq<u64>, k: int)
    requires
        0 <= k < s.len(),
    ensures
        u64_concat(s).len() == 8 * s.len(),
        u64_word(u64_concat(s), k) == s[k],
    decreases s.len(),
{
    lemma_le_roundtrips();
    let c = u64_concat(s);
    if s.len() == 1 {
        assert(s.drop_last() =~= Seq::<u64>::empty());
        assert(u64_concat(s.drop_last()) == Seq::<u8>::empty());
        assert(c.subrange(0, 8) =~= spec_u64_to_le_bytes(s.last()));
    } else {
        let p = u64_concat(s.drop_last());
        if k == s.len() - 1 {
            lemma_u64_concat_word(s.drop_last(), 0);
            assert(c.subrange(8 * k, 8 * k + 8) =~= spec_u64_to_le_bytes(s.last()));
        } else {
            lemma_u64_concat_word(s.drop_last(), k);
            assert(c.subrange(8 * k, 8 * k + 8) =~= p.subrange(8 * k, 8 * k + 8));
        }
    }
}

proof fn lemma_xor_prefix(v: Seq<u64>, k: int)
    requires
        0 <= k < v.len(),
    ensures
        word_prefix_xor(u64_concat(spec_xors(v)), k) == v[k],
    decreases k,
{
    let x = spec_xors(v);
    lemma_u64_concat_word(x, k);
    if k > 0 {
        lemma_xor_prefix(v, k - 1);
        let a = v[k - 1];
        let b = v[k];
        assert(a ^ (b ^ a) == b) by (bit_vector);
    }
}

/// XOR decoding undoes XOR encoding.
pub proof fn law_xor_roundtrip(v: Seq<u64>)
    ensures
        spec_xor_decode(u64_concat(spec_xors(v)), v.len()) == Some(v),
{
    let data = u64_concat(spec_xors(v));
    if v.len() > 0 {
        lemma_u64_concat_word(spec_xors(v), 0);
        assert forall|k: int| 0 <= k < v.len() implies word_prefix_xor(data, k) == v[k] by {
            lemma_xor_prefix(v, k);
        }
        assert(Seq::new(delta_words(data, v.len()), |k: int| word_prefix_xor(data, k)) =~= v);
    } else {
        assert(Seq::<u64>::empty() =~= v);
    }
}

impl Codec<u64> for GorillaCodec {
    open spec fn encode_ok(&self, data: Seq<u64>) -> bool {
        true
    }

    open spec fn decode_ok(&self, data: Seq<u8>, count: nat) -> bool {
        true
    }

    fn encode(&self, data: &[u64]) -> (r: Result<Vec<u8>, KcmError>)
        ensures
            r == Ok::<Vec<u8>, KcmError>(r->Ok_0) && r->Ok_0@ == u64_concat(spec_xors(data@)),
    {
        let n = data.len();
        let mut result: Vec<u8> = Vec::new();
        if n == 0 {
            proof {
                assert(spec_xors(data@) =~= Seq::<u64>::empty());
            }
            return Ok(result);
        }
        push_u64(&mut result, data[0]);
        proof {
            let x = spec_xors(data@);
            assert(x.subrange(0, 1).drop_last() =~= Seq::<u64>::empty());
            assert(u64_concat(Seq::<u64>::empty()) == Seq::<u8>::empty());
            assert(x.subrange(0, 1).last() == data@[0]);
            assert(result@ =~= u64_concat(x.subrange(0, 1)));
        }
        let mut prev = data[0];
        let mut i: usize = 1;
        while i < n
            invariant
                n == data@.len(),
                1 <= i <= n,
                prev == data@[i - 1],
                result@ == u64_concat(spec_xors(data@).subrange(0, i as int)),
            decreases n - i,
        {
            let bits = data[i];
            let x = bits ^ prev;
            push_u64(&mut result, x);
            proof {
                let xs = spec_xors(data@);
                assert(xs.subrange(0, i + 1).drop_last() =~= xs.subrange(0, i as int));
            }
            prev = bits;
            i = i + 1;
        }
        proof {
            assert(spec_xors(data@).subrange(0, n as int) =~= spec_xors(data@));
        }
        Ok(result)
    }

    fn decode(&self, data: &[u8], count: usize) -> (r: Result<Vec<u64>, KcmError>)
        ensures
            r is Ok <==> spec_xor_decode(data@, count as nat) is Some,
            r matches Ok(v) ==> spec_xor_decode(data@, count as nat) == Some(v@),
            r matches Err(e) ==> e is Corrupted,
    {
        let len = data.len();
        let mut result: Vec<u64> = Vec::new();
        if count == 0 {
            return Ok(result);
        }
        if len < 8 {
            return Err(KcmError::Corrupted(String::from_str("Incomplete Gorilla data")));
        }
        let mut prev = read_u64(data, 0);
        result.push(prev);
        let ghost n = delta_words(data@, count as nat);
        let mut i: usize = 8;
        while result.len() < count && len - i >= 8
            invariant
                len == data@.len(),
                len >= 8,
                n == delta_words(data@, count as nat),
                count > 0,
                i == 8 * result@.len(),
                i <= len,
                1 <= result@.len() <= n,
                prev == result@.last(),
                forall|k: int| 0 <= k < result@.len() ==> result@[k] == word_prefix_xor(data@, k),
            decreases len - i,
        {
            let x = read_u64(data, i);
            prev = prev ^ x;
            result.push(prev);
            i = i + 8;
        }
        proof {
            assert(result@.len() == n);
            assert(result@ =~= Seq::new(n, |k: int| word_prefix_xor(data@, k)));
        }
        Ok(result)
    }
}

} // verus!
