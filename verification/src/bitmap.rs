//! A fixed-length bitmap, used for row tombstones and bitmap indexes.
use vstd::prelude::*;

verus! {

/// A bitmap of a fixed number of bits.
#[derive(Clone, Debug)]
pub struct Bitmap {
    bits: Vec<bool>,
}

/// The number of set bits among the first `n` bits of `s`.
pub open spec fn count_true(s: Seq<bool>, n: int) -> nat
    decreases n,
{
    if n <= 0 || s.len() == 0 {
        0
    } else if n > s.len() {
        count_true(s, s.len() as int)
    } else {
        count_true(s, n - 1) + if s[n - 1] { 1nat } else { 0nat }
    }
}

/// The number of set bits of `s`.
pub open spec fn popcount(s: Seq<bool>) -> nat {
    count_true(s, s.len() as int)
}

pub proof fn lemma_count_true_bounds(s: Seq<bool>, n: int)
    requires
        0 <= n <= s.len(),
    ensures
        count_true(s, n) <= n,
    decreases n,
{
    if n > 0 {
        lemma_count_true_bounds(s, n - 1);
    }
}

pub proof fn lemma_count_true_update(s: Seq<bool>, i: int, b: bool, n: int)
    requires
        0 <= i < s.len(),
        0 <= n <= s.len(),
    ensures
        count_true(s.update(i, b), n) == if i < n {
            count_true(s, n) - (if s[i] { 1int } else { 0int }) + (if b { 1int } else { 0int })
        } else {
            count_true(s, n) as int
        },
    decreases n,
{
    if n > 0 {
        lemma_count_true_update(s, i, b, n - 1);
    }
}

pub proof fn lemma_count_true_all_false(s: Seq<bool>, n: int)
    requires
        0 <= n <= s.len(),
        forall|k: int| 0 <= k < n ==> !s[k],
    ensures
        count_true(s, n) == 0,
    decreases n,
{
    if n > 0 {
        lemma_count_true_all_false(s, n - 1);
    }
}

pub proof fn lemma_count_true_prefix_zero(s: Seq<bool>, m: int, n: int)
    requires
        0 <= m <= n <= s.len(),
        forall|k: int| m <= k < n ==> !s[k],
    ensures
        count_true(s, n) == count_true(s, m),
    decreases n,
{
    if n > m {
        lemma_count_true_prefix_zero(s, m, n - 1);
    }
}

impl Bitmap {
    /// The bits, in order.
    pub closed spec fn view(&self) -> Seq<bool> {
        self.bits@
    }

    /// A bitmap of `len` clear bits.
    pub fn new(len: usize) -> (r: Bitmap)
        ensures
            r@ == Seq::new(len as nat, |i: int| false),
    {
        let mut bits: Vec<bool> = Vec::new();
        let mut i: usize = 0;
        while i < len
            invariant
                i <= len,
                bits@ == Seq::new(i as nat, |k: int| false),
            decreases len - i,
        {
            bits.push(false);
            i = i + 1;
            proof {
                assert(bits@ =~= Seq::new(i as nat, |k: int| false));
            }
        }
        Bitmap { bits }
    }

    /// The number of bits.
    pub fn len(&self) -> (r: usize)
        ensures
            r == self@.len(),
    {
        self.bits.len()
    }

    /// Bit `idx`; bits past the end read as clear.
    pub fn get(&self, idx: usize) -> (r: bool)
        ensures
            r == (idx < self@.len() && self@[idx as int]),
    {
        if idx < self.bits.len() {
            self.bits[idx]
        } else {
            false
        }
    }

    /// Sets bit `idx`; an index past the end changes nothing.
    pub fn set(&mut self, idx: usize)
        ensures
            final(self)@ == if idx < old(self)@.len() { old(self)@.update(idx as int, true) } else { old(self)@ },
    {
        if idx < self.bits.len() {
            self.bits.set(idx, true);
        }
    }

    /// Clears bit `idx`; an index past the end changes nothing.
    pub fn clear(&mut self, idx: usize)
        ensures
            final(self)@ == if idx < old(self)@.len() { old(self)@.update(idx as int, false) } else { old(self)@ },
    {
        if idx < self.bits.len() {
            self.bits.set(idx, false);
        }
    }

    /// Clears every bit.
    pub fn clear_all(&mut self)
        ensures
            final(self)@ == Seq::new(old(self)@.len(), |i: int| false),
    {
        let n = self.bits.len();
        let mut i: usize = 0;
        while i < n
            invariant
                n == self.bits@.len(),
                i <= n,
                forall|k: int| 0 <= k < i ==> !self.bits@[k],
            decreases n - i,
        {
            self.bits.set(i, false);
            i = i + 1;
        }
        assert(self.bits@ =~= Seq::new(n as nat, |i: int| false));
    }

    /// Sets every bit that is set in `other` (bits past this bitmap's end are ignored).
    pub fn or_inplace(&mut self, other: &Bitmap)
        ensures
            final(self)@.len() == old(self)@.len(),
            forall|i: int| 0 <= i < old(self)@.len() ==> #[trigger] final(self)@[i] == (old(self)@[i] || (i < other@.len() && other@[i])),
    {
        let n = self.bits.len();
        let m = other.bits.len();
        let mut i: usize = 0;
        while i < n
            invariant
                n == self.bits@.len(),
                m == other.bits@.len(),
                n == old(self)@.len(),
                i <= n,
                forall|k: int| 0 <= k < i ==> #[trigger] self.bits@[k] == (old(self)@[k] || (k < m && other.bits@[k])),
                forall|k: int| i <= k < n ==> #[trigger] self.bits@[k] == old(self)@[k],
            decreases n - i,
        {
            if i < m && other.bits[i] {
                self.bits.set(i, true);
            }
            i = i + 1;
        }
    }

    /// The number of set bits.
    pub fn count_ones(&self) -> (r: usize)
        ensures
            r == popcount(self@),
    {
        let n = self.bits.len();
        let mut c: usize = 0;
        let mut i: usize = 0;
        while i < n
            invariant
                n == self.bits@.len(),
                i <= n,
                c == count_true(self.bits@, i as int),
                c <= i,
            decreases n - i,
        {
            if self.bits[i] {
                c = c + 1;
            }
            i = i + 1;
        }
        c
    }

    /// The bits packed eight to a byte, least significant bit first.
    pub fn to_bytes(&self) -> (r: Vec<u8>)
        ensures
            r@.len() == (self@.len() + 7) / 8,
            forall|i: int| 0 <= i < self@.len() ==> #[trigger] bit_of(r@, i) == self@[i],
    {
        let n = self.bits.len();
        let mut out: Vec<u8> = Vec::new();
        let mut byte: u8 = 0;
        let mut i: usize = 0;
        proof {
            lemma_byte_bit_zero();
        }
        while i < n
            invariant
                n == self.bits@.len(),
                i <= n,
                out@.len() == i / 8,
                forall|t: int| 0 <= t < 8 * (i / 8) ==> #[trigger] bit_of(out@, t) == self.bits@[t],
                forall|j: int| 0 <= j < 8 ==> #[trigger] byte_bit(byte, j) == (j < i % 8 && self.bits@[8 * (i / 8) + j]),
            decreases n - i,
        {
            let k = (i % 8) as u8;
            let old_byte = byte;
            if self.bits[i] {
                byte = byte | (1u8 << k);
            }
            proof {
                assert forall|j: int| 0 <= j < 8 implies #[trigger] byte_bit(byte, j) == (j <= k && self.bits@[8 * (i / 8) + j]) by {
                    lemma_byte_bit_or(old_byte, j as u8, k);
                    if !self.bits@[i as int] {
                        assert(byte == old_byte);
                    }
                    assert(8 * (i / 8) + k == i);
                }
            }
            if k == 7 {
                let ghost prev = out@;
                out.push(byte);
                proof {
                    assert forall|t: int| 0 <= t < 8 * ((i + 1) / 8) implies #[trigger] bit_of(out@, t) == self.bits@[t] by {
                        if t < 8 * (i / 8) {
                            assert(t / 8 < i / 8);
                            assert(out@[t / 8] == prev[t / 8]);
                            assert(bit_of(prev, t) == self.bits@[t]);
                        } else {
                            assert(t / 8 == i / 8);
                            assert(out@[t / 8] == byte);
                            assert(t == 8 * (t / 8) + t % 8);
                            assert(byte_bit(byte, t % 8) == (t % 8 <= k && self.bits@[8 * (i / 8) + t % 8]));
                        }
                    }
                }
                byte = 0;
                proof {
                    lemma_byte_bit_zero();
                }
            }
            i = i + 1;
        }
        if n % 8 != 0 {
            let ghost prev = out@;
            out.push(byte);
            proof {
                assert forall|t: int| 0 <= t < n implies #[trigger] bit_of(out@, t) == self.bits@[t] by {
                    if t < 8 * (n / 8) {
                        assert(t / 8 < n / 8);
                        assert(out@[t / 8] == prev[t / 8]);
                        assert(bit_of(prev, t) == self.bits@[t]);
                    } else {
                        assert(t / 8 == n / 8);
                        assert(out@[t / 8] == byte);
                        assert(t == 8 * (t / 8) + t % 8);
                        assert(byte_bit(byte, t % 8) == (t % 8 < n % 8 && self.bits@[8 * (n / 8) + t % 8]));
                    }
                }
            }
        }
        out
    }

    /// A bitmap of `len` bits read from `bytes` (eight to a byte, least
    /// significant bit first); bits past the given bytes are clear.
    pub fn from_bytes(bytes: &[u8], len: usize) -> (r: Bitmap)
        ensures
            r@.len() == len,
            forall|i: int| 0 <= i < len ==> #[trigger] r@[i] == (i / 8 < bytes@.len() && bit_of(bytes@, i)),
    {
        let mut bits: Vec<bool> = Vec::new();
        let mut i: usize = 0;
        while i < len
            invariant
                i <= len,
                bits@.len() == i,
                forall|k: int| 0 <= k < i ==> #[trigger] bits@[k] == (k / 8 < bytes@.len() && bit_of(bytes@, k)),
            decreases len - i,
        {
            let q = i / 8;
            let on = if q < bytes.len() {
                let byte = bytes[q];
                let sh = (i % 8) as u8;
                (byte >> sh) & 1 == 1
            } else {
                false
            };
            bits.push(on);
            i = i + 1;
        }
        Bitmap { bits }
    }
}

/// Bit `j` (0 to 7, least significant first) of a byte.
pub open spec fn byte_bit(b: u8, j: int) -> bool {
    (b >> (j as u8)) & 1u8 == 1u8
}

proof fn lemma_byte_bit_zero()
    ensures
        forall|j: int| 0 <= j < 8 ==> !#[trigger] byte_bit(0u8, j),
{
    assert forall|j: int| 0 <= j < 8 implies !#[trigger] byte_bit(0u8, j) by {
        let jj = j as u8;
        assert((0u8 >> jj) & 1u8 == 0u8) by (bit_vector);
    }
}

proof fn lemma_byte_bit_or(b: u8, j: u8, k: u8)
    requires
        j < 8,
        k < 8,
    ensures
        byte_bit(b | (1u8 << k), j as int) == (byte_bit(b, j as int) || j == k),
{
    assert(((b | (1u8 << k)) >> j) & 1u8 == 1u8 <==> (((b >> j) & 1u8 == 1u8) || j == k)) by (bit_vector)
        requires
            j < 8,
            k < 8,
    ;
}

/// Bit `i` of a packed byte sequence (least significant bit first).
pub open spec fn bit_of(bytes: Seq<u8>, i: int) -> bool {
    byte_bit(bytes[i / 8], i % 8)
}

} // verus!
