//! Secondary indexes: bitmap index over byte columns, zone map over
//! `i64` columns, and a Bloom filter over `u32` values.
use crate::bitmap::Bitmap;
use crate::types::KcmError;
use vstd::prelude::*;

verus! {

// ---------------------------------------------------------------------
// Bitmap index
// ---------------------------------------------------------------------

/// A bitmap per distinct value of a byte column.
pub struct BitmapIndex {
    values: Vec<u8>,
    bitmaps: Vec<Bitmap>,
}

/// The rows (among the first `rows`) whose value is `v`.
pub open spec fn rows_equal(column: Seq<u8>, rows: nat, v: u8) -> Seq<bool> {
    Seq::new(rows, |i: int| i < column.len() && column[i] == v)
}

/// The rows (among the first `rows`) whose value lies in `[low, high]`.
pub open spec fn rows_between(column: Seq<u8>, rows: nat, low: u8, high: u8) -> Seq<bool> {
    Seq::new(rows, |i: int| i < column.len() && low <= column[i] && column[i] <= high)
}

impl BitmapIndex {
    /// The distinct values, ascending.
    pub closed spec fn spec_values(&self) -> Seq<u8> {
        self.values@
    }

    /// The bitmap of the `k`-th distinct value.
    pub closed spec fn spec_bitmap(&self, k: int) -> Seq<bool> {
        self.bitmaps@[k]@
    }

    /// The index of `column` over `rows` rows: one bitmap per distinct
    /// value, values ascending.
    pub closed spec fn indexes(&self, column: Seq<u8>, rows: nat) -> bool {
        &&& self.bitmaps@.len() == self.values@.len()
        &&& forall|i: int, j: int| 0 <= i < j < self.values@.len() ==> self.values@[i] < self.values@[j]
        &&& forall|v: u8| self.values@.contains(v) <==> column.contains(v)
        &&& forall|k: int| 0 <= k < self.values@.len() ==> #[trigger] self.bitmaps@[k]@ == rows_equal(column, rows, self.values@[k])
    }

    /// Builds the index of `column`, with `row_count` bits per bitmap.
    pub fn new(column: &[u8], row_count: usize) -> (r: Result<BitmapIndex, KcmError>)
        ensures
            r matches Ok(ix) && ix.indexes(column@, row_count as nat),
    {
        let n = column.len();
        let mut values: Vec<u8> = Vec::new();
        let mut bitmaps: Vec<Bitmap> = Vec::new();
        let mut v: u16 = 0;
        while v < 256
            invariant
                n == column@.len(),
                v <= 256,
                bitmaps@.len() == values@.len(),
                forall|i: int, j: int| 0 <= i < j < values@.len() ==> values@[i] < values@[j],
                forall|i: int| 0 <= i < values@.len() ==> values@[i] < v,
                forall|w: u8| w < v ==> (values@.contains(w) <==> column@.contains(w)),
                forall|w: u8| values@.contains(w) ==> w < v,
                forall|k: int| 0 <= k < values@.len() ==> #[trigger] bitmaps@[k]@ == rows_equal(column@, row_count as nat, values@[k]),
            decreases 256 - v,
        {
            let val = v as u8;
            let mut bm = Bitmap::new(row_count);
            let mut found = false;
            let mut idx: usize = 0;
            while idx < n
                invariant
                    n == column@.len(),
                    idx <= n,
                    bm@.len() == row_count,
                    forall|i: int| 0 <= i < row_count ==> #[trigger] bm@[i] == (i < idx && column@[i] == val),
                    found <==> exists|i: int| 0 <= i < idx && column@[i] == val,
                decreases n - idx,
            {
                if column[idx] == val {
                    bm.set(idx);
                    found = true;
                }
                idx = idx + 1;
            }
            if found {
                proof {
                    let i = choose|i: int| 0 <= i < n && column@[i] == val;
                    assert(column@.contains(val));
                    assert(bm@ =~= rows_equal(column@, row_count as nat, val));
                }
                let ghost old_values = values@;
                values.push(val);
                bitmaps.push(bm);
                proof {
                    assert forall|w: u8| values@.contains(w) implies w < v + 1 by {
                        if w != val {
                            assert(old_values.contains(w));
                        }
                    }
                    assert forall|w: u8| w < v + 1 implies (values@.contains(w) <==> column@.contains(w)) by {
                        if w == val {
                            assert(values@[values@.len() - 1] == val);
                        } else {
                            if values@.contains(w) {
                                let k = choose|k: int| 0 <= k < values@.len() && values@[k] == w;
                                assert(k < old_values.len());
                                assert(old_values.contains(w));
                            }
                            if old_values.contains(w) {
                                let k = choose|k: int| 0 <= k < old_values.len() && old_values[k] == w;
                                assert(values@[k] == w);
                            }
                        }
                    }
                }
            } else {
                proof {
                    assert forall|w: u8| w < v + 1 implies (values@.contains(w) <==> column@.contains(w)) by {
                        if w == val {
                            if column@.contains(w) {
                                let i = choose|i: int| 0 <= i < n && column@[i] == w;
                                assert(false);
                            }
                        }
                    }
                }
            }
            v = v + 1;
        }
        proof {
            assert forall|w: u8| values@.contains(w) <==> column@.contains(w) by {
                assert(w < 256);
            }
        }
        Ok(BitmapIndex { values, bitmaps })
    }

    /// One bitmap per value, values strictly ascending.
    pub closed spec fn wf(&self) -> bool {
        &&& self.bitmaps@.len() == self.values@.len()
        &&& forall|i: int, j: int| 0 <= i < j < self.values@.len() ==> self.values@[i] < self.values@[j]
    }

    /// An index of any column is well formed.
    pub proof fn lemma_indexes_wf(&self, column: Seq<u8>, rows: nat)
        requires
            self.indexes(column, rows),
        ensures
            self.wf(),
    {
    }

    /// What an index of `column` over `rows` rows holds: exactly the
    /// column's values, each with the bitmap of the rows that hold it; it
    /// has a value exactly when the column is not empty.
    pub proof fn lemma_index_of(&self, column: Seq<u8>, rows: nat)
        requires
            self.indexes(column, rows),
        ensures
            self.wf(),
            forall|v: u8| #[trigger] self.spec_values().contains(v) <==> column.contains(v),
            forall|k: int| 0 <= k < self.spec_values().len() ==> #[trigger] self.spec_bitmap(k) == rows_equal(column, rows, self.spec_values()[k]),
            self.spec_values().len() > 0 <==> column.len() > 0,
    {
        if column.len() > 0 {
            assert(column.contains(column[0]));
            assert(self.spec_values().contains(column[0]));
        }
        if self.spec_values().len() > 0 {
            let v = self.spec_values()[0];
            assert(self.spec_values().contains(v));
            assert(column.contains(v));
            let i = choose|i: int| 0 <= i < column.len() && column[i] == v;
            assert(column.len() > 0);
        }
    }

    /// The bitmap of `value`, when the column holds it.
    pub fn lookup(&self, value: u8) -> (r: Option<&Bitmap>)
        requires
            self.wf(),
        ensures
            r matches Some(b) ==> (exists|k: int| 0 <= k < self.spec_values().len() && self.spec_values()[k] == value && b@ == self.spec_bitmap(k)),
            r is None <==> !self.spec_values().contains(value),
            forall|column: Seq<u8>, rows: nat| #[trigger] self.indexes(column, rows) ==> match r {
                Some(b) => column.contains(value) && b@ == rows_equal(column, rows, value),
                None => !column.contains(value),
            },
    {
        let n = self.values.len();
        let mut lo: usize = 0;
        let mut hi: usize = n;
        while lo < hi
            invariant
                n == self.values@.len(),
                self.wf(),
                lo <= hi <= n,
                forall|i: int| 0 <= i < lo ==> self.values@[i] < value,
                forall|i: int| hi <= i < n ==> self.values@[i] > value,
            decreases hi - lo,
        {
            let mid = lo + (hi - lo) / 2;
            if self.values[mid] < value {
                lo = mid + 1;
            } else if self.values[mid] > value {
                hi = mid;
            } else {
                assert(self.values@[mid as int] == value);
                let b = &self.bitmaps[mid];
                assert(0 <= mid < self.spec_values().len() && self.spec_values()[mid as int] == value && b@ == self.spec_bitmap(mid as int));
                proof {
                    assert forall|column: Seq<u8>, rows: nat| #[trigger] self.indexes(column, rows) implies column.contains(value)
                        && b@ == rows_equal(column, rows, value) by {
                        assert(self.values@.contains(value));
                        assert(self.bitmaps@[mid as int]@ == rows_equal(column, rows, self.values@[mid as int]));
                    }
                }
                return Some(b);
            }
        }
        None
    }

    /// The rows whose value lies in `[low, high]`.
    pub fn range_query(&self, low: u8, high: u8) -> (r: Result<Bitmap, KcmError>)
        requires
            self.spec_values().len() > 0,
            forall|i: int| 0 <= i < self.spec_values().len() ==> !(high < #[trigger] self.spec_values()[i] && self.spec_values()[i] < low),
        ensures
            forall|column: Seq<u8>, rows: nat| self.indexes(column, rows) ==> (r matches Ok(b) && b@ == rows_between(column, rows, low, high)),
    {
        let n = self.values.len();
        let mut start: usize = 0;
        while start < n && self.values[start] < low
            invariant
                n == self.values@.len(),
                start <= n,
                forall|i: int| 0 <= i < start ==> self.values@[i] < low,
            decreases n - start,
        {
            start = start + 1;
        }
        let mut end: usize = start;
        while end < n && self.values[end] <= high
            invariant
                n == self.values@.len(),
                start <= end <= n,
                forall|i: int| start <= i < end ==> self.values@[i] <= high,
            decreases n - end,
        {
            end = end + 1;
        }
        let rows = if self.bitmaps.len() > 0 { self.bitmaps[0].len() } else { 0 };
        let mut result = Bitmap::new(rows);
        let mut k: usize = start;
        while k < end
            invariant
                n == self.values@.len(),
                start <= k <= end <= n,
                result@.len() == rows,
                forall|i: int| start <= i < end ==> self.values@[i] <= high,
                forall|i: int| 0 <= i < start ==> self.values@[i] < low,
                forall|i: int| 0 <= i < result@.len() ==> #[trigger] result@[i] == exists|j: int| start <= j < k && j < self.bitmaps@.len() && i < self.bitmaps@[j]@.len() && self.bitmaps@[j]@[i],
            decreases end - k,
        {
            if k < self.bitmaps.len() {
                result.or_inplace(&self.bitmaps[k]);
            }
            k = k + 1;
        }
        proof {
            assert forall|column: Seq<u8>, rws: nat| self.indexes(column, rws) implies (result@ == rows_between(column, rws, low, high)) by {
                self.lemma_range(column, rws, low, high, start as int, end as int, result@);
            }
        }
        Ok(result)
    }

    proof fn lemma_range(&self, column: Seq<u8>, rows: nat, low: u8, high: u8, start: int, end: int, res: Seq<bool>)
        requires
            self.indexes(column, rows),
            self.values@.len() > 0,
            0 <= start <= end <= self.values@.len(),
            forall|i: int| 0 <= i < start ==> self.values@[i] < low,
            forall|i: int| start <= i < end ==> self.values@[i] <= high,
            end < self.values@.len() ==> self.values@[end] > high,
            start < self.values@.len() ==> self.values@[start] >= low,
            res.len() == self.bitmaps@[0]@.len(),
            forall|i: int| 0 <= i < res.len() ==> #[trigger] res[i] == exists|j: int| start <= j < end && j < self.bitmaps@.len() && i < self.bitmaps@[j]@.len() && self.bitmaps@[j]@[i],
        ensures
            res == rows_between(column, rows, low, high),
    {
        assert(self.bitmaps@[0]@ == rows_equal(column, rows, self.values@[0]));
        assert forall|i: int| 0 <= i < res.len() implies res[i] == rows_between(column, rows, low, high)[i] by {
            if i < column.len() && low <= column[i] && column[i] <= high {
                let v = column[i];
                assert(column.contains(v));
                assert(self.values@.contains(v));
                let j = choose|j: int| 0 <= j < self.values@.len() && self.values@[j] == v;
                assert(self.bitmaps@[j]@ == rows_equal(column, rows, v));
                if j < start {
                    assert(false);
                }
                if j >= end {
                    if end < self.values@.len() {
                        if j > end {
                            assert(self.values@[end] < self.values@[j]);
                        }
                    }
                    assert(false);
                }
                assert(self.bitmaps@[j]@[i]);
            }
            if res[i] {
                let j = choose|j: int| start <= j < end && j < self.bitmaps@.len() && i < self.bitmaps@[j]@.len() && self.bitmaps@[j]@[i];
                assert(self.bitmaps@[j]@ == rows_equal(column, rows, self.values@[j]));
                if j > start {
                    assert(self.values@[start] < self.values@[j]);
                }
            }
        }
        assert(res =~= rows_between(column, rows, low, high));
    }
}

// ---------------------------------------------------------------------
// Zone map
// ---------------------------------------------------------------------

/// The least value of a non-empty sequence.
pub open spec fn seq_min(s: Seq<i64>) -> i64
    decreases s.len(),
{
    if s.len() <= 1 {
        s[0]
    } else {
        let m = seq_min(s.drop_last());
        if s.last() < m { s.last() } else { m }
    }
}

/// The greatest value of a non-empty sequence.
pub open spec fn seq_max(s: Seq<i64>) -> i64
    decreases s.len(),
{
    if s.len() <= 1 {
        s[0]
    } else {
        let m = seq_max(s.drop_last());
        if s.last() > m { s.last() } else { m }
    }
}

/// The rows of block `k` of a column cut into blocks of `bs` rows.
pub open spec fn block_range(len: int, bs: int, k: int) -> (usize, usize) {
    let start = k * bs;
    let end = if start + bs < len { start + bs } else { len };
    (start as usize, end as usize)
}

/// The minimum and maximum of each block of a column.
pub struct ZoneMap {
    block_size: usize,
    min_values: Vec<i64>,
    max_values: Vec<i64>,
    row_ranges: Vec<(usize, usize)>,
}

impl ZoneMap {
    /// The zone map of `column`: per block, its row range and extremes.
    pub closed spec fn summarizes(&self, column: Seq<i64>) -> bool {
        let bs = self.block_size as int;
        let nb = self.row_ranges@.len();
        &&& bs > 0
        &&& self.min_values@.len() == nb && self.max_values@.len() == nb
        &&& forall|k: int| 0 <= k < nb ==> #[trigger] self.row_ranges@[k] == block_range(column.len() as int, bs, k)
        &&& forall|k: int| 0 <= k < nb ==> (#[trigger] self.row_ranges@[k]).0 < column.len()
        &&& nb * bs >= column.len()
        &&& forall|k: int| 0 <= k < nb ==> #[trigger] (k * bs) < column.len()
        &&& forall|k: int| 0 <= k < nb ==> #[trigger] self.min_values@[k] == seq_min(column.subrange(self.row_ranges@[k].0 as int, self.row_ranges@[k].1 as int))
        &&& forall|k: int| 0 <= k < nb ==> #[trigger] self.max_values@[k] == seq_max(column.subrange(self.row_ranges@[k].0 as int, self.row_ranges@[k].1 as int))
    }

    /// Cuts `column` into blocks of `block_size` rows and records each
    /// block's extremes. A block size of zero would never finish and is
    /// excluded.
    pub fn new(column: &[i64], block_size: usize) -> (r: Result<ZoneMap, KcmError>)
        requires
            block_size > 0,
        ensures
            r matches Ok(z) && z.summarizes(column@),
    {
        let n = column.len();
        let mut min_values: Vec<i64> = Vec::new();
        let mut max_values: Vec<i64> = Vec::new();
        let mut row_ranges: Vec<(usize, usize)> = Vec::new();
        let mut i: usize = 0;
        assert(row_ranges@.len() * block_size == 0) by (nonlinear_arith)
            requires row_ranges@.len() == 0;
        while i < n
            invariant
                n == column@.len(),
                block_size > 0,
                i <= n,
                i < n ==> i == row_ranges@.len() * block_size,
                i <= row_ranges@.len() * block_size,
                min_values@.len() == row_ranges@.len() && max_values@.len() == row_ranges@.len(),
                forall|k: int| 0 <= k < row_ranges@.len() ==> #[trigger] row_ranges@[k] == block_range(n as int, block_size as int, k),
                forall|k: int| 0 <= k < row_ranges@.len() ==> (#[trigger] row_ranges@[k]).0 < n,
                forall|k: int| 0 <= k < row_ranges@.len() ==> #[trigger] (k * block_size) < n,
                forall|k: int| 0 <= k < row_ranges@.len() ==> #[trigger] min_values@[k] == seq_min(column@.subrange(row_ranges@[k].0 as int, row_ranges@[k].1 as int)),
                forall|k: int| 0 <= k < row_ranges@.len() ==> #[trigger] max_values@[k] == seq_max(column@.subrange(row_ranges@[k].0 as int, row_ranges@[k].1 as int)),
            decreases n - i,
        {
            let end = if block_size < n - i { i + block_size } else { n };
            let mut mn = column[i];
            let mut mx = column[i];
            let mut j: usize = i + 1;
            proof {
                assert(column@.subrange(i as int, i + 1) =~= seq![column@[i as int]]);
            }
            while j < end
                invariant
                    n == column@.len(),
                    i < j <= end <= n,
                    mn == seq_min(column@.subrange(i as int, j as int)),
                    mx == seq_max(column@.subrange(i as int, j as int)),
                decreases end - j,
            {
                let x = column[j];
                proof {
                    assert(column@.subrange(i as int, j + 1).drop_last() =~= column@.subrange(i as int, j as int));
                }
                if x < mn {
                    mn = x;
                }
                if x > mx {
                    mx = x;
                }
                j = j + 1;
            }
            proof {
                let k = row_ranges@.len() as int;
                assert(k * block_size + block_size == (k + 1) * block_size) by (nonlinear_arith);
                assert(block_range(n as int, block_size as int, k) == (i, end));
            }
            min_values.push(mn);
            max_values.push(mx);
            row_ranges.push((i, end));
            proof {
                let k = row_ranges@.len() as int;
                assert((k - 1) * block_size + block_size == k * block_size) by (nonlinear_arith);
                assert(end <= k * block_size);
                assert((k - 1) * block_size < n);
            }
            i = end;
        }
        proof {
            let nb = row_ranges@.len() as int;
            assert(nb * block_size >= n);
        }
        Ok(ZoneMap { block_size, min_values, max_values, row_ranges })
    }

    /// The number of blocks.
    pub closed spec fn spec_block_count(&self) -> int {
        self.row_ranges@.len() as int
    }

    /// The row ranges of the blocks whose value range meets `[low, high]`.
    pub fn range_query(&self, low: i64, high: i64) -> (r: Vec<(usize, usize)>)
        ensures
            r@ == self.spec_range_query(low, high, self.spec_block_count()),
    {
        let n = self.row_ranges.len();
        let mut out: Vec<(usize, usize)> = Vec::new();
        let mut k: usize = 0;
        while k < n
            invariant
                n == self.row_ranges@.len(),
                k <= n,
                out@ == self.spec_range_query(low, high, k as int),
            decreases n - k,
        {
            if k < self.min_values.len() && k < self.max_values.len() {
                let mn = self.min_values[k];
                let mx = self.max_values[k];
                if mx >= low && mn <= high {
                    out.push(self.row_ranges[k]);
                }
            }
            k = k + 1;
        }
        out
    }

    /// The ranges of the first `k` blocks that meet `[low, high]`, in order.
    pub closed spec fn spec_range_query(&self, low: i64, high: i64, k: int) -> Seq<(usize, usize)>
        decreases k,
    {
        if k <= 0 {
            Seq::empty()
        } else {
            let prev = self.spec_range_query(low, high, k - 1);
            let b = k - 1;
            if b < self.min_values@.len() && b < self.max_values@.len()
                && self.max_values@[b] >= low && self.min_values@[b] <= high {
                prev.push(self.row_ranges@[b])
            } else {
                prev
            }
        }
    }

    proof fn lemma_query_has(&self, low: i64, high: i64, m: int, b: int)
        requires
            0 <= b < m,
            b < self.min_values@.len() && b < self.max_values@.len(),
            self.max_values@[b] >= low && self.min_values@[b] <= high,
        ensures
            self.spec_range_query(low, high, m).contains(self.row_ranges@[b]),
        decreases m,
    {
        let prev = self.spec_range_query(low, high, m - 1);
        if b == m - 1 {
            assert(self.spec_range_query(low, high, m) == prev.push(self.row_ranges@[b]));
            assert(prev.push(self.row_ranges@[b])[prev.len() as int] == self.row_ranges@[b]);
        } else {
            self.lemma_query_has(low, high, m - 1, b);
            let j = choose|j: int| 0 <= j < prev.len() && prev[j] == self.row_ranges@[b];
            let cur = self.spec_range_query(low, high, m);
            assert(cur[j] == prev[j]);
        }
    }

    proof fn lemma_query_from(&self, low: i64, high: i64, m: int, j: int)
        requires
            0 <= j < self.spec_range_query(low, high, m).len(),
        ensures
            exists|b: int|
                0 <= b < m && b < self.min_values@.len() && b < self.max_values@.len() && self.max_values@[b] >= low
                    && self.min_values@[b] <= high && #[trigger] self.row_ranges@[b] == self.spec_range_query(low, high, m)[j],
        decreases m,
    {
        if m > 0 {
            let prev = self.spec_range_query(low, high, m - 1);
            let b = m - 1;
            if j < prev.len() {
                self.lemma_query_from(low, high, m - 1, j);
                let c = choose|c: int|
                    0 <= c < m - 1 && c < self.min_values@.len() && c < self.max_values@.len() && self.max_values@[c] >= low
                        && self.min_values@[c] <= high && #[trigger] self.row_ranges@[c] == prev[j];
                if b < self.min_values@.len() && b < self.max_values@.len() && self.max_values@[b] >= low
                    && self.min_values@[b] <= high {
                    assert(self.spec_range_query(low, high, m)[j] == prev[j]);
                }
                assert(self.row_ranges@[c] == self.spec_range_query(low, high, m)[j]);
            } else {
                assert(self.row_ranges@[b] == self.spec_range_query(low, high, m)[j]);
            }
        }
    }

    /// Every row of the column whose value lies in `[low, high]` is inside
    /// one of the row ranges a range query answers.
    pub proof fn law_zone_query_covers_every_match(&self, column: Seq<i64>, low: i64, high: i64, i: int)
        requires
            self.summarizes(column),
            column.len() <= usize::MAX,
            0 <= i < column.len(),
            low <= column[i] <= high,
        ensures
            exists|j: int| #![trigger self.spec_range_query(low, high, self.spec_block_count())[j]]
                0 <= j < self.spec_range_query(low, high, self.spec_block_count()).len()
                && self.spec_range_query(low, high, self.spec_block_count())[j].0 <= i
                < self.spec_range_query(low, high, self.spec_block_count())[j].1,
    {
        let bs = self.block_size as int;
        let n = column.len() as int;
        let nb = self.row_ranges@.len() as int;
        let k = i / bs;
        assert(k * bs <= i < k * bs + bs) by (nonlinear_arith)
            requires
                bs > 0,
                0 <= i,
                k == i / bs,
        ;
        assert(k < nb) by (nonlinear_arith)
            requires
                bs > 0,
                nb * bs >= n,
                k * bs <= i,
                i < n,
        ;
        assert(0 <= k);
        let start = k * bs;
        let end = if start + bs < n { start + bs } else { n };
        assert(self.row_ranges@[k] == block_range(n, bs, k));
        assert(self.row_ranges@[k].0 as int == start);
        assert(self.row_ranges@[k].1 as int == end);
        let sub = column.subrange(start, end);
        assert(sub[i - start] == column[i]);
        lemma_seq_bounds(sub, i - start);
        assert(self.min_values@[k] == seq_min(sub));
        assert(self.max_values@[k] == seq_max(sub));
        self.lemma_query_has(low, high, nb, k);
        let r = self.spec_range_query(low, high, nb);
        let j = choose|j: int| 0 <= j < r.len() && r[j] == self.row_ranges@[k];
        assert(r[j].0 <= i < r[j].1);
        assert(self.spec_block_count() == nb);
        assert(self.spec_range_query(low, high, self.spec_block_count())[j].0 <= i);
    }

    /// Every row range a range query answers is a non-empty block of rows
    /// of the column whose least value is at most `high` and whose greatest
    /// value is at least `low`.
    pub proof fn law_zone_query_answers_meet_range(&self, column: Seq<i64>, low: i64, high: i64, j: int)
        requires
            self.summarizes(column),
            column.len() <= usize::MAX,
            0 <= j < self.spec_range_query(low, high, self.spec_block_count()).len(),
        ensures
            ({
                let x = self.spec_range_query(low, high, self.spec_block_count())[j];
                &&& x.0 < x.1 <= column.len()
                &&& seq_min(column.subrange(x.0 as int, x.1 as int)) <= high
                &&& seq_max(column.subrange(x.0 as int, x.1 as int)) >= low
            }),
    {
        let bs = self.block_size as int;
        let n = column.len() as int;
        let nb = self.row_ranges@.len() as int;
        self.lemma_query_from(low, high, nb, j);
        let b = choose|b: int|
            0 <= b < nb && b < self.min_values@.len() && b < self.max_values@.len() && self.max_values@[b] >= low
                && self.min_values@[b] <= high && #[trigger] self.row_ranges@[b] == self.spec_range_query(low, high, nb)[j];
        assert(self.row_ranges@[b] == block_range(n, bs, b));
        assert(b * bs < n);
        assert(b * bs >= 0) by (nonlinear_arith)
            requires
                b >= 0,
                bs > 0,
        ;
    }
}

impl ZoneMap {
    proof fn lemma_query_ordered(&self, column: Seq<i64>, low: i64, high: i64, m: int)
        requires
            self.summarizes(column),
            column.len() <= usize::MAX,
            0 <= m <= self.row_ranges@.len(),
        ensures
            ({
                let r = self.spec_range_query(low, high, m);
                &&& forall|j: int| 0 <= j < r.len() ==> (#[trigger] r[j]).1 <= m * (self.block_size as int)
                &&& forall|j1: int, j2: int| 0 <= j1 < j2 < r.len() ==> (#[trigger] r[j1]).1 <= (#[trigger] r[j2]).0
            }),
        decreases m,
    {
        let bs = self.block_size as int;
        let n = column.len() as int;
        if m > 0 {
            self.lemma_query_ordered(column, low, high, m - 1);
            let prev = self.spec_range_query(low, high, m - 1);
            let r = self.spec_range_query(low, high, m);
            let b = m - 1;
            assert((m - 1) * bs <= m * bs) by (nonlinear_arith)
                requires
                    bs > 0,
            ;
            assert(m * bs == (m - 1) * bs + bs) by (nonlinear_arith);
            assert(self.row_ranges@[b] == block_range(n, bs, b));
            assert(b * bs < n);
            assert(b * bs >= 0) by (nonlinear_arith)
                requires
                    b >= 0,
                    bs > 0,
            ;
            if r.len() > prev.len() {
                assert(r == prev.push(self.row_ranges@[b]));
                assert forall|j: int| 0 <= j < r.len() implies (#[trigger] r[j]).1 <= m * bs by {
                    if j < prev.len() {
                        assert(r[j] == prev[j]);
                    }
                }
                assert forall|j1: int, j2: int| 0 <= j1 < j2 < r.len() implies (#[trigger] r[j1]).1 <= (#[trigger] r[j2]).0 by {
                    assert(r[j1] == prev[j1]);
                    if j2 < prev.len() {
                        assert(r[j2] == prev[j2]);
                    }
                }
            } else {
                assert(r == prev);
            }
        }
    }

    /// A range query answers row ranges in ascending order, each at most
    /// once: every range ends before the next one starts.
    pub proof fn law_zone_query_ascending(&self, column: Seq<i64>, low: i64, high: i64, j1: int, j2: int)
        requires
            self.summarizes(column),
            column.len() <= usize::MAX,
            0 <= j1 < j2 < self.spec_range_query(low, high, self.spec_block_count()).len(),
        ensures
            self.spec_range_query(low, high, self.spec_block_count())[j1].1 <= self.spec_range_query(low, high, self.spec_block_count())[j2].0,
    {
        self.lemma_query_ordered(column, low, high, self.spec_block_count());
    }
}

/// The least value of a sequence is at most each of its values, and the
/// greatest at least each.
pub proof fn lemma_seq_bounds(s: Seq<i64>, j: int)
    requires
        0 <= j < s.len(),
    ensures
        seq_min(s) <= s[j] <= seq_max(s),
    decreases s.len(),
{
    if s.len() > 1 && j < s.len() - 1 {
        lemma_seq_bounds(s.drop_last(), j);
        assert(s.drop_last()[j] == s[j]);
    }
}

// ---------------------------------------------------------------------
// Bloom filter
// ---------------------------------------------------------------------

/// The multiplier of the filter's hash.
pub const BLOOM_MULTIPLIER: u64 = 0x9e37_79b9_7f4a_7c15;

/// The number of hash functions.
pub const BLOOM_HASHES: usize = 7;

/// The `seed`-th hash of `value`: the high half of
/// `((value << 32) | seed) * BLOOM_MULTIPLIER` modulo 2^64.
pub open spec fn bloom_hash(value: u32, seed: u64) -> u64 {
    vstd::wrapping::u64_specs::wrapping_mul(((value as u64) << 32u64) | seed, BLOOM_MULTIPLIER) >> 32u64
}

/// The bit that the `seed`-th hash of `value` selects among `len` bits.
pub open spec fn bloom_slot(value: u32, seed: u64, len: nat) -> int {
    (bloom_hash(value, seed) as int) % (len as int)
}

/// A Bloom filter over `u32` values with seven hashes.
pub struct BloomFilter {
    bits: Vec<bool>,
    num_hashes: usize,
}

impl BloomFilter {
    pub closed spec fn view(&self) -> Seq<bool> {
        self.bits@
    }

    pub closed spec fn wf(&self) -> bool {
        self.bits@.len() >= 1000 && self.num_hashes == BLOOM_HASHES
    }

    /// Whether every slot of `value` is set in `bits`.
    pub open spec fn spec_contains(bits: Seq<bool>, value: u32) -> bool {
        forall|i: int| 0 <= i < BLOOM_HASHES ==> bits[#[trigger] bloom_slot(value, i as u64, bits.len())]
    }

    /// An empty filter of `max(10 * capacity, 1000)` bits.
    pub fn new(capacity: usize) -> (r: BloomFilter)
        requires
            capacity * 10 <= usize::MAX,
        ensures
            r.wf(),
            r@ == Seq::new(if capacity * 10 > 1000 { (capacity * 10) as nat } else { 1000 }, |i: int| false),
    {
        let want = capacity * 10;
        let n = if want > 1000 { want } else { 1000 };
        let mut bits: Vec<bool> = Vec::new();
        let mut i: usize = 0;
        while i < n
            invariant
                i <= n,
                bits@ == Seq::new(i as nat, |k: int| false),
            decreases n - i,
        {
            bits.push(false);
            i = i + 1;
            proof {
                assert(bits@ =~= Seq::new(i as nat, |k: int| false));
            }
        }
        BloomFilter { bits, num_hashes: 7 }
    }

    fn hash(value: u32, seed: usize) -> (r: usize)
        requires
            seed < BLOOM_HASHES,
        ensures
            r == bloom_hash(value, seed as u64),
    {
        let combined = ((value as u64) << 32) | (seed as u64);
        let result = combined.wrapping_mul(BLOOM_MULTIPLIER);
        let h = result >> 32;
        assert(h <= 0xFFFF_FFFFu64) by (bit_vector)
            requires h == result >> 32u64;
        h as usize
    }

    /// Sets the seven slots of `value`.
    pub fn insert(&mut self, value: u32)
        requires
            old(self).wf(),
        ensures
            final(self).wf(),
            final(self)@.len() == old(self)@.len(),
            forall|j: int| 0 <= j < old(self)@.len() ==> #[trigger] final(self)@[j] == (old(self)@[j]
                || exists|i: int| 0 <= i < BLOOM_HASHES && j == #[trigger] bloom_slot(value, i as u64, old(self)@.len())),
    {
        let len = self.bits.len();
        let mut i: usize = 0;
        while i < self.num_hashes
            invariant
                self.num_hashes == BLOOM_HASHES,
                len == self.bits@.len(),
                len == old(self)@.len(),
                len >= 1000,
                i <= BLOOM_HASHES,
                forall|j: int| 0 <= j < len ==> #[trigger] self.bits@[j] == (old(self)@[j]
                    || exists|s: int| 0 <= s < i && j == #[trigger] bloom_slot(value, s as u64, len as nat)),
            decreases BLOOM_HASHES - i,
        {
            let h = Self::hash(value, i);
            let idx = h % len;
            self.bits.set(idx, true);
            proof {
                assert forall|j: int| 0 <= j < len implies #[trigger] self.bits@[j] == (old(self)@[j]
                    || exists|s: int| 0 <= s < i + 1 && j == #[trigger] bloom_slot(value, s as u64, len as nat)) by {
                    if j == idx {
                        assert(j == bloom_slot(value, i as u64, len as nat));
                    }
                }
            }
            i = i + 1;
        }
    }

    /// Whether all seven slots of `value` are set.
    pub fn contains(&self, value: u32) -> (r: bool)
        requires
            self.wf(),
        ensures
            r == Self::spec_contains(self@, value),
    {
        let len = self.bits.len();
        let mut i: usize = 0;
        while i < self.num_hashes
            invariant
                self.wf(),
                len == self.bits@.len(),
                i <= BLOOM_HASHES,
                forall|s: int| 0 <= s < i ==> self.bits@[#[trigger] bloom_slot(value, s as u64, len as nat)],
            decreases BLOOM_HASHES - i,
        {
            let h = Self::hash(value, i);
            let idx = h % len;
            if !self.bits[idx] {
                assert(!self.bits@[bloom_slot(value, i as u64, len as nat)]);
                return false;
            }
            i = i + 1;
        }
        true
    }
}

/// A Bloom filter has no false negatives: once a value is inserted, it is
/// reported present, whatever else is inserted afterwards.
pub proof fn law_bloom_no_false_negative(before: Seq<bool>, after: Seq<bool>, value: u32)
    requires
        before.len() > 0,
        after.len() == before.len(),
        forall|j: int| 0 <= j < before.len() ==> #[trigger] after[j] == (before[j]
            || exists|i: int| 0 <= i < BLOOM_HASHES && j == #[trigger] bloom_slot(value, i as u64, before.len())),
    ensures
        BloomFilter::spec_contains(after, value),
        forall|later: Seq<bool>| later.len() == after.len() && (forall|j: int| 0 <= j < after.len() && #[trigger] after[j] ==> later[j])
            ==> BloomFilter::spec_contains(later, value),
{
    assert forall|i: int| 0 <= i < BLOOM_HASHES implies after[#[trigger] bloom_slot(value, i as u64, after.len())] by {
        let j = bloom_slot(value, i as u64, before.len());
        assert(0 <= j < before.len());
    }
}

} // verus!
