//! String dictionaries: each new string gets the next integer id, starting
//! at 1; id 0 decodes to the empty string. Strings are found again through
//! a Robin Hood hash map from string to id.
use crate::rbac::views;
use crate::robin_hood::{capacity_from, RobinHoodMap, INITIAL_CAPACITY, MAX_CAPACITY, MAX_ENTRIES};
use vstd::prelude::*;
use vstd::string::*;

verus! {

/// The index: (string, hash) pairs and the id stored under each.
pub type Index = Map<(Seq<char>, u64), u32>;

/// The id of `s` among the encoded strings (positions 1 and up), if any.
pub open spec fn spec_lookup(strs: Seq<Seq<char>>, s: Seq<char>) -> Option<int> {
    if exists|i: int| 1 <= i < strs.len() && strs[i] == s {
        Some(choose|i: int| 1 <= i < strs.len() && strs[i] == s)
    } else {
        None
    }
}

/// What a lookup of `s` answers.
pub open spec fn lookup_answer(strs: Seq<Seq<char>>, s: Seq<char>) -> Option<u32> {
    match spec_lookup(strs, s) {
        Some(i) => Some(i as u32),
        None => None,
    }
}

/// Every indexed string is stored under its id, and ids start at 1.
pub open spec fn index_ok(strs: Seq<Seq<char>>, ix: Index) -> bool {
    forall|p: (Seq<char>, u64)| #[trigger] ix.contains_key(p) ==> 1 <= ix[p] < strs.len() && strs[ix[p] as int] == p.0
}

/// Every encoded string is indexed, under the hash `f` gives it, by its id.
pub open spec fn all_indexed(strs: Seq<Seq<char>>, ix: Index, f: spec_fn(Seq<char>) -> u64) -> bool {
    forall|i: int| 1 <= i < strs.len() ==> #[trigger] ix.contains_key((strs[i], f(strs[i]))) && ix[(strs[i], f(strs[i]))] == i
}

/// No string has two ids (ids 1 and up).
pub open spec fn no_repeats(strs: Seq<Seq<char>>) -> bool {
    forall|i: int, j: int| 1 <= i < strs.len() && 1 <= j < strs.len() && i != j ==> strs[i] != strs[j]
}

/// The UTF-8 bytes of all the strings.
pub open spec fn utf8_total(strs: Seq<Seq<char>>) -> nat
    decreases strs.len(),
{
    if strs.len() == 0 {
        0
    } else {
        utf8_total(strs.drop_last()) + vstd::utf8::encode_utf8(strs.last()).len()
    }
}

/// The bytes a dictionary accounts for: the strings' UTF-8 bytes, and one
/// `String` and one `u32` for every slot of its map.
pub open spec fn spec_space(strs: Seq<Seq<char>>, slots: nat) -> nat {
    utf8_total(strs) + slots * (vstd::layout::size_of::<String>() + vstd::layout::size_of::<u32>())
}

proof fn lemma_utf8_total_prefix(strs: Seq<Seq<char>>, i: int)
    requires
        0 <= i <= strs.len(),
    ensures
        utf8_total(strs.take(i)) <= utf8_total(strs),
    decreases strs.len(),
{
    if i == strs.len() {
        assert(strs.take(i) =~= strs);
    } else {
        assert(strs.drop_last().take(i) =~= strs.take(i));
        lemma_utf8_total_prefix(strs.drop_last(), i);
    }
}

/// What a decode of `id` answers.
pub open spec fn decode_answer(strs: Seq<Seq<char>>, id: u32) -> Option<Seq<char>> {
    if id < strs.len() {
        Some(strs[id as int])
    } else {
        None
    }
}

/// The character sequences of string slices.
pub open spec fn key_views(keys: Seq<&str>) -> Seq<Seq<char>> {
    keys.map_values(|k: &str| k@)
}

/// The strings by id, and the map that finds their ids.
pub struct DictionaryCache {
    string_to_id: RobinHoodMap<String, u32>,
    id_to_string: Vec<String>,
}

impl DictionaryCache {
    /// The strings by id; id 0 holds the empty string.
    pub closed spec fn spec_strings(&self) -> Seq<Seq<char>> {
        views(self.id_to_string@)
    }

    /// The map from (string, hash) pairs to ids.
    pub closed spec fn spec_index(&self) -> Index {
        self.string_to_id@
    }

    /// The number of slots of the map.
    pub closed spec fn spec_slots(&self) -> nat {
        self.string_to_id.spec_capacity()
    }

    /// Id 0 holds the empty string, no string has two ids, and the map
    /// finds each encoded string's id under the hash it gives the string.
    pub closed spec fn wf(&self) -> bool {
        let s = self.spec_strings();
        let ix = self.spec_index();
        &&& self.string_to_id.wf()
        &&& s.len() >= 1
        &&& s[0] == Seq::<char>::empty()
        &&& s.len() <= MAX_ENTRIES
        &&& no_repeats(s)
        &&& index_ok(s, ix)
        &&& all_indexed(s, ix, self.string_to_id.hash_fn())
        &&& ix.dom().finite()
        &&& ix.len() < s.len()
    }

    pub fn new() -> (r: DictionaryCache)
        ensures
            r.wf(),
            r.spec_strings() == seq![Seq::<char>::empty()],
            r.spec_index() == Index::empty(),
    {
        let map = RobinHoodMap::new();
        let mut v: Vec<String> = Vec::new();
        v.push(String::new());
        let r = DictionaryCache { string_to_id: map, id_to_string: v };
        assert(r.spec_strings() =~= seq![Seq::<char>::empty()]);
        r
    }

    /// An empty dictionary whose map starts with the least power of two of
    /// slots that is at least `capacity` (and at least `INITIAL_CAPACITY`).
    pub fn with_capacity(capacity: usize) -> (r: DictionaryCache)
        requires
            capacity <= MAX_CAPACITY,
        ensures
            r.wf(),
            r.spec_strings() == seq![Seq::<char>::empty()],
            r.spec_index() == Index::empty(),
            r.spec_slots() == capacity_from(INITIAL_CAPACITY as nat, capacity as nat),
    {
        let map = RobinHoodMap::with_capacity(capacity);
        let mut v: Vec<String> = Vec::with_capacity(capacity);
        v.push(String::new());
        let r = DictionaryCache { string_to_id: map, id_to_string: v };
        assert(r.spec_strings() =~= seq![Seq::<char>::empty()]);
        r
    }

    /// What the map finds for `value`: its id when it was encoded.
    fn find(&self, value: &str) -> (r: Option<u32>)
        requires
            self.wf(),
        ensures
            r == lookup_answer(self.spec_strings(), value@),
    {
        let key = String::from_str(value);
        let got = self.string_to_id.get(&key);
        let ghost s = self.spec_strings();
        let ghost ix = self.spec_index();
        let ghost f = self.string_to_id.hash_fn();
        proof {
            self.string_to_id.lemma_hash_fn(value@);
            self.string_to_id.lemma_hashed();
            if exists|i: int| 1 <= i < s.len() && s[i] == value@ {
                let i = choose|i: int| 1 <= i < s.len() && s[i] == value@;
                assert(ix.contains_key((s[i], f(s[i]))));
            }
        }
        match got {
            Some(id) => {
                proof {
                    let p = (value@, f(value@));
                    assert(ix.contains_key(p));
                    let k = ix[p] as int;
                    assert(s[k] == value@);
                    let i = choose|i: int| 1 <= i < s.len() && s[i] == value@;
                    assert(i == k);
                }
                Some(*id)
            },
            None => None,
        }
    }

    /// Gives `value`, which has no id, the next id.
    fn push_new(&mut self, value: &str) -> (r: u32)
        requires
            old(self).wf(),
            old(self).spec_strings().len() < MAX_ENTRIES,
            spec_lookup(old(self).spec_strings(), value@) is None,
        ensures
            final(self).wf(),
            r == old(self).spec_strings().len(),
            final(self).spec_strings() == old(self).spec_strings().push(value@),
            final(self).spec_slots() >= old(self).spec_slots(),
    {
        let ghost s0 = self.spec_strings();
        let ghost ix0 = self.spec_index();
        let ghost f = self.string_to_id.hash_fn();
        let id = self.id_to_string.len() as u32;
        self.id_to_string.push(String::from_str(value));
        proof {
            self.string_to_id.lemma_finite();
            assert(self.spec_strings() =~= s0.push(value@));
        }
        let key = String::from_str(value);
        proof {
            self.string_to_id.lemma_hash_fn(value@);
        }
        self.string_to_id.insert(key, id);
        proof {
            let s1 = self.spec_strings();
            let ix1 = self.spec_index();
            let p = (value@, f(value@));
            assert(ix1 == ix0.insert(p, id));
            assert forall|q: (Seq<char>, u64)| #[trigger] ix1.contains_key(q) implies 1 <= ix1[q] < s1.len() && s1[ix1[q] as int]
                == q.0 by {
                if q != p {
                    assert(ix0.contains_key(q));
                }
            }
            assert forall|i: int| 1 <= i < s1.len() implies #[trigger] ix1.contains_key((s1[i], f(s1[i]))) && ix1[(s1[i], f(s1[i]))] == i by {
                if i < s0.len() {
                    assert(s1[i] == s0[i]);
                    assert(ix0.contains_key((s0[i], f(s0[i]))));
                    assert(s0[i] != value@);
                }
            }
            assert forall|i: int, j: int| 1 <= i < s1.len() && 1 <= j < s1.len() && i != j implies s1[i] != s1[j] by {
                if i < s0.len() && j < s0.len() {
                    assert(s1[i] == s0[i] && s1[j] == s0[j]);
                } else if i < s0.len() {
                    assert(s1[i] == s0[i]);
                } else if j < s0.len() {
                    assert(s1[j] == s0[j]);
                }
            }
            self.string_to_id.lemma_finite();
        }
        id
    }

    /// The id of `value`, giving it the next id if it is new.
    pub fn encode(&mut self, value: &str) -> (r: u32)
        requires
            old(self).wf(),
            old(self).spec_strings().len() < MAX_ENTRIES,
        ensures
            final(self).wf(),
            match spec_lookup(old(self).spec_strings(), value@) {
                Some(i) => r == i && final(self).spec_strings() == old(self).spec_strings(),
                None => r == old(self).spec_strings().len() && final(self).spec_strings() == old(self).spec_strings().push(
                    value@,
                ),
            },
            spec_lookup(final(self).spec_strings(), value@) == Some(r as int),
    {
        if let Some(id) = self.find(value) {
            return id;
        }
        let ghost s0 = self.spec_strings();
        let id = self.push_new(value);
        proof {
            let s1 = self.spec_strings();
            assert(s1[id as int] == value@);
            let i = choose|i: int| 1 <= i < s1.len() && s1[i] == value@;
            assert(i == id);
        }
        id
    }

    /// The string of id `id`, if the id was given out (id 0 is the empty
    /// string).
    pub fn decode(&self, id: u32) -> (r: Option<String>)
        ensures
            match r {
                Some(v) => id < self.spec_strings().len() && v@ == self.spec_strings()[id as int],
                None => id >= self.spec_strings().len(),
            },
    {
        let i = id as usize;
        if i < self.id_to_string.len() {
            Some(self.id_to_string[i].clone())
        } else {
            None
        }
    }

    /// The id of `value`, if it was encoded.
    pub fn lookup(&self, value: &str) -> (r: Option<u32>)
        requires
            self.wf(),
        ensures
            r == lookup_answer(self.spec_strings(), value@),
    {
        self.find(value)
    }

    /// Looks up each value; `results` must have one slot per value.
    pub fn lookup_batch_prefetch(&self, values: &[&str], results: &mut Vec<Option<u32>>)
        requires
            self.wf(),
            old(results)@.len() == values@.len(),
        ensures
            final(results)@.len() == values@.len(),
            forall|i: int| 0 <= i < values@.len() ==> #[trigger] final(results)@[i] == lookup_answer(self.spec_strings(), values@[i]@),
    {
        let n = values.len();
        let mut i: usize = 0;
        while i < n
            invariant
                self.wf(),
                n == values@.len(),
                results@.len() == n,
                i <= n,
                forall|k: int| 0 <= k < i ==> #[trigger] results@[k] == lookup_answer(self.spec_strings(), values@[k]@),
            decreases n - i,
        {
            let found = self.find(values[i]);
            results.set(i, found);
            i = i + 1;
        }
    }

    /// The same as `lookup_batch_prefetch`.
    pub fn lookup_batch_simd(&self, values: &[&str], results: &mut Vec<Option<u32>>)
        requires
            self.wf(),
            old(results)@.len() == values@.len(),
        ensures
            final(results)@.len() == values@.len(),
            forall|i: int| 0 <= i < values@.len() ==> #[trigger] final(results)@[i] == lookup_answer(self.spec_strings(), values@[i]@),
    {
        self.lookup_batch_prefetch(values, results)
    }

    /// Encodes every key not yet known, in order.
    pub fn warm_up(&mut self, keys: &[&str])
        requires
            old(self).wf(),
            old(self).spec_strings().len() + keys@.len() < MAX_ENTRIES,
        ensures
            final(self).wf(),
            final(self).spec_strings().len() <= old(self).spec_strings().len() + keys@.len(),
            old(self).spec_strings().is_prefix_of(final(self).spec_strings()),
            forall|i: int| 0 <= i < keys@.len() ==> #[trigger] spec_lookup(final(self).spec_strings(), keys@[i]@) is Some,
            forall|i: int|
                old(self).spec_strings().len() <= i < final(self).spec_strings().len() ==> key_views(keys@).contains(
                    #[trigger] final(self).spec_strings()[i],
                ),
    {
        let n = keys.len();
        let mut i: usize = 0;
        while i < n
            invariant
                self.wf(),
                n == keys@.len(),
                i <= n,
                self.spec_strings().len() <= old(self).spec_strings().len() + i,
                old(self).spec_strings().len() + keys@.len() < MAX_ENTRIES,
                old(self).spec_strings().is_prefix_of(self.spec_strings()),
                forall|k: int| 0 <= k < i ==> #[trigger] spec_lookup(self.spec_strings(), keys@[k]@) is Some,
                forall|k: int|
                    old(self).spec_strings().len() <= k < self.spec_strings().len() ==> key_views(keys@).contains(
                        #[trigger] self.spec_strings()[k],
                    ),
            decreases n - i,
        {
            let ghost before = self.spec_strings();
            if self.find(keys[i]).is_none() {
                self.encode(keys[i]);
            }
            proof {
                let after = self.spec_strings();
                assert forall|k: int| 0 <= k < i implies #[trigger] spec_lookup(after, keys@[k]@) is Some by {
                    let j = spec_lookup(before, keys@[k]@).unwrap();
                    assert(after[j] == before[j]);
                }
                assert(spec_lookup(after, keys@[i as int]@) is Some);
                assert forall|k: int| old(self).spec_strings().len() <= k < after.len() implies key_views(keys@).contains(
                    #[trigger] after[k],
                ) by {
                    if k < before.len() {
                        assert(after[k] == before[k]);
                    } else {
                        assert(after[k] == keys@[i as int]@);
                        assert(key_views(keys@)[i as int] == keys@[i as int]@);
                    }
                }
                assert(old(self).spec_strings().is_prefix_of(after)) by {
                    assert forall|k: int| 0 <= k < old(self).spec_strings().len() implies old(self).spec_strings()[k]
                        == after[k] by {
                        assert(before[k] == old(self).spec_strings()[k]);
                    }
                }
            }
            i = i + 1;
        }
    }

    /// A copy with the same strings, whose map is built afresh.
    pub fn duplicate(&self) -> (r: DictionaryCache)
        requires
            self.wf(),
        ensures
            r.wf(),
            r.spec_strings() == self.spec_strings(),
    {
        let mut r = DictionaryCache::new();
        let n = self.id_to_string.len();
        let mut i: usize = 1;
        assert(self.spec_strings().take(1) =~= seq![Seq::<char>::empty()]);
        while i < n
            invariant
                self.wf(),
                n == self.spec_strings().len(),
                1 <= i <= n,
                r.wf(),
                r.spec_strings() == self.spec_strings().take(i as int),
            decreases n - i,
        {
            let ghost s = self.spec_strings();
            let ghost s0 = r.spec_strings();
            proof {
                if spec_lookup(s0, s[i as int]) is Some {
                    let j = choose|j: int| 1 <= j < s0.len() && s0[j] == s[i as int];
                    assert(s0[j] == s[j]);
                }
            }
            let v = self.id_to_string[i].as_str();
            r.push_new(v);
            proof {
                assert(r.spec_strings() =~= s.take(i + 1));
            }
            i = i + 1;
        }
        assert(self.spec_strings().take(n as int) =~= self.spec_strings());
        r
    }

    /// The bytes the dictionary accounts for: its strings' UTF-8 bytes,
    /// and one `String` and one `u32` for every slot of its map.
    pub fn space_bytes(&self) -> (r: usize)
        requires
            self.wf(),
            spec_space(self.spec_strings(), self.spec_slots()) <= usize::MAX,
        ensures
            r == spec_space(self.spec_strings(), self.spec_slots()),
    {
        let ghost strs = self.spec_strings();
        let mut string_bytes: usize = 0;
        let mut i: usize = 0;
        proof {
            assert(strs.take(0) =~= Seq::<Seq<char>>::empty());
        }
        while i < self.id_to_string.len()
            invariant
                strs == self.spec_strings(),
                i <= strs.len(),
                string_bytes == utf8_total(strs.take(i as int)),
                utf8_total(strs) <= usize::MAX,
            decreases strs.len() - i,
        {
            proof {
                assert(strs.take(i + 1).drop_last() =~= strs.take(i as int));
                assert(strs.take(i + 1).last() == self.id_to_string@[i as int]@);
                lemma_utf8_total_prefix(strs, i + 1);
            }
            string_bytes = string_bytes + self.id_to_string[i].as_str().len();
            i = i + 1;
        }
        proof {
            assert(strs.take(strs.len() as int) =~= strs);
        }
        let slots = self.string_to_id.capacity();
        let ghost a = vstd::layout::size_of::<String>();
        let ghost b = vstd::layout::size_of::<u32>();
        proof {
            assert(slots * (a + b) >= a + b) by (nonlinear_arith)
                requires
                    slots >= 1,
            ;
        }
        let per_slot = std::mem::size_of::<String>() + std::mem::size_of::<u32>();
        let map_overhead = slots * per_slot;
        string_bytes + map_overhead
    }

    /// The number of ids given out, counting id 0.
    pub fn len(&self) -> (r: usize)
        ensures
            r == self.spec_strings().len(),
    {
        self.id_to_string.len()
    }

    /// Whether no string was encoded.
    pub fn is_empty(&self) -> (r: bool)
        ensures
            r == (self.spec_strings().len() <= 1),
    {
        self.id_to_string.len() <= 1
    }

    /// Forgets every string; the map keeps its slots.
    pub fn clear(&mut self)
        requires
            old(self).wf(),
        ensures
            final(self).wf(),
            final(self).spec_strings() == seq![Seq::<char>::empty()],
            final(self).spec_index() == Index::empty(),
    {
        self.string_to_id.clear();
        self.id_to_string.clear();
        self.id_to_string.push(String::new());
        assert(self.spec_strings() =~= seq![Seq::<char>::empty()]);
    }

    /// Makes room for `additional` more strings; the contents do not change.
    pub fn reserve(&mut self, additional: usize)
        ensures
            final(self).spec_strings() == old(self).spec_strings(),
            final(self).spec_index() == old(self).spec_index(),
            old(self).wf() ==> final(self).wf(),
    {
        self.id_to_string.reserve(additional);
    }
}

impl Default for DictionaryCache {
    fn default() -> (r: Self)
        ensures
            r.wf(),
            r.spec_strings() == seq![Seq::<char>::empty()],
            r.spec_index() == Index::empty(),
    {
        DictionaryCache::new()
    }
}

/// An encoded string decodes back from its id.
pub proof fn law_encode_decode(strs: Seq<Seq<char>>, s: Seq<char>)
    requires
        strs.len() <= MAX_ENTRIES,
        spec_lookup(strs, s) is Some,
    ensures
        1 <= spec_lookup(strs, s).unwrap() < strs.len(),
        strs[spec_lookup(strs, s).unwrap()] == s,
        decode_answer(strs, lookup_answer(strs, s).unwrap()) == Some(s),
{
}

/// In a dictionary each encoded string has exactly one id, and distinct
/// strings have distinct ids.
pub proof fn law_one_id_per_string(d: DictionaryCache, i: int, j: int)
    requires
        d.wf(),
        1 <= i < d.spec_strings().len(),
        1 <= j < d.spec_strings().len(),
    ensures
        (d.spec_strings()[i] == d.spec_strings()[j]) <==> (i == j),
        spec_lookup(d.spec_strings(), d.spec_strings()[i]) == Some(i),
{
    let s = d.spec_strings();
    assert(exists|k: int| 1 <= k < s.len() && s[k] == s[i]);
    let k = choose|k: int| 1 <= k < s.len() && s[k] == s[i];
    if k != i {
        assert(s[k] != s[i]);
    }
}

/// A dictionary shared by the encoders of one column.
pub struct DictionaryCodec {
    inner: DictionaryCache,
}

impl DictionaryCodec {
    pub closed spec fn spec_strings(&self) -> Seq<Seq<char>> {
        self.inner.spec_strings()
    }

    pub closed spec fn spec_index(&self) -> Index {
        self.inner.spec_index()
    }

    pub closed spec fn wf(&self) -> bool {
        self.inner.wf()
    }

    pub closed spec fn spec_slots(&self) -> nat {
        self.inner.spec_slots()
    }

    pub fn new() -> (r: DictionaryCodec)
        ensures
            r.wf(),
            r.spec_strings() == seq![Seq::<char>::empty()],
            r.spec_index() == Index::empty(),
    {
        DictionaryCodec { inner: DictionaryCache::new() }
    }

    pub fn with_capacity(capacity: usize) -> (r: DictionaryCodec)
        requires
            capacity <= MAX_CAPACITY,
        ensures
            r.wf(),
            r.spec_strings() == seq![Seq::<char>::empty()],
            r.spec_index() == Index::empty(),
            r.spec_slots() == capacity_from(INITIAL_CAPACITY as nat, capacity as nat),
    {
        DictionaryCodec { inner: DictionaryCache::with_capacity(capacity) }
    }

    pub fn encode(&mut self, value: &str) -> (r: u32)
        requires
            old(self).wf(),
            old(self).spec_strings().len() < MAX_ENTRIES,
        ensures
            final(self).wf(),
            match spec_lookup(old(self).spec_strings(), value@) {
                Some(i) => r == i && final(self).spec_strings() == old(self).spec_strings(),
                None => r == old(self).spec_strings().len() && final(self).spec_strings() == old(self).spec_strings().push(
                    value@,
                ),
            },
            spec_lookup(final(self).spec_strings(), value@) == Some(r as int),
    {
        self.inner.encode(value)
    }

    pub fn decode(&self, id: u32) -> (r: Option<String>)
        ensures
            match r {
                Some(v) => decode_answer(self.spec_strings(), id) == Some(v@),
                None => decode_answer(self.spec_strings(), id) is None,
            },
    {
        self.inner.decode(id)
    }

    /// The same as `decode`.
    pub fn decode_ref(&self, id: u32) -> (r: Option<String>)
        ensures
            match r {
                Some(v) => decode_answer(self.spec_strings(), id) == Some(v@),
                None => decode_answer(self.spec_strings(), id) is None,
            },
    {
        self.inner.decode(id)
    }

    pub fn lookup(&self, value: &str) -> (r: Option<u32>)
        requires
            self.wf(),
        ensures
            r == lookup_answer(self.spec_strings(), value@),
    {
        self.inner.lookup(value)
    }

    /// Looks up each value; `results` must have one slot per value.
    pub fn lookup_batch(&self, values: &[&str], results: &mut Vec<Option<u32>>)
        requires
            self.wf(),
            old(results)@.len() == values@.len(),
        ensures
            final(results)@.len() == values@.len(),
            forall|i: int| 0 <= i < values@.len() ==> #[trigger] final(results)@[i] == lookup_answer(self.spec_strings(), values@[i]@),
    {
        self.inner.lookup_batch_prefetch(values, results)
    }

    pub fn lookup_batch_simd(&self, values: &[&str], results: &mut Vec<Option<u32>>)
        requires
            self.wf(),
            old(results)@.len() == values@.len(),
        ensures
            final(results)@.len() == values@.len(),
            forall|i: int| 0 <= i < values@.len() ==> #[trigger] final(results)@[i] == lookup_answer(self.spec_strings(), values@[i]@),
    {
        self.inner.lookup_batch_simd(values, results)
    }

    pub fn lookup_batch_prefetch(&self, values: &[&str], results: &mut Vec<Option<u32>>)
        requires
            self.wf(),
            old(results)@.len() == values@.len(),
        ensures
            final(results)@.len() == values@.len(),
            forall|i: int| 0 <= i < values@.len() ==> #[trigger] final(results)@[i] == lookup_answer(self.spec_strings(), values@[i]@),
    {
        self.inner.lookup_batch_prefetch(values, results)
    }

    /// The lookups of all values, in order.
    pub fn lookup_batch_into(&self, values: &[&str]) -> (r: Vec<Option<u32>>)
        requires
            self.wf(),
        ensures
            r@.len() == values@.len(),
            forall|i: int| 0 <= i < values@.len() ==> #[trigger] r@[i] == lookup_answer(self.spec_strings(), values@[i]@),
    {
        let mut results: Vec<Option<u32>> = Vec::new();
        let mut i: usize = 0;
        while i < values.len()
            invariant
                i <= values@.len(),
                results@.len() == i,
            decreases values@.len() - i,
        {
            results.push(None);
            i = i + 1;
        }
        self.lookup_batch(values, &mut results);
        results
    }

    /// Encodes each value in order; the ids in order.
    pub fn encode_batch(&mut self, values: &[&str]) -> (r: Vec<u32>)
        requires
            old(self).wf(),
            old(self).spec_strings().len() + values@.len() < MAX_ENTRIES,
        ensures
            final(self).wf(),
            r@.len() == values@.len(),
            old(self).spec_strings().is_prefix_of(final(self).spec_strings()),
            final(self).spec_strings().len() <= old(self).spec_strings().len() + values@.len(),
            forall|i: int| 0 <= i < values@.len() ==> #[trigger] lookup_answer(final(self).spec_strings(), values@[i]@) == Some(r@[i]),
    {
        let mut out: Vec<u32> = Vec::new();
        let n = values.len();
        let mut i: usize = 0;
        while i < n
            invariant
                self.wf(),
                n == values@.len(),
                i <= n,
                out@.len() == i,
                old(self).spec_strings().len() + values@.len() < MAX_ENTRIES,
                old(self).spec_strings().is_prefix_of(self.spec_strings()),
                self.spec_strings().len() <= old(self).spec_strings().len() + i,
                forall|k: int| 0 <= k < i ==> #[trigger] lookup_answer(self.spec_strings(), values@[k]@) == Some(out@[k]),
            decreases n - i,
        {
            let ghost before = self.spec_strings();
            let ghost before_out = out@;
            let id = self.encode(values[i]);
            out.push(id);
            proof {
                let after = self.spec_strings();
                assert(self.wf());
                assert forall|k: int| 0 <= k < i implies #[trigger] lookup_answer(after, values@[k]@) == Some(out@[k]) by {
                    assert(lookup_answer(before, values@[k]@) == Some(before_out[k]));
                    let j = spec_lookup(before, values@[k]@).unwrap();
                    assert(1 <= j < before.len() && before[j] == values@[k]@);
                    assert(after[j] == before[j]);
                    assert(out@[k] == before_out[k]);
                    let j2 = spec_lookup(after, values@[k]@).unwrap();
                    assert(after[j2] == values@[k]@);
                }
                assert(old(self).spec_strings().is_prefix_of(after)) by {
                    assert forall|k: int| 0 <= k < old(self).spec_strings().len() implies old(self).spec_strings()[k] == after[k] by {
                        assert(before[k] == old(self).spec_strings()[k]);
                    }
                }
            }
            i = i + 1;
        }
        out
    }

    /// Decodes each id in order.
    pub fn decode_batch(&self, ids: &[u32]) -> (r: Vec<Option<String>>)
        ensures
            r@.len() == ids@.len(),
            forall|i: int|
                0 <= i < ids@.len() ==> #[trigger] decode_answer(self.spec_strings(), ids@[i]) == match r@[i] {
                    Some(v) => Some(v@),
                    None => None,
                },
    {
        let mut out: Vec<Option<String>> = Vec::new();
        self.decode_batch_into(ids, &mut out);
        out
    }

    /// Replaces `results` by the decodings of the ids, in order.
    pub fn decode_batch_into(&self, ids: &[u32], results: &mut Vec<Option<String>>)
        ensures
            final(results)@.len() == ids@.len(),
            forall|i: int|
                0 <= i < ids@.len() ==> #[trigger] decode_answer(self.spec_strings(), ids@[i]) == match final(results)@[i] {
                    Some(v) => Some(v@),
                    None => None,
                },
    {
        results.clear();
        let n = ids.len();
        let mut i: usize = 0;
        while i < n
            invariant
                n == ids@.len(),
                i <= n,
                results@.len() == i,
                forall|k: int|
                    0 <= k < i ==> #[trigger] decode_answer(self.spec_strings(), ids@[k]) == match results@[k] {
                        Some(v) => Some(v@),
                        None => None,
                    },
            decreases n - i,
        {
            let d = self.inner.decode(ids[i]);
            results.push(d);
            i = i + 1;
        }
    }

    pub fn warm_up(&mut self, keys: &[&str])
        requires
            old(self).wf(),
            old(self).spec_strings().len() + keys@.len() < MAX_ENTRIES,
        ensures
            final(self).wf(),
            final(self).spec_strings().len() <= old(self).spec_strings().len() + keys@.len(),
            old(self).spec_strings().is_prefix_of(final(self).spec_strings()),
            forall|i: int| 0 <= i < keys@.len() ==> #[trigger] spec_lookup(final(self).spec_strings(), keys@[i]@) is Some,
            forall|i: int|
                old(self).spec_strings().len() <= i < final(self).spec_strings().len() ==> key_views(keys@).contains(
                    #[trigger] final(self).spec_strings()[i],
                ),
    {
        self.inner.warm_up(keys)
    }

    pub fn len(&self) -> (r: usize)
        ensures
            r == self.spec_strings().len(),
    {
        self.inner.len()
    }

    pub fn space_bytes(&self) -> (r: usize)
        requires
            self.wf(),
            spec_space(self.spec_strings(), self.spec_slots()) <= usize::MAX,
        ensures
            r == spec_space(self.spec_strings(), self.spec_slots()),
    {
        self.inner.space_bytes()
    }

    pub fn is_empty(&self) -> (r: bool)
        ensures
            r == (self.spec_strings().len() <= 1),
    {
        self.inner.is_empty()
    }

    pub fn clear(&mut self)
        requires
            old(self).wf(),
        ensures
            final(self).wf(),
            final(self).spec_strings() == seq![Seq::<char>::empty()],
            final(self).spec_index() == Index::empty(),
    {
        self.inner.clear()
    }

    pub fn reserve(&mut self, additional: usize)
        ensures
            final(self).spec_strings() == old(self).spec_strings(),
            final(self).spec_index() == old(self).spec_index(),
            old(self).wf() ==> final(self).wf(),
    {
        self.inner.reserve(additional)
    }
}

impl Default for DictionaryCodec {
    fn default() -> (r: Self)
        ensures
            r.wf(),
            r.spec_strings() == seq![Seq::<char>::empty()],
            r.spec_index() == Index::empty(),
    {
        DictionaryCodec::new()
    }
}

} // verus!
