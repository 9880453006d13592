//! A Robin Hood hash map: open addressing with linear probing, where an
//! entry that has travelled further from its home slot takes the slot of
//! one that has travelled less. Lookups stop as soon as they meet an entry
//! that is closer to home than the key being sought would be.
//!
//! Hashes come from ahash with random keys, so the map is described up to
//! the hash: its view maps each (key, hash) pair that it stores to the
//! value stored with it.
use std::hash::{BuildHasher, Hash, Hasher};
use vstd::prelude::*;

verus! {

/// Smallest number of slots a map is built with.
pub const INITIAL_CAPACITY: usize = 64;

/// Percentage of occupied slots at which an insertion first doubles the table.
pub const LOAD_FACTOR_PERCENT: u64 = 90;

/// Largest number of slots a table may reach (probe distances are `u32`).
pub const MAX_CAPACITY: usize = 0x8000_0000;

/// Largest number of entries an insertion accepts: below it a full table
/// of `MAX_CAPACITY` slots never needs to double.
pub const MAX_ENTRIES: usize = 0x7000_0000;

#[verifier::external_type_specification]
#[verifier::external_body]
pub struct ExAHasher(ahash::AHasher);

/// A hasher with random keys, and the hash it gives each key view.
pub struct KeyHasher<K: View> {
    hasher: ahash::AHasher,
    hashes: Ghost<spec_fn(K::V) -> u64>,
}

impl<K: View> KeyHasher<K> {
    /// The hash this hasher gives a key with view `k`.
    pub closed spec fn spec_hash(&self, k: K::V) -> u64 {
        (self.hashes@)(k)
    }

    /// The hash of every key view.
    pub closed spec fn hash_fn(&self) -> spec_fn(K::V) -> u64 {
        self.hashes@
    }
}

/// Calls `ahash::RandomState::new().build_hasher()`: a hasher with fresh
/// random keys, which nothing is promised of, paired with the hash it gives
/// each key view.
#[verifier::external_body]
fn new_key_hasher<K: MapKey>() -> KeyHasher<K> {
    KeyHasher { hasher: ahash::RandomState::new().build_hasher(), hashes: Ghost(arbitrary()) }
}

/// Hashes `key` with a copy of the hasher (`Hash::hash`, then
/// `Hasher::finish`). ahash fixes its algorithm when it is compiled (by
/// the target's features) and the hasher's keys never change, so one key
/// gets one hash from it; keys of `MapKey` types hash by their view.
#[verifier::external_body]
fn hash_with<K: MapKey>(h: &KeyHasher<K>, key: &K) -> (r: u64)
    ensures
        r == h.spec_hash(key@),
{
    let mut state = h.hasher.clone();
    key.hash(&mut state);
    state.finish()
}

/// Keys of a `RobinHoodMap`: hashable values whose equality, and whose
/// hash, are those of their views (the trait is sealed to such types).
pub trait MapKey: View + Hash + Sized + crate::key_seal::Sealed {
    fn same_key(&self, other: &Self) -> (r: bool)
        ensures
            r == (self@ == other@),
    ;
}

impl MapKey for String {
    fn same_key(&self, other: &Self) -> (r: bool) {
        crate::rbac::str_eq(self.as_str(), other.as_str())
    }
}

impl<'a> MapKey for &'a str {
    fn same_key(&self, other: &Self) -> (r: bool) {
        crate::rbac::str_eq(*self, *other)
    }
}

impl MapKey for u32 {
    fn same_key(&self, other: &Self) -> (r: bool) {
        *self == *other
    }
}

impl MapKey for u64 {
    fn same_key(&self, other: &Self) -> (r: bool) {
        *self == *other
    }
}

impl MapKey for i32 {
    fn same_key(&self, other: &Self) -> (r: bool) {
        *self == *other
    }
}

impl MapKey for i64 {
    fn same_key(&self, other: &Self) -> (r: bool) {
        *self == *other
    }
}

impl MapKey for usize {
    fn same_key(&self, other: &Self) -> (r: bool) {
        *self == *other
    }
}

pub struct Bucket<K, V> {
    pub key: K,
    pub value: V,
    pub hash: u64,
    pub probe_distance: u32,
    pub occupied: bool,
}

/// The slot `t` steps after slot `a` in a table of `n` slots (`a, t < n`).
pub open spec fn wrap(a: int, t: int, n: int) -> int {
    if a + t < n {
        a + t
    } else {
        a + t - n
    }
}

/// How many steps slot `b` lies after slot `a` in a table of `n` slots.
pub open spec fn dist(a: int, b: int, n: int) -> int {
    if a <= b {
        b - a
    } else {
        b + n - a
    }
}

/// The home slot of `hash` under `mask`.
pub open spec fn home(hash: u64, mask: usize) -> int {
    ((hash as usize) & mask) as int
}

/// The (key, hash) pair a bucket is stored under.
pub open spec fn pair_of<K: View, V>(b: Bucket<K, V>) -> (K::V, u64) {
    (b.key@, b.hash)
}

/// Whether slot `i` is occupied.
pub open spec fn occ<K, V>(s: Seq<Option<Bucket<K, V>>>, i: int) -> bool {
    s[i] is Some
}

/// The `t` slots from `a` on are occupied, the one `k` steps on by an
/// entry at least `k` slots from its home.
pub open spec fn rh_path<K, V>(s: Seq<Option<Bucket<K, V>>>, a: int, t: int) -> bool {
    forall|k: int|
        0 <= k < t ==> #[trigger] occ(s, wrap(a, k, s.len() as int)) && s[wrap(a, k, s.len() as int)]->0.probe_distance
            >= k
}

/// Every entry sits `probe_distance` slots after its home slot, and every
/// slot it passed on the way holds an entry that travelled at least as far
/// to get there.
pub open spec fn placed<K, V>(s: Seq<Option<Bucket<K, V>>>, mask: usize) -> bool {
    forall|i: int|
        #![trigger occ(s, i)]
        0 <= i < s.len() && occ(s, i) ==> {
            let b = s[i]->0;
            &&& b.probe_distance < s.len()
            &&& wrap(home(b.hash, mask), b.probe_distance as int, s.len() as int) == i
            &&& rh_path(s, home(b.hash, mask), b.probe_distance as int)
        }
}

/// Every entry is stored under the hash `f` gives its key.
pub open spec fn hashed_by<K: View, V>(s: Seq<Option<Bucket<K, V>>>, f: spec_fn(K::V) -> u64) -> bool {
    forall|i: int| 0 <= i < s.len() && #[trigger] occ(s, i) ==> s[i]->0.hash == f(s[i]->0.key@)
}

/// No (key, hash) pair is stored twice.
pub open spec fn unique<K: View, V>(s: Seq<Option<Bucket<K, V>>>) -> bool {
    forall|i: int, j: int|
        0 <= i < s.len() && 0 <= j < s.len() && i != j && occ(s, i) && occ(s, j) ==> pair_of(s[i]->0) != pair_of(
            s[j]->0,
        )
}

/// The number of occupied slots.
pub open spec fn count_occ<K, V>(s: Seq<Option<Bucket<K, V>>>) -> nat
    decreases s.len(),
{
    if s.len() == 0 {
        0
    } else {
        count_occ(s.drop_last()) + if s.last() is Some {
            1nat
        } else {
            0nat
        }
    }
}

/// What the slots hold, by (key, hash) pair.
pub open spec fn slots_view<K: View, V>(s: Seq<Option<Bucket<K, V>>>) -> Map<(K::V, u64), V>
    decreases s.len(),
{
    if s.len() == 0 {
        Map::empty()
    } else {
        let m = slots_view(s.drop_last());
        match s.last() {
            Some(b) => m.insert(pair_of(b), b.value),
            None => m,
        }
    }
}

/// `mask` is one less than a power of two.
pub open spec fn all_ones(mask: usize) -> bool {
    mask & ((mask + 1) as usize) == 0
}

/// The number of slots `with_capacity(c)` builds: the least power of two
/// that is at least `c`, counting up from `p`.
pub open spec fn capacity_from(p: nat, c: nat) -> nat
    decreases if p < c {
        c - p
    } else {
        0
    },
{
    if p == 0 || p >= c {
        p
    } else {
        capacity_from(2 * p, c)
    }
}

/// Whether an insertion into a map of `len` entries and `cap` slots first
/// doubles the table.
pub open spec fn spec_should_grow(len: nat, cap: nat) -> bool {
    (len * 100) / cap >= LOAD_FACTOR_PERCENT
}

/// The keys of the occupied slots, in slot order.
pub open spec fn slot_keys<K, V>(s: Seq<Option<Bucket<K, V>>>) -> Seq<K>
    decreases s.len(),
{
    if s.len() == 0 {
        Seq::empty()
    } else {
        match s.last() {
            Some(b) => slot_keys(s.drop_last()).push(b.key),
            None => slot_keys(s.drop_last()),
        }
    }
}

/// The values of the occupied slots, in slot order.
pub open spec fn slot_values<K, V>(s: Seq<Option<Bucket<K, V>>>) -> Seq<V>
    decreases s.len(),
{
    if s.len() == 0 {
        Seq::empty()
    } else {
        match s.last() {
            Some(b) => slot_values(s.drop_last()).push(b.value),
            None => slot_values(s.drop_last()),
        }
    }
}

/// The largest probe distance of an occupied slot, 0 when none is.
pub open spec fn max_probe<K, V>(s: Seq<Option<Bucket<K, V>>>) -> nat
    decreases s.len(),
{
    if s.len() == 0 {
        0
    } else {
        let m = max_probe(s.drop_last());
        match s.last() {
            Some(b) => if b.probe_distance > m {
                b.probe_distance as nat
            } else {
                m
            },
            None => m,
        }
    }
}

/// The sum of the probe distances of the occupied slots.
pub open spec fn probe_sum<K, V>(s: Seq<Option<Bucket<K, V>>>) -> nat
    decreases s.len(),
{
    if s.len() == 0 {
        0
    } else {
        probe_sum(s.drop_last()) + match s.last() {
            Some(b) => b.probe_distance as nat,
            None => 0,
        }
    }
}

pub struct RobinHoodMap<K: View, V> {
    entries: Vec<Option<Bucket<K, V>>>,
    len: usize,
    mask: usize,
    hasher: KeyHasher<K>,
}

impl<K: MapKey, V> View for RobinHoodMap<K, V> {
    type V = Map<(K::V, u64), V>;

    closed spec fn view(&self) -> Map<(K::V, u64), V> {
        slots_view(self.entries@)
    }
}

impl<K: MapKey, V> RobinHoodMap<K, V> {
    /// The slots.
    pub closed spec fn slots(&self) -> Seq<Option<Bucket<K, V>>> {
        self.entries@
    }

    /// The slot mask (number of slots less one).
    pub closed spec fn spec_mask(&self) -> usize {
        self.mask
    }

    /// The number of slots.
    pub closed spec fn spec_capacity(&self) -> nat {
        self.entries@.len()
    }

    /// The hash the map's hasher gives a key with view `k`; it stays the
    /// same for the life of the map.
    pub closed spec fn spec_hash(&self, k: K::V) -> u64 {
        self.hasher.spec_hash(k)
    }

    /// The hash of every key view.
    pub closed spec fn hash_fn(&self) -> spec_fn(K::V) -> u64 {
        self.hasher.hash_fn()
    }

    /// The table's shape: a power-of-two number of slots within bounds,
    /// the entry count, at least one free slot, entries placed by the
    /// Robin Hood rule and no pair stored twice.
    pub closed spec fn wf(&self) -> bool {
        let s = self.entries@;
        &&& s.len() == self.mask + 1
        &&& INITIAL_CAPACITY <= s.len() <= MAX_CAPACITY
        &&& all_ones(self.mask)
        &&& self.len == count_occ(s)
        &&& self.len < s.len()
        &&& placed(s, self.mask)
        &&& unique(s)
        &&& hashed_by(s, self.hasher.hash_fn())
    }

    /// `hash_fn` gives every key view the hash `spec_hash` names.
    pub proof fn lemma_hash_fn(&self, k: K::V)
        ensures
            self.spec_hash(k) == (self.hash_fn())(k),
    {
    }

    /// Every pair the map holds is a key with the hash its hasher gives it.
    pub proof fn lemma_hashed(&self)
        requires
            self.wf(),
        ensures
            forall|p: (K::V, u64)| #[trigger] self@.contains_key(p) ==> p.1 == self.spec_hash(p.0),
    {
        assert forall|p: (K::V, u64)| #[trigger] self@.contains_key(p) implies p.1 == self.spec_hash(p.0) by {
            lemma_view_has(self.entries@, p);
            let i = choose|i: int| 0 <= i < self.entries@.len() && occ(self.entries@, i) && pair_of(self.entries@[i]->0) == p;
            assert(occ(self.entries@, i));
        }
    }
}

proof fn lemma_hashed_update<K: View, V>(s: Seq<Option<Bucket<K, V>>>, f: spec_fn(K::V) -> u64, idx: int, b: Bucket<K, V>)
    requires
        hashed_by(s, f),
        0 <= idx < s.len(),
        b.hash == f(b.key@),
    ensures
        hashed_by(s.update(idx, Some(b)), f),
{
    let s2 = s.update(idx, Some(b));
    assert forall|i: int| 0 <= i < s2.len() && #[trigger] occ(s2, i) implies s2[i]->0.hash == f(s2[i]->0.key@) by {
        if i != idx {
            assert(s2[i] == s[i]);
            assert(occ(s, i));
        }
    }
}

impl<K: MapKey, V> RobinHoodMap<K, V> {
    /// An empty map of `INITIAL_CAPACITY` slots.
    pub fn new() -> (r: Self)
        ensures
            r.wf(),
            r@ == Map::<(K::V, u64), V>::empty(),
            r.spec_capacity() == INITIAL_CAPACITY,
    {
        Self::with_capacity(INITIAL_CAPACITY)
    }

    /// An empty map whose number of slots is the least power of two that
    /// is at least `capacity` and at least `INITIAL_CAPACITY`.
    pub fn with_capacity(capacity: usize) -> (r: Self)
        requires
            capacity <= MAX_CAPACITY,
        ensures
            r.wf(),
            r@ == Map::<(K::V, u64), V>::empty(),
            r.spec_capacity() == capacity_from(INITIAL_CAPACITY as nat, capacity as nat),
    {
        let mut cap: usize = INITIAL_CAPACITY;
        assert(all_ones(63usize)) by (bit_vector);
        while cap < capacity
            invariant
                INITIAL_CAPACITY <= cap <= MAX_CAPACITY,
                capacity <= MAX_CAPACITY,
                all_ones((cap - 1) as usize),
                capacity_from(cap as nat, capacity as nat) == capacity_from(INITIAL_CAPACITY as nat, capacity as nat),
            decreases MAX_CAPACITY - cap,
        {
            proof {
                lemma_pow2_bound(cap);
                lemma_double_pow(cap);
            }
            cap = cap * 2;
        }
        let mut entries: Vec<Option<Bucket<K, V>>> = Vec::with_capacity(cap);
        let mut i: usize = 0;
        while i < cap
            invariant
                i <= cap,
                entries@.len() == i,
                forall|k: int| 0 <= k < i ==> entries@[k] is None,
            decreases cap - i,
        {
            entries.push(None);
            i = i + 1;
        }
        proof {
            lemma_count_occ_empty(entries@);
        }
        RobinHoodMap { entries, len: 0, mask: cap - 1, hasher: new_key_hasher() }
    }

    /// The hash the map's hasher gives `key`.
    pub fn hash_key(&self, key: &K) -> (r: u64)
        ensures
            r == self.spec_hash(key@),
    {
        hash_with(&self.hasher, key)
    }

    #[inline]
    fn bucket_index(&self, hash: u64) -> (r: usize)
        requires
            self.wf(),
        ensures
            r == home(hash, self.spec_mask()),
            r < self.spec_capacity(),
    {
        proof {
            lemma_mask_bounds(hash, self.mask);
        }
        (hash as usize) & self.mask
    }

    /// The slot holding `key` under `hash`, found by probing from the home
    /// slot of `hash` until a free slot, or an entry closer to its home than
    /// `key` would be, shows the pair is absent.
    fn find_slot(&self, key: &K, hash: u64) -> (r: Option<usize>)
        requires
            self.wf(),
        ensures
            match r {
                Some(i) => i < self.slots().len() && occ(self.slots(), i as int) && pair_of(self.slots()[i as int]->0)
                    == (key@, hash),
                None => !self@.contains_key((key@, hash)),
            },
    {
        let ghost s = self.entries@;
        let ghost n = s.len() as int;
        let ghost target = (key@, hash);
        let mut index = self.bucket_index(hash);
        let ghost h = index as int;
        let mut probe_dist: u32 = 0;
        proof {
            lemma_exists_empty(s);
        }
        let ghost e = choose|e: int| 0 <= e < s.len() && !occ(s, e);
        loop
            invariant
                self.wf(),
                s == self.entries@,
                n == s.len(),
                target == (key@, hash),
                h == home(hash, self.mask),
                0 <= h < n,
                probe_dist < n,
                index == wrap(h, probe_dist as int, n),
                0 <= e < n,
                !occ(s, e),
                rh_path(s, h, probe_dist as int),
                forall|i: int|
                    0 <= i < n && occ(s, i) && pair_of(#[trigger] s[i]->0) == target ==> s[i]->0.probe_distance
                        >= probe_dist,
            decreases dist(index as int, e, n),
        {
            let slot = &self.entries[index];
            match slot {
                None => {
                    proof {
                        if self@.contains_key(target) {
                            lemma_view_has(s, target);
                            let i = choose|i: int| 0 <= i < s.len() && occ(s, i) && pair_of(s[i]->0) == target;
                            assert(occ(s, i));
                            let d = s[i]->0.probe_distance as int;
                            assert(s[i]->0.hash == hash);
                            assert(rh_path(s, h, d));
                            if d > probe_dist {
                                assert(occ(s, wrap(h, probe_dist as int, n)));
                            } else {
                                assert(i == index);
                            }
                        }
                    }
                    return None;
                },
                Some(bucket) => {
                    if probe_dist > bucket.probe_distance {
                        proof {
                            if self@.contains_key(target) {
                                lemma_view_has(s, target);
                                let i = choose|i: int|
                                    0 <= i < s.len() && occ(s, i) && pair_of(s[i]->0) == target;
                                assert(occ(s, i));
                                let d = s[i]->0.probe_distance as int;
                                assert(s[i]->0.hash == hash);
                                assert(rh_path(s, h, d));
                                if d > probe_dist {
                                    assert(occ(s, wrap(h, probe_dist as int, n)));
                                } else {
                                    assert(i == index);
                                }
                            }
                        }
                        return None;
                    }
                    if bucket.hash == hash && bucket.key.same_key(key) {
                        proof {
                            assert(occ(s, index as int));
                        }
                        return Some(index);
                    }
                    proof {
                        assert(occ(s, index as int));
                        assert forall|i: int|
                            0 <= i < n && occ(s, i) && pair_of(#[trigger] s[i]->0) == target implies s[i]->0.probe_distance
                            >= probe_dist + 1 by {
                            if s[i]->0.probe_distance == probe_dist {
                                assert(i == index);
                            }
                        }
                        assert forall|k: int| 0 <= k < probe_dist + 1 implies #[trigger] occ(
                            s,
                            wrap(h, k, n),
                        ) && s[wrap(h, k, n)]->0.probe_distance >= k by {
                            if k < probe_dist {
                                assert(occ(s, wrap(h, k, n)));
                            }
                        }
                        assert(rh_path(s, h, probe_dist + 1));
                        let te = dist(h, e, n);
                        assert(wrap(h, te, n) == e);
                        if te <= probe_dist {
                            assert(occ(s, wrap(h, te, n)));
                        }
                        lemma_next_slot(index, self.mask);
                    }
                },
            }
            index = (index + 1) & self.mask;
            probe_dist = probe_dist + 1;
        }
    }

    /// The value stored under `key` and `hash`.
    pub fn get_with_hash(&self, key: &K, hash: u64) -> (r: Option<&V>)
        requires
            self.wf(),
        ensures
            match r {
                Some(v) => self@.contains_key((key@, hash)) && *v == self@[(key@, hash)],
                None => !self@.contains_key((key@, hash)),
            },
    {
        match self.find_slot(key, hash) {
            Some(i) => {
                proof {
                    lemma_view_at(self.entries@, i as int);
                }
                match &self.entries[i] {
                    Some(bucket) => Some(&bucket.value),
                    None => None,
                }
            },
            None => None,
        }
    }

    /// Places `key` with `value` under `hash`, a pair the map does not
    /// hold: probing from its home slot, an entry that has travelled
    /// further takes the slot of one that has travelled less and the
    /// displaced entry moves on, until one lands in a free slot.
    fn insert_inner(&mut self, key: K, value: V, hash: u64)
        requires
            old(self).wf(),
            old(self)@.len() + 1 < old(self).spec_capacity(),
            !old(self)@.contains_key((key@, hash)),
            hash == old(self).spec_hash(key@),
        ensures
            final(self).wf(),
            final(self)@ == old(self)@.insert((key@, hash), value),
            final(self).spec_capacity() == old(self).spec_capacity(),
            final(self).spec_mask() == old(self).spec_mask(),
            final(self).hash_fn() == old(self).hash_fn(),
    {
        let ghost s0 = self.entries@;
        let ghost target = old(self)@.insert((key@, hash), value);
        let ghost n = s0.len() as int;
        proof {
            lemma_view_len(s0);
            lemma_exists_empty(s0);
        }
        let ghost e = choose|e: int| 0 <= e < s0.len() && !occ(s0, e);
        let mut index = self.bucket_index(hash);
        let mut current_key = key;
        let mut current_value = value;
        let mut current_hash = hash;
        let mut probe_dist: u32 = 0;
        loop
            invariant
                self.entries@.len() == n,
                old(self).entries@.len() == n,
                target == old(self)@.insert((key@, hash), value),
                n == self.mask + 1,
                INITIAL_CAPACITY <= n <= MAX_CAPACITY,
                all_ones(self.mask),
                self.mask == old(self).mask,
                self.hasher == old(self).hasher,
                hashed_by(self.entries@, self.hasher.hash_fn()),
                current_hash == self.hasher.spec_hash(current_key@),
                self.len == count_occ(self.entries@),
                self.len + 1 < n,
                placed(self.entries@, self.mask),
                unique(self.entries@),
                0 <= e < n,
                !occ(self.entries@, e),
                probe_dist < n,
                0 <= home(current_hash, self.mask) < n,
                index == wrap(home(current_hash, self.mask), probe_dist as int, n),
                rh_path(self.entries@, home(current_hash, self.mask), probe_dist as int),
                !slots_view(self.entries@).contains_key((current_key@, current_hash)),
                slots_view(self.entries@).insert((current_key@, current_hash), current_value) == target,
            decreases dist(index as int, e, n),
        {
            let ghost s = self.entries@;
            let ghost hc = home(current_hash, self.mask);
            let empty = self.entries[index].is_none();
            if empty {
                let b = Bucket {
                    key: current_key,
                    value: current_value,
                    hash: current_hash,
                    probe_distance: probe_dist,
                    occupied: true,
                };
                proof {
                    lemma_placed_update(s, self.mask, index as int, b);
                    lemma_hashed_update(s, self.hasher.hash_fn(), index as int, b);
                    lemma_absent_pair(s, pair_of(b));
                    lemma_unique_update(s, index as int, b);
                    lemma_view_update(s, index as int, Some(b));
                }
                self.entries.set(index, Some(b));
                self.len = self.len + 1;
                return;
            }
            let (same, closer) = match &self.entries[index] {
                Some(existing) => (
                    existing.hash == current_hash && existing.key.same_key(&current_key),
                    probe_dist > existing.probe_distance,
                ),
                None => (false, false),
            };
            proof {
                assert(occ(s, index as int));
            }
            if same {
                proof {
                    lemma_view_at(s, index as int);
                }
                let mut slot: Option<Bucket<K, V>> = None;
                self.entries.set_and_swap(index, &mut slot);
                if let Some(existing) = slot {
                    self.entries.set(
                        index,
                        Some(
                            Bucket {
                                key: existing.key,
                                value: current_value,
                                hash: existing.hash,
                                probe_distance: existing.probe_distance,
                                occupied: existing.occupied,
                            },
                        ),
                    );
                }
                return;
            }
            if closer {
                let b = Bucket {
                    key: current_key,
                    value: current_value,
                    hash: current_hash,
                    probe_distance: probe_dist,
                    occupied: true,
                };
                let ghost displaced_b = s[index as int]->0;
                proof {
                    lemma_placed_update(s, self.mask, index as int, b);
                    lemma_hashed_update(s, self.hasher.hash_fn(), index as int, b);
                    lemma_absent_pair(s, pair_of(b));
                    lemma_unique_update(s, index as int, b);
                    lemma_view_update(s, index as int, Some(b));
                    lemma_view_at(s, index as int);
                }
                let mut slot = Some(b);
                self.entries.set_and_swap(index, &mut slot);
                match slot {
                    Some(displaced) => {
                        current_key = displaced.key;
                        current_value = displaced.value;
                        current_hash = displaced.hash;
                        probe_dist = displaced.probe_distance;
                    },
                    None => {
                        return;
                    },
                }
                proof {
                    let s2 = self.entries@;
                    let d = displaced_b;
                    assert(d.hash == self.hasher.spec_hash(d.key@));
                    assert(s2 == s.update(index as int, Some(b)));
                    assert(pair_of(d) != pair_of(b));
                    lemma_mask_bounds(d.hash, self.mask);
                    lemma_rh_mono(s, s2, home(d.hash, self.mask), d.probe_distance as int);
                    assert(slots_view(s2).insert(pair_of(d), d.value) =~= slots_view(s).insert(pair_of(b), b.value));
                }
            }
            proof {
                let s2 = self.entries@;
                assert(occ(s2, index as int));
                lemma_advance(s2, home(current_hash, self.mask), probe_dist as int, index as int, e);
                lemma_next_slot(index, self.mask);
            }
            index = (index + 1) & self.mask;
            probe_dist = probe_dist + 1;
        }
    }

    /// The value stored under `key`, looked up under the hash that the
    /// map's hasher gives `key`.
    pub fn get(&self, key: &K) -> (r: Option<&V>)
        requires
            self.wf(),
        ensures
            match r {
                Some(v) => self@.contains_key((key@, self.spec_hash(key@))) && *v == self@[(key@, self.spec_hash(key@))],
                None => !self@.contains_key((key@, self.spec_hash(key@))),
            },
    {
        let hash = self.hash_key(key);
        self.get_with_hash(key, hash)
    }

    /// Whether `get` finds `key`.
    pub fn contains_key(&self, key: &K) -> (r: bool)
        requires
            self.wf(),
        ensures
            r == self@.contains_key((key@, self.spec_hash(key@))),
    {
        let hash = self.hash_key(key);
        self.get_with_hash(key, hash).is_some()
    }

    /// The number of stored entries.
    pub fn len(&self) -> (r: usize)
        requires
            self.wf(),
        ensures
            r == self@.len(),
    {
        proof {
            lemma_view_len(self.entries@);
        }
        self.len
    }

    /// Whether the map stores nothing.
    pub fn is_empty(&self) -> (r: bool)
        requires
            self.wf(),
        ensures
            r == (self@.len() == 0),
    {
        proof {
            lemma_view_len(self.entries@);
        }
        self.len == 0
    }

    /// A well-formed map holds finitely many pairs.
    pub proof fn lemma_finite(&self)
        requires
            self.wf(),
        ensures
            self@.dom().finite(),
    {
        lemma_view_len(self.entries@);
    }

    /// The number of slots.
    pub fn capacity(&self) -> (r: usize)
        requires
            self.wf(),
        ensures
            r == self.spec_capacity(),
            INITIAL_CAPACITY <= r <= MAX_CAPACITY,
    {
        self.mask + 1
    }

    fn should_grow(&self) -> (r: bool)
        requires
            self.wf(),
        ensures
            r == spec_should_grow(self@.len(), self.spec_capacity()),
    {
        proof {
            lemma_view_len(self.entries@);
        }
        (self.len as u64) * 100 / ((self.mask as u64) + 1) >= LOAD_FACTOR_PERCENT
    }

    /// Doubles the number of slots and places every entry again, taking
    /// the old slots in order.
    fn grow(&mut self)
        requires
            old(self).wf(),
            old(self).spec_capacity() * 2 <= MAX_CAPACITY,
        ensures
            final(self).wf(),
            final(self)@ == old(self)@,
            final(self).spec_capacity() == 2 * old(self).spec_capacity(),
            final(self).hash_fn() == old(self).hash_fn(),
    {
        let ghost s0 = self.entries@;
        let ghost n0 = s0.len() as int;
        proof {
            lemma_view_len(s0);
            lemma_double_mask(self.mask);
        }
        let new_cap = (self.mask + 1) * 2;
        let mut old_entries: Vec<Option<Bucket<K, V>>> = Vec::with_capacity(new_cap);
        let mut k: usize = 0;
        while k < new_cap
            invariant
                k <= new_cap,
                old_entries@.len() == k,
                forall|j: int| 0 <= j < k ==> old_entries@[j] is None,
            decreases new_cap - k,
        {
            old_entries.push(None);
            k = k + 1;
        }
        std::mem::swap(&mut self.entries, &mut old_entries);
        self.mask = self.mask * 2 + 1;
        self.len = 0;
        proof {
            lemma_count_occ_empty(self.entries@);
            assert(s0.take(0) =~= Seq::<Option<Bucket<K, V>>>::empty());
        }
        let mut i: usize = 0;
        while i < old_entries.len()
            invariant
                self.wf(),
                self.spec_capacity() == 2 * n0,
                old_entries@.len() == n0,
                s0.len() == n0,
                unique(s0),
                hashed_by(s0, old(self).hasher.hash_fn()),
                self.hasher.hash_fn() == old(self).hasher.hash_fn(),
                count_occ(s0) < n0,
                0 <= i <= n0,
                forall|j: int| i <= j < n0 ==> old_entries@[j] == s0[j],
                self@ == slots_view(s0.take(i as int)),
            decreases n0 - i,
        {
            let ghost t = s0.take(i as int);
            let ghost t1 = s0.take(i + 1);
            proof {
                assert(t1.drop_last() =~= t);
                assert(t1.last() == s0[i as int]);
            }
            let mut slot: Option<Bucket<K, V>> = None;
            old_entries.set_and_swap(i, &mut slot);
            if let Some(bucket) = slot {
                proof {
                    lemma_unique_take(s0, i as int);
                    lemma_view_len(t);
                    lemma_count_prefix(s0, i as int);
                    if self@.contains_key(pair_of(bucket)) {
                        lemma_view_has(t, pair_of(bucket));
                        let j = choose|j: int| 0 <= j < t.len() && occ(t, j) && pair_of(t[j]->0) == pair_of(bucket);
                        assert(t[j] == s0[j]);
                        assert(occ(s0, j) && occ(s0, i as int));
                    }
                    assert(occ(s0, i as int));
                }
                self.insert_inner(bucket.key, bucket.value, bucket.hash);
            }
            i = i + 1;
        }
        proof {
            assert(s0.take(n0) =~= s0);
        }
    }

    /// Stores `value` under `key` (and the hash the map's hasher gives it),
    /// replacing and returning the value stored there before. When at
    /// least `LOAD_FACTOR_PERCENT` percent of the slots are taken, the
    /// table doubles first.
    pub fn insert(&mut self, key: K, value: V) -> (r: Option<V>)
        requires
            old(self).wf(),
            old(self)@.len() < MAX_ENTRIES,
        ensures
            final(self).wf(),
            final(self).hash_fn() == old(self).hash_fn(),
            final(self)@ == old(self)@.insert((key@, old(self).spec_hash(key@)), value),
            r == (if old(self)@.contains_key((key@, old(self).spec_hash(key@))) {
                Some(old(self)@[(key@, old(self).spec_hash(key@))])
            } else {
                None
            }),
            final(self).spec_capacity() == if spec_should_grow(old(self)@.len(), old(self).spec_capacity()) {
                2 * old(self).spec_capacity()
            } else {
                old(self).spec_capacity()
            },
    {
        proof {
            lemma_view_len(self.entries@);
            lemma_grow_bound(self@.len(), self.spec_capacity());
        }
        if self.should_grow() {
            proof {
                let c = self.spec_capacity();
                if c == MAX_CAPACITY {
                    assert(false);
                }
                lemma_pow2_bound((self.mask + 1) as usize);
            }
            self.grow();
        }
        proof {
            lemma_view_len(self.entries@);
            lemma_grow_bound(self@.len(), self.spec_capacity());
        }
        let ghost before = self@;
        let hash = self.hash_key(&key);
        let found = self.find_slot(&key, hash);
        match found {
            Some(idx) => {
                let ghost s = self.entries@;
                proof {
                    lemma_view_at(s, idx as int);
                }
                let mut slot: Option<Bucket<K, V>> = None;
                self.entries.set_and_swap(idx, &mut slot);
                match slot {
                    Some(existing) => {
                        let b = Bucket {
                            key: existing.key,
                            value,
                            hash: existing.hash,
                            probe_distance: existing.probe_distance,
                            occupied: existing.occupied,
                        };
                        proof {
                            assert(occ(s, idx as int));
                            lemma_mask_bounds(b.hash, self.mask);
                            lemma_placed_update(s, self.mask, idx as int, b);
                            lemma_hashed_update(s, self.hasher.hash_fn(), idx as int, b);
                            assert forall|j: int|
                                0 <= j < s.len() && j != idx && occ(s, j) implies pair_of(#[trigger] s[j]->0) != pair_of(
                                b,
                            ) by {
                                assert(occ(s, idx as int));
                            }
                            lemma_unique_update(s, idx as int, b);
                            lemma_view_update(s, idx as int, Some(b));
                            assert(s.update(idx as int, None).update(idx as int, Some(b)) =~= s.update(idx as int, Some(b)));
                        }
                        self.entries.set(idx, Some(b));
                        proof {
                            assert(self@ =~= before.insert((key@, hash), value));
                        }
                        Some(existing.value)
                    },
                    None => None,
                }
            },
            None => {
                self.insert_inner(key, value, hash);
                None
            },
        }
    }

    /// Empties every slot; the number of slots stays.
    pub fn clear(&mut self)
        requires
            old(self).wf(),
        ensures
            final(self).wf(),
            final(self)@ == Map::<(K::V, u64), V>::empty(),
            final(self).spec_capacity() == old(self).spec_capacity(),
            final(self).hash_fn() == old(self).hash_fn(),
    {
        let n = self.entries.len();
        let mut i: usize = 0;
        while i < n
            invariant
                old(self).wf(),
                self.hasher == old(self).hasher,
                self.mask == old(self).mask,
                n == old(self).entries@.len(),
                self.entries@.len() == n,
                i <= n,
                forall|j: int| 0 <= j < i ==> self.entries@[j] is None,
            decreases n - i,
        {
            self.entries.set(i, None);
            i = i + 1;
        }
        self.len = 0;
        proof {
            lemma_count_occ_empty(self.entries@);
        }
    }

    /// The keys, in slot order.
    pub fn keys(&self) -> (r: Vec<&K>)
        requires
            self.wf(),
        ensures
            r@.len() == slot_keys(self.slots()).len(),
            forall|i: int| 0 <= i < r@.len() ==> *r@[i] == slot_keys(self.slots())[i],
            r@.len() == self@.len(),
    {
        let ghost s = self.entries@;
        let mut out: Vec<&K> = Vec::new();
        let mut i: usize = 0;
        while i < self.entries.len()
            invariant
                s == self.entries@,
                i <= s.len(),
                out@.len() == slot_keys(s.take(i as int)).len(),
                forall|j: int| 0 <= j < out@.len() ==> *out@[j] == slot_keys(s.take(i as int))[j],
                out@.len() == count_occ(s.take(i as int)),
            decreases s.len() - i,
        {
            proof {
                assert(s.take(i + 1).drop_last() =~= s.take(i as int));
                assert(s.take(i + 1).last() == s[i as int]);
            }
            match &self.entries[i] {
                Some(b) => {
                    out.push(&b.key);
                },
                None => {},
            }
            i = i + 1;
        }
        proof {
            assert(s.take(s.len() as int) =~= s);
            lemma_view_len(s);
        }
        out
    }

    /// The values, in slot order.
    pub fn values(&self) -> (r: Vec<&V>)
        requires
            self.wf(),
        ensures
            r@.len() == slot_values(self.slots()).len(),
            forall|i: int| 0 <= i < r@.len() ==> *r@[i] == slot_values(self.slots())[i],
            r@.len() == self@.len(),
    {
        let ghost s = self.entries@;
        let mut out: Vec<&V> = Vec::new();
        let mut i: usize = 0;
        while i < self.entries.len()
            invariant
                s == self.entries@,
                i <= s.len(),
                out@.len() == slot_values(s.take(i as int)).len(),
                forall|j: int| 0 <= j < out@.len() ==> *out@[j] == slot_values(s.take(i as int))[j],
                out@.len() == count_occ(s.take(i as int)),
            decreases s.len() - i,
        {
            proof {
                assert(s.take(i + 1).drop_last() =~= s.take(i as int));
                assert(s.take(i + 1).last() == s[i as int]);
            }
            match &self.entries[i] {
                Some(b) => {
                    out.push(&b.value);
                },
                None => {},
            }
            i = i + 1;
        }
        proof {
            assert(s.take(s.len() as int) =~= s);
            lemma_view_len(s);
        }
        out
    }

    /// The entries as (key, value) pairs, in slot order.
    pub fn iter(&self) -> (r: Vec<(&K, &V)>)
        requires
            self.wf(),
        ensures
            r@.len() == slot_keys(self.slots()).len(),
            slot_values(self.slots()).len() == r@.len(),
            forall|i: int|
                0 <= i < r@.len() ==> *r@[i].0 == slot_keys(self.slots())[i] && *r@[i].1 == slot_values(
                    self.slots(),
                )[i],
            r@.len() == self@.len(),
    {
        let ghost s = self.entries@;
        let mut out: Vec<(&K, &V)> = Vec::new();
        let mut i: usize = 0;
        while i < self.entries.len()
            invariant
                s == self.entries@,
                i <= s.len(),
                out@.len() == slot_keys(s.take(i as int)).len(),
                out@.len() == slot_values(s.take(i as int)).len(),
                forall|j: int|
                    0 <= j < out@.len() ==> *out@[j].0 == slot_keys(s.take(i as int))[j] && *out@[j].1
                        == slot_values(s.take(i as int))[j],
                out@.len() == count_occ(s.take(i as int)),
            decreases s.len() - i,
        {
            proof {
                assert(s.take(i + 1).drop_last() =~= s.take(i as int));
                assert(s.take(i + 1).last() == s[i as int]);
            }
            match &self.entries[i] {
                Some(b) => {
                    out.push((&b.key, &b.value));
                },
                None => {},
            }
            i = i + 1;
        }
        proof {
            assert(s.take(s.len() as int) =~= s);
            lemma_view_len(s);
        }
        out
    }

    /// The largest probe distance of a stored entry, 0 for an empty map.
    pub fn max_probe_distance(&self) -> (r: u32)
        requires
            self.wf(),
        ensures
            r == max_probe(self.slots()),
    {
        let ghost s = self.entries@;
        let mut m: u32 = 0;
        let mut i: usize = 0;
        while i < self.entries.len()
            invariant
                s == self.entries@,
                i <= s.len(),
                m == max_probe(s.take(i as int)),
            decreases s.len() - i,
        {
            proof {
                assert(s.take(i + 1).drop_last() =~= s.take(i as int));
                assert(s.take(i + 1).last() == s[i as int]);
            }
            match &self.entries[i] {
                Some(b) => {
                    if b.probe_distance > m {
                        m = b.probe_distance;
                    }
                },
                None => {},
            }
            i = i + 1;
        }
        proof {
            assert(s.take(s.len() as int) =~= s);
        }
        m
    }

    /// The sum of the probe distances of the stored entries (their mean is
    /// this over `len`).
    pub fn probe_distance_sum(&self) -> (r: u64)
        requires
            self.wf(),
        ensures
            r == probe_sum(self.slots()),
    {
        let ghost s = self.entries@;
        let mut total: u64 = 0;
        let mut i: usize = 0;
        while i < self.entries.len()
            invariant
                s == self.entries@,
                s.len() <= MAX_CAPACITY,
                i <= s.len(),
                total == probe_sum(s.take(i as int)),
                total <= i * 0x8000_0000,
                forall|j: int| 0 <= j < s.len() && occ(s, j) ==> s[j]->0.probe_distance < s.len(),
            decreases s.len() - i,
        {
            proof {
                assert(s.take(i + 1).drop_last() =~= s.take(i as int));
                assert(s.take(i + 1).last() == s[i as int]);
            }
            match &self.entries[i] {
                Some(b) => {
                    proof {
                        assert(occ(s, i as int));
                    }
                    total = total + b.probe_distance as u64;
                },
                None => {},
            }
            i = i + 1;
        }
        proof {
            assert(s.take(s.len() as int) =~= s);
        }
        total
    }
}

impl<K: MapKey, V> Default for RobinHoodMap<K, V> {
    fn default() -> (r: Self)
        ensures
            r.wf(),
            r@ == Map::<(K::V, u64), V>::empty(),
    {
        Self::new()
    }
}

/// With one hash per key (`f`), a value stored under a key is what a
/// lookup of that key finds; every other key keeps what it held; a new
/// key adds one entry and a stored one adds none.
pub proof fn law_store_then_find<KV, V>(m: Map<(KV, u64), V>, f: spec_fn(KV) -> u64, k: KV, v: V, k2: KV)
    requires
        m.dom().finite(),
    ensures
        m.insert((k, f(k)), v).contains_key((k, f(k))),
        m.insert((k, f(k)), v)[(k, f(k))] == v,
        k2 != k ==> (m.insert((k, f(k)), v).contains_key((k2, f(k2))) == m.contains_key((k2, f(k2)))),
        k2 != k && m.contains_key((k2, f(k2))) ==> m.insert((k, f(k)), v)[(k2, f(k2))] == m[(k2, f(k2))],
        !m.contains_key((k, f(k))) ==> m.insert((k, f(k)), v).len() == m.len() + 1,
        m.contains_key((k, f(k))) ==> m.insert((k, f(k)), v).len() == m.len(),
{
    if m.contains_key((k, f(k))) {
        assert(m.insert((k, f(k)), v).dom() =~= m.dom());
    }
}

proof fn lemma_mask_bounds(x: u64, mask: usize)
    ensures
        ((x as usize) & mask) <= mask,
{
    let y = x as usize;
    assert(y & mask <= mask) by (bit_vector);
}

proof fn lemma_next_slot(i: usize, mask: usize)
    requires
        all_ones(mask),
        mask < MAX_CAPACITY,
        i <= mask,
    ensures
        ((i + 1) as usize) & mask == if i == mask {
            0usize
        } else {
            (i + 1) as usize
        },
{
    assert(mask & ((mask + 1) as usize) == 0 && mask < 0x8000_0000 && i <= mask ==> ((i + 1) as usize) & mask == if i
        == mask {
        0usize
    } else {
        (i + 1) as usize
    }) by (bit_vector);
}

proof fn lemma_double_mask(mask: usize)
    requires
        all_ones(mask),
        mask < 0x4000_0000,
    ensures
        all_ones((mask * 2 + 1) as usize),
{
    assert(mask & ((mask + 1) as usize) == 0 && mask < 0x4000_0000 ==> ((mask * 2 + 1) as usize) & ((mask * 2 + 2) as usize)
        == 0) by (bit_vector);
}

proof fn lemma_double_pow(c: usize)
    requires
        c > 0,
        c <= 0x4000_0000,
        all_ones((c - 1) as usize),
    ensures
        all_ones((2 * c - 1) as usize),
{
    let m = (c - 1) as usize;
    lemma_double_mask(m);
    assert((m * 2 + 1) as usize == (2 * c - 1) as usize);
}

proof fn lemma_unique_prefix<K: View, V>(s: Seq<Option<Bucket<K, V>>>)
    requires
        s.len() > 0,
        unique(s),
    ensures
        unique(s.drop_last()),
{
    let t = s.drop_last();
    assert forall|i: int, j: int|
        0 <= i < t.len() && 0 <= j < t.len() && i != j && occ(t, i) && occ(t, j) implies pair_of(t[i]->0) != pair_of(
        t[j]->0,
    ) by {
        assert(t[i] == s[i] && t[j] == s[j]);
        assert(occ(s, i) && occ(s, j));
    }
}

/// A pair in the view is stored in some slot.
proof fn lemma_view_has<K: View, V>(s: Seq<Option<Bucket<K, V>>>, p: (K::V, u64))
    requires
        slots_view(s).contains_key(p),
    ensures
        exists|i: int| 0 <= i < s.len() && occ(s, i) && pair_of(s[i]->0) == p,
    decreases s.len(),
{
    let t = s.drop_last();
    let l = s.len() - 1;
    if s.last() is Some && pair_of(s.last()->0) == p {
        assert(occ(s, l) && pair_of(s[l]->0) == p);
    } else {
        lemma_view_has(t, p);
        let i = choose|i: int| 0 <= i < t.len() && occ(t, i) && pair_of(t[i]->0) == p;
        assert(t[i] == s[i]);
        assert(occ(s, i) && pair_of(s[i]->0) == p);
    }
}

/// A stored entry is in the view under its pair, with its value.
proof fn lemma_view_at<K: View, V>(s: Seq<Option<Bucket<K, V>>>, i: int)
    requires
        unique(s),
        0 <= i < s.len(),
        occ(s, i),
    ensures
        slots_view(s).contains_key(pair_of(s[i]->0)),
        slots_view(s)[pair_of(s[i]->0)] == s[i]->0.value,
    decreases s.len(),
{
    let t = s.drop_last();
    let l = s.len() - 1;
    if i < l {
        lemma_unique_prefix(s);
        assert(t[i] == s[i]);
        lemma_view_at(t, i);
        if s.last() is Some {
            assert(occ(s, l));
            assert(pair_of(s[l]->0) != pair_of(s[i]->0));
        }
    }
}

/// With no pair stored twice, the view has one entry per occupied slot.
proof fn lemma_view_len<K: View, V>(s: Seq<Option<Bucket<K, V>>>)
    requires
        unique(s),
    ensures
        slots_view(s).dom().finite(),
        slots_view(s).len() == count_occ(s),
    decreases s.len(),
{
    if s.len() > 0 {
        let t = s.drop_last();
        let l = s.len() - 1;
        lemma_unique_prefix(s);
        lemma_view_len(t);
        if s.last() is Some {
            let p = pair_of(s.last()->0);
            if slots_view(t).contains_key(p) {
                lemma_view_has(t, p);
                let i = choose|i: int| 0 <= i < t.len() && occ(t, i) && pair_of(t[i]->0) == p;
                assert(t[i] == s[i]);
                assert(occ(s, i) && occ(s, l));
            }
        }
    }
}

/// Replacing what one slot holds replaces its pair in the view.
proof fn lemma_view_update<K: View, V>(s: Seq<Option<Bucket<K, V>>>, j: int, nb: Option<Bucket<K, V>>)
    requires
        0 <= j < s.len(),
        unique(s),
        unique(s.update(j, nb)),
    ensures
        slots_view(s.update(j, nb)) == ({
            let m = if occ(s, j) {
                slots_view(s).remove(pair_of(s[j]->0))
            } else {
                slots_view(s)
            };
            match nb {
                Some(b) => m.insert(pair_of(b), b.value),
                None => m,
            }
        }),
        count_occ(s.update(j, nb)) == count_occ(s) - (if occ(s, j) {
            1int
        } else {
            0int
        }) + (if nb is Some {
            1int
        } else {
            0int
        }),
    decreases s.len(),
{
    let s2 = s.update(j, nb);
    let t = s.drop_last();
    let t2 = s2.drop_last();
    let l = s.len() - 1;
    lemma_unique_prefix(s);
    lemma_unique_prefix(s2);
    if j == l {
        assert(t2 =~= t);
        if occ(s, j) {
            let p = pair_of(s[j]->0);
            if slots_view(t).contains_key(p) {
                lemma_view_has(t, p);
                let i = choose|i: int| 0 <= i < t.len() && occ(t, i) && pair_of(t[i]->0) == p;
                assert(t[i] == s[i]);
                assert(occ(s, i));
            }
            assert(slots_view(s).remove(p) =~= slots_view(t));
        }
    } else {
        assert(t2 =~= t.update(j, nb));
        lemma_view_update(t, j, nb);
        assert(s2.last() == s.last());
        if s.last() is Some {
            let d = pair_of(s.last()->0);
            assert(occ(s, l) && occ(s2, l));
            if occ(s, j) {
                assert(pair_of(s[j]->0) != d);
            }
            if nb is Some {
                assert(s2[j] == nb);
                assert(occ(s2, j));
                assert(pair_of(nb->0) != d);
            }
            let m0 = slots_view(t);
            let m1 = if occ(s, j) {
                m0.remove(pair_of(s[j]->0))
            } else {
                m0
            };
            let m2 = match nb {
                Some(b) => m1.insert(pair_of(b), b.value),
                None => m1,
            };
            let lv = s.last()->0.value;
            let n1 = if occ(s, j) {
                m0.insert(d, lv).remove(pair_of(s[j]->0))
            } else {
                m0.insert(d, lv)
            };
            let n2 = match nb {
                Some(b) => n1.insert(pair_of(b), b.value),
                None => n1,
            };
            assert(m2.insert(d, lv) =~= n2);
        }
    }
}

/// A table with fewer entries than slots has a free slot.
proof fn lemma_exists_empty<K, V>(s: Seq<Option<Bucket<K, V>>>)
    requires
        count_occ(s) < s.len(),
    ensures
        exists|e: int| 0 <= e < s.len() && !occ(s, e),
    decreases s.len(),
{
    let l = s.len() - 1;
    if s.last() is Some {
        assert(count_occ(s.drop_last()) < s.drop_last().len());
        lemma_exists_empty(s.drop_last());
        let e = choose|e: int| 0 <= e < s.drop_last().len() && !occ(s.drop_last(), e);
        assert(s.drop_last()[e] == s[e]);
        assert(!occ(s, e));
    } else {
        assert(!occ(s, l));
    }
}

proof fn lemma_pow2_bound(c: usize)
    requires
        c > 0,
        all_ones((c - 1) as usize),
        c < 0x8000_0000,
    ensures
        c <= 0x4000_0000,
{
    let m = (c - 1) as usize;
    assert(m & ((m + 1) as usize) == 0 && m < 0x7fff_ffff ==> m < 0x4000_0000) by (bit_vector);
}

/// Slots of `s2` hold entries wherever `s` does, each at least as far
/// from home as the one it replaced.
pub open spec fn no_closer<K, V>(s: Seq<Option<Bucket<K, V>>>, s2: Seq<Option<Bucket<K, V>>>) -> bool {
    &&& s2.len() == s.len()
    &&& forall|i: int|
        0 <= i < s.len() && #[trigger] occ(s, i) ==> occ(s2, i) && s2[i]->0.probe_distance >= s[i]->0.probe_distance
}

proof fn lemma_rh_mono<K, V>(s: Seq<Option<Bucket<K, V>>>, s2: Seq<Option<Bucket<K, V>>>, a: int, t: int)
    requires
        no_closer(s, s2),
        rh_path(s, a, t),
        0 <= a < s.len(),
        t <= s.len(),
    ensures
        rh_path(s2, a, t),
{
    let n = s.len() as int;
    assert forall|k: int| 0 <= k < t implies #[trigger] occ(s2, wrap(a, k, n)) && s2[wrap(a, k, n)]->0.probe_distance
        >= k by {
        assert(occ(s, wrap(a, k, n)));
    }
}

/// Writing into slot `idx` an entry placed by the rule, that travelled at
/// least as far as the one it replaces, keeps every entry placed.
proof fn lemma_placed_update<K, V>(s: Seq<Option<Bucket<K, V>>>, mask: usize, idx: int, b: Bucket<K, V>)
    requires
        placed(s, mask),
        s.len() == mask + 1,
        0 <= idx < s.len(),
        occ(s, idx) ==> b.probe_distance >= s[idx]->0.probe_distance,
        b.probe_distance < s.len(),
        0 <= home(b.hash, mask) < s.len(),
        wrap(home(b.hash, mask), b.probe_distance as int, s.len() as int) == idx,
        rh_path(s, home(b.hash, mask), b.probe_distance as int),
    ensures
        placed(s.update(idx, Some(b)), mask),
        no_closer(s, s.update(idx, Some(b))),
{
    let s2 = s.update(idx, Some(b));
    let n = s.len() as int;
    assert forall|i: int| 0 <= i < s.len() && #[trigger] occ(s, i) implies occ(s2, i) && s2[i]->0.probe_distance
        >= s[i]->0.probe_distance by {
        if i != idx {
            assert(s2[i] == s[i]);
        }
    }
    assert forall|i: int| #![trigger occ(s2, i)] 0 <= i < s2.len() && occ(s2, i) implies {
        let c = s2[i]->0;
        &&& c.probe_distance < s2.len()
        &&& wrap(home(c.hash, mask), c.probe_distance as int, s2.len() as int) == i
        &&& rh_path(s2, home(c.hash, mask), c.probe_distance as int)
    } by {
        if i == idx {
            lemma_rh_mono(s, s2, home(b.hash, mask), b.probe_distance as int);
        } else {
            assert(s2[i] == s[i]);
            assert(occ(s, i));
            let c = s[i]->0;
            lemma_mask_bounds(c.hash, mask);
            lemma_rh_mono(s, s2, home(c.hash, mask), c.probe_distance as int);
        }
    }
}

/// Writing into slot `idx` an entry whose pair no other slot holds keeps
/// pairs unique.
proof fn lemma_unique_update<K: View, V>(s: Seq<Option<Bucket<K, V>>>, idx: int, b: Bucket<K, V>)
    requires
        unique(s),
        0 <= idx < s.len(),
        forall|j: int| 0 <= j < s.len() && j != idx && occ(s, j) ==> pair_of(#[trigger] s[j]->0) != pair_of(b),
    ensures
        unique(s.update(idx, Some(b))),
{
    let s2 = s.update(idx, Some(b));
    assert forall|i: int, j: int|
        0 <= i < s2.len() && 0 <= j < s2.len() && i != j && occ(s2, i) && occ(s2, j) implies pair_of(s2[i]->0)
        != pair_of(s2[j]->0) by {
        if i == idx {
            assert(s2[j] == s[j]);
            assert(occ(s, j));
        } else if j == idx {
            assert(s2[i] == s[i]);
            assert(occ(s, i));
        } else {
            assert(s2[i] == s[i] && s2[j] == s[j]);
            assert(occ(s, i) && occ(s, j));
        }
    }
}

/// No slot holds a pair that the view lacks.
proof fn lemma_absent_pair<K: View, V>(s: Seq<Option<Bucket<K, V>>>, p: (K::V, u64))
    requires
        unique(s),
        !slots_view(s).contains_key(p),
    ensures
        forall|j: int| 0 <= j < s.len() && occ(s, j) ==> pair_of(#[trigger] s[j]->0) != p,
{
    assert forall|j: int| 0 <= j < s.len() && occ(s, j) implies pair_of(#[trigger] s[j]->0) != p by {
        lemma_view_at(s, j);
    }
}

/// One probe step: the slot just passed extends the path, the probe
/// stays within the table and moves one slot closer to the free slot `e`.
proof fn lemma_advance<K, V>(s: Seq<Option<Bucket<K, V>>>, hc: int, p: int, index: int, e: int)
    requires
        0 <= hc < s.len(),
        0 <= p < s.len(),
        index == wrap(hc, p, s.len() as int),
        rh_path(s, hc, p),
        occ(s, index),
        s[index]->0.probe_distance >= p,
        0 <= e < s.len(),
        !occ(s, e),
    ensures
        rh_path(s, hc, p + 1),
        p + 1 < s.len(),
        wrap(hc, p + 1, s.len() as int) == if index == s.len() - 1 {
            0
        } else {
            index + 1
        },
        dist(wrap(hc, p + 1, s.len() as int), e, s.len() as int) < dist(index, e, s.len() as int),
{
    let n = s.len() as int;
    assert forall|k: int| 0 <= k < p + 1 implies #[trigger] occ(s, wrap(hc, k, n)) && s[wrap(hc, k, n)]->0.probe_distance
        >= k by {
        if k < p {
            assert(occ(s, wrap(hc, k, n)));
        }
    }
    let te = dist(hc, e, n);
    assert(wrap(hc, te, n) == e);
    if te <= p {
        assert(occ(s, wrap(hc, te, n)));
    }
}

proof fn lemma_count_prefix<K, V>(s: Seq<Option<Bucket<K, V>>>, i: int)
    requires
        0 <= i <= s.len(),
    ensures
        count_occ(s.take(i)) <= count_occ(s),
    decreases s.len(),
{
    if i == s.len() {
        assert(s.take(i) =~= s);
    } else {
        assert(s.drop_last().take(i) =~= s.take(i));
        lemma_count_prefix(s.drop_last(), i);
    }
}

proof fn lemma_unique_take<K: View, V>(s: Seq<Option<Bucket<K, V>>>, i: int)
    requires
        unique(s),
        0 <= i <= s.len(),
    ensures
        unique(s.take(i)),
{
    let t = s.take(i);
    assert forall|a: int, b: int|
        0 <= a < t.len() && 0 <= b < t.len() && a != b && occ(t, a) && occ(t, b) implies pair_of(t[a]->0) != pair_of(
        t[b]->0,
    ) by {
        assert(t[a] == s[a] && t[b] == s[b]);
        assert(occ(s, a) && occ(s, b));
    }
}

proof fn lemma_grow_bound(len: nat, cap: nat)
    requires
        64 <= cap,
        len < cap,
    ensures
        spec_should_grow(len, cap) ==> len * 100 >= 90 * cap,
        !spec_should_grow(len, cap) ==> len + 1 < cap,
{
    let x = len * 100;
    vstd::arithmetic::div_mod::lemma_fundamental_div_mod(x as int, cap as int);
    let q = x / cap;
    let r = x % cap;
    assert(x == cap * q + r);
    if q >= 90 {
        assert(cap * q >= cap * 90) by (nonlinear_arith)
            requires
                q >= 90,
                cap >= 0,
        ;
    } else {
        assert(cap * q <= cap * 89) by (nonlinear_arith)
            requires
                q <= 89,
                cap >= 0,
        ;
    }
}

proof fn lemma_count_occ_empty<K: View, V>(s: Seq<Option<Bucket<K, V>>>)
    requires
        forall|i: int| 0 <= i < s.len() ==> s[i] is None,
    ensures
        count_occ(s) == 0,
        slots_view(s) == Map::<(K::V, u64), V>::empty(),
    decreases s.len(),
{
    if s.len() > 0 {
        lemma_count_occ_empty(s.drop_last());
    }
}

} // verus!
