//! The control-array/probing/resize engine shared by the map and set
//! variants.
//!
//! A table holds a control byte per slot and a payload per slot. A control
//! byte is EMPTY, TOMBSTONE, or an occupied marker carrying the low seven
//! bits of the slot's key hash. Lookup probes linearly from the key's bucket
//! and stops at the key or at an EMPTY byte; tombstones are probed through.
//! Deletion writes a tombstone so that probe chains of other keys stay
//! intact; only a full rehash clears tombstones.

use vstd::prelude::*;
use vstd::arithmetic::div_mod::{
    lemma_mod_division_less_than_divisor, lemma_small_mod, lemma_mod_add_multiples_vanish,
    lemma_add_mod_noop,
};
use crate::hashable::Hashable;

verus! {

/// Control byte for a slot that has never held an entry.
pub const EMPTY_ENTRY: u8 = 0b1000_0000;

/// Control byte for a slot whose entry was erased; probe chains pass over it.
pub const TOMBSTONE_ENTRY: u8 = 0b1111_1110;

/// Default capacity of a fresh table and the floor below which a table never
/// shrinks.
pub const INITIAL_SIZE: usize = 16;

/// Largest live-entry count a table accepts; growth past this would ask for
/// more payload memory than a 32-bit address space holds.
pub const MAX_ENTRIES: usize = 0x400_0000;

/// Largest capacity a table ever reaches (growth is bounded by the entry
/// limit and the load-factor floor).
pub const CAP_LIMIT: usize = 0x1000_0000;

/// An occupied control byte has its high bit clear and carries a hash
/// fragment in its low seven bits.
pub open spec fn is_occupied_byte(b: u8) -> bool {
    b < 128
}

/// Every control byte is in one of the three disjoint states.
pub open spec fn byte_valid(b: u8) -> bool {
    b == EMPTY_ENTRY || b == TOMBSTONE_ENTRY || is_occupied_byte(b)
}

/// The low seven bits of a key's hash, stored in the control byte on
/// occupancy as a cheap pre-filter.
pub open spec fn frag_of<K: Hashable>(k: K) -> u8 {
    (k.hash_spec() & 0x7f) as u8
}

/// The bucket a key's probe sequence starts from: the hash without its low
/// seven bits, reduced modulo the capacity.
pub open spec fn bucket_of<K: Hashable>(k: K, cap: nat) -> int {
    ((k.hash_spec() >> 7u64) as int) % (cap as int)
}

/// Slot visited at step `t` of the probe sequence that starts at bucket `b`:
/// linear probing with wraparound.
pub open spec fn probe(b: int, t: int, cap: nat) -> int {
    (b + t) % (cap as int)
}

/// Number of probe steps from bucket `b` to slot `i`.
pub open spec fn dist(b: int, i: int, cap: nat) -> int {
    (i - b) % (cap as int)
}

/// How many control bytes of `m` mark an occupied slot.
pub closed spec fn count_occ(m: Seq<u8>) -> nat
    decreases m.len(),
{
    if m.len() == 0 {
        0
    } else {
        count_occ(m.drop_last()) + if is_occupied_byte(m.last()) {
            1nat
        } else {
            0nat
        }
    }
}

/// A capacity is a power of two.
pub open spec fn is_pow2(n: nat) -> bool
    decreases n,
{
    if n == 0 {
        false
    } else if n == 1 {
        true
    } else {
        n % 2 == 0 && is_pow2(n / 2)
    }
}

pub proof fn lemma_is_pow2_16()
    ensures
        is_pow2(16),
{
    reveal_with_fuel(is_pow2, 6);
}

pub proof fn lemma_is_pow2_64()
    ensures
        is_pow2(64),
{
    reveal_with_fuel(is_pow2, 8);
}

/// Doubling and halving keep a capacity a power of two.
pub proof fn lemma_pow2_double(n: nat)
    requires
        is_pow2(n),
    ensures
        is_pow2(2 * n),
{
    reveal_with_fuel(is_pow2, 2);
    assert((2 * n) % 2 == 0 && (2 * n) / 2 == n);
}

pub proof fn lemma_pow2_half(n: nat)
    requires
        is_pow2(n),
        n >= 2,
    ensures
        is_pow2(n / 2),
{
    reveal_with_fuel(is_pow2, 2);
}

/// A power of two of at least 16 is a multiple of 8; the load-factor
/// thresholds rely on this to stay exact across a doubling.
pub proof fn lemma_pow2_mod8(c: nat)
    requires
        is_pow2(c),
        c >= 8,
    ensures
        c % 8 == 0,
    decreases c,
{
    reveal_with_fuel(is_pow2, 4);
    if c == 8 {
    } else {
        assert(c % 2 == 0 && is_pow2(c / 2));
        if c / 2 < 8 {
            // c is even, 8 < c < 16, so c/2 is 5, 6, or 7, none a power of two.
            assert(!is_pow2((c / 2) as nat));
        } else {
            lemma_pow2_mod8(c / 2);
            assert(c % 8 == 0) by (nonlinear_arith)
                requires
                    c % 2 == 0,
                    (c / 2) % 8 == 0,
                    c >= 8,
            ;
        }
    }
}

/// The fragment of any hash fits in a control byte with the high bit clear.
proof fn lemma_frag_fits(h: u64)
    ensures
        (h & 0x7f) < 128,
        is_occupied_byte((h & 0x7f) as u8),
{
    assert((h & 0x7f) < 128) by (bit_vector);
    assert(((h & 0x7f) as u8) < 128) by (bit_vector);
}

/// An occupied slot makes the count positive.
proof fn lemma_count_occ_pos(m: Seq<u8>, i: int)
    requires
        0 <= i < m.len(),
        is_occupied_byte(m[i]),
    ensures
        count_occ(m) >= 1,
    decreases m.len(),
{
    if i == m.len() - 1 {
    } else {
        lemma_count_occ_pos(m.drop_last(), i);
    }
}

proof fn lemma_count_occ_all(m: Seq<u8>)
    requires
        forall|i: int| 0 <= i < m.len() ==> is_occupied_byte(#[trigger] m[i]),
    ensures
        count_occ(m) == m.len(),
    decreases m.len(),
{
    if m.len() > 0 {
        lemma_count_occ_all(m.drop_last());
    }
}

proof fn lemma_count_occ_none(m: Seq<u8>)
    requires
        forall|i: int| 0 <= i < m.len() ==> !is_occupied_byte(#[trigger] m[i]),
    ensures
        count_occ(m) == 0,
    decreases m.len(),
{
    if m.len() > 0 {
        lemma_count_occ_none(m.drop_last());
    }
}

proof fn lemma_count_occ_update(m: Seq<u8>, i: int, v: u8)
    requires
        0 <= i < m.len(),
    ensures
        count_occ(m.update(i, v)) == count_occ(m) - (if is_occupied_byte(m[i]) {
            1int
        } else {
            0int
        }) + (if is_occupied_byte(v) {
            1int
        } else {
            0int
        }),
    decreases m.len(),
{
    let mu = m.update(i, v);
    if i == m.len() - 1 {
        assert(mu.drop_last() =~= m.drop_last());
        assert(mu.last() == v);
    } else {
        assert(mu.drop_last() =~= m.drop_last().update(i, v));
        assert(mu.last() == m.last());
        lemma_count_occ_update(m.drop_last(), i, v);
    }
}

/// Extending a prefix by one byte adds that byte's contribution.
proof fn lemma_count_occ_prefix(m: Seq<u8>, p: int)
    requires
        0 <= p < m.len(),
    ensures
        count_occ(m.subrange(0, p + 1)) == count_occ(m.subrange(0, p)) + (
        if is_occupied_byte(m[p]) {
            1int
        } else {
            0int
        }),
{
    let long = m.subrange(0, p + 1);
    assert(long.drop_last() =~= m.subrange(0, p));
    assert(long.last() == m[p]);
}

proof fn lemma_count_occ_whole(m: Seq<u8>)
    ensures
        count_occ(m.subrange(0, m.len() as int)) == count_occ(m),
{
    assert(m.subrange(0, m.len() as int) =~= m);
}

/// A prefix never counts more occupied slots than the whole.
proof fn lemma_count_occ_prefix_le(m: Seq<u8>, p: int)
    requires
        0 <= p <= m.len(),
    ensures
        count_occ(m.subrange(0, p)) <= count_occ(m),
    decreases m.len() - p,
{
    if p == m.len() {
        lemma_count_occ_whole(m);
    } else {
        lemma_count_occ_prefix(m, p);
        lemma_count_occ_prefix_le(m, p + 1);
    }
}

/// Distinct powers of two are at least a factor of two apart.
proof fn lemma_pow2_gap(c: nat, bound: nat)
    requires
        is_pow2(c),
        is_pow2(bound),
        c > bound,
    ensures
        c >= 2 * bound,
        c % 2 == 0,
    decreases c,
{
    reveal_with_fuel(is_pow2, 2);
    if bound == 1 {
    } else {
        assert(bound % 2 == 0 && is_pow2(bound / 2));
        lemma_pow2_gap(c / 2, bound / 2);
    }
}

/// Lane width of the window matcher: how many control bytes one window
/// comparison covers.
pub const SIMD_SIZE: usize = 64;

/// Lane `s` of a window bitmask is a hit.
pub open spec fn bit_at(m: u64, s: u64) -> bool {
    ((m >> s) & 1) == 1
}

proof fn lemma_bit_zero(s: u64)
    requires
        s < 64,
    ensures
        !bit_at(0, s),
{
    assert(((0u64 >> s) & 1) != 1) by (bit_vector);
}

proof fn lemma_bit_or_set(m: u64, t: u64, s: u64)
    requires
        t < 64,
        s < 64,
    ensures
        bit_at(m | (1u64 << t), s) == if s == t {
            true
        } else {
            bit_at(m, s)
        },
{
    assert(((m | (1u64 << t)) >> s) & 1 == if s == t {
        1u64
    } else {
        (m >> s) & 1
    }) by (bit_vector)
        requires
            t < 64,
            s < 64,
    ;
}

/// Two probe hops compose into one longer hop.
proof fn lemma_probe_shift(b: int, j: int, s: int, cap: nat)
    requires
        cap > 0,
        0 <= s < cap,
    ensures
        probe(probe(b, j, cap), s, cap) == probe(b, j + s, cap),
{
    lemma_small_mod(s as nat, cap);
    lemma_add_mod_noop(b + j, s, cap as int);
}

/// Probe positions stay inside the table.
proof fn lemma_probe_range(b: int, t: int, cap: nat)
    requires
        cap > 0,
    ensures
        0 <= probe(b, t, cap) < cap,
        0 <= dist(b, t, cap) < cap,
{
    lemma_mod_division_less_than_divisor(b + t, cap as int);
    lemma_mod_division_less_than_divisor(t - b, cap as int);
}

/// Walking `dist(b, i)` steps from bucket `b` lands exactly on slot `i`, and
/// that distance is the only step count below the capacity that does.
proof fn lemma_probe_dist(b: int, i: int, cap: nat)
    requires
        cap > 0,
        0 <= b < cap,
        0 <= i < cap,
    ensures
        0 <= dist(b, i, cap) < cap,
        probe(b, dist(b, i, cap), cap) == i,
{
    let c = cap as int;
    lemma_mod_division_less_than_divisor(i - b, c);
    let d = dist(b, i, cap);
    if i >= b {
        lemma_small_mod((i - b) as nat, cap);
        assert(d == i - b);
        lemma_small_mod(i as nat, cap);
    } else {
        // i - b is negative; its Euclidean remainder is i - b + cap.
        lemma_mod_add_multiples_vanish(i - b, c);
        lemma_small_mod((i - b + c) as nat, cap);
        assert(d == i - b + c);
        lemma_mod_add_multiples_vanish(i, c);
        lemma_small_mod(i as nat, cap);
    }
}

/// The step count of a probe slot: walking `t < cap` steps from `b` lands on
/// a slot whose distance from `b` is exactly `t`.
proof fn lemma_dist_probe(b: int, t: int, cap: nat)
    requires
        cap > 0,
        0 <= b < cap,
        0 <= t < cap,
    ensures
        dist(b, probe(b, t, cap), cap) == t,
{
    let c = cap as int;
    let p = probe(b, t, cap);
    lemma_mod_division_less_than_divisor(b + t, c);
    if b + t < c {
        lemma_small_mod((b + t) as nat, cap);
        lemma_small_mod(t as nat, cap);
    } else {
        // b + t wraps exactly once.
        lemma_mod_add_multiples_vanish(b + t - c, c);
        lemma_small_mod((b + t - c) as nat, cap);
        assert(p == b + t - c);
        lemma_mod_add_multiples_vanish(p - b, c);
        lemma_small_mod(t as nat, cap);
    }
}

/// The engine: a control byte array, a payload array of the same length, and
/// the live-entry count. The map variant stores key-value pairs; the set
/// variant instantiates `V` with the unit type.
pub struct Table<K, V> {
    meta: Vec<u8>,
    arr: Vec<Option<(K, V)>>,
    size: usize,
}

impl<K: Hashable + Copy, V: Copy> Table<K, V> {
    pub closed spec fn cap(self) -> nat {
        self.meta@.len()
    }

    pub closed spec fn spec_size(self) -> nat {
        self.size as nat
    }

    pub closed spec fn spec_meta(self) -> Seq<u8> {
        self.meta@
    }

    /// Slot `i` holds a live entry.
    pub closed spec fn occ_at(self, i: int) -> bool {
        is_occupied_byte(self.meta@[i])
    }

    pub closed spec fn key_at(self, i: int) -> K {
        (self.arr@[i]->0).0
    }

    pub closed spec fn value_at(self, i: int) -> V {
        (self.arr@[i]->0).1
    }

    /// Slot `i` holds key `k`.
    pub open spec fn live_at(self, i: int, k: K) -> bool {
        0 <= i < self.cap() && self.occ_at(i) && self.key_at(i) == k
    }

    pub closed spec fn contains_key(self, k: K) -> bool {
        exists|i: int| self.live_at(i, k)
    }

    /// The slot a live key occupies; under the invariant there is exactly one.
    pub closed spec fn loc_of(self, k: K) -> int {
        choose|i: int| self.live_at(i, k)
    }

    /// What a lookup reports: the key's slot, or `usize::MAX` for absence.
    pub open spec fn spec_loc(self, k: K) -> usize {
        if self.contains_key(k) {
            self.loc_of(k) as usize
        } else {
            usize::MAX
        }
    }

    /// The table abstracted as the map it represents.
    pub closed spec fn as_map(self) -> Map<K, V> {
        Map::new(|k: K| self.contains_key(k), |k: K| self.value_at(self.loc_of(k)))
    }

    /// No probe step from the key's bucket up to (excluding) its slot hits an
    /// EMPTY byte, so every lookup that stops at EMPTY has already passed the
    /// slot.
    pub closed spec fn chain_ok(self, i: int) -> bool {
        forall|t: int|
            0 <= t < dist(bucket_of::<K>(self.key_at(i), self.cap()), i, self.cap())
                ==> self.spec_meta()[#[trigger] probe(
                bucket_of::<K>(self.key_at(i), self.cap()),
                t,
                self.cap(),
            )] != EMPTY_ENTRY
    }

    /// The structural invariant: parallel arrays, valid control bytes, a
    /// count that matches the control array, stored fragments that match the
    /// stored keys, one slot per key, and unbroken probe chains.
    spec fn inv(self) -> bool {
        &&& self.arr@.len() == self.cap()
        &&& 16 <= self.cap() <= CAP_LIMIT
        &&& is_pow2(self.cap())
        &&& self.size == count_occ(self.meta@)
        &&& forall|i: int| 0 <= i < self.cap() ==> byte_valid(#[trigger] self.spec_meta()[i])
        &&& forall|i: int| 0 <= i < self.cap() && #[trigger] self.occ_at(i) ==> self.arr@[i] is Some
        &&& forall|i: int|
            0 <= i < self.cap() && #[trigger] self.occ_at(i) ==> self.spec_meta()[i] == frag_of::<
                K,
            >(self.key_at(i))
        &&& forall|i: int, j: int|
            0 <= i < self.cap() && 0 <= j < self.cap() && i != j && #[trigger] self.occ_at(i)
                && #[trigger] self.occ_at(j) ==> self.key_at(i) != self.key_at(j)
        &&& forall|i: int| 0 <= i < self.cap() && #[trigger] self.occ_at(i) ==> self.chain_ok(i)
    }

    /// A well-formed table: structurally sound and no fuller than the growth
    /// threshold allows.
    pub closed spec fn wf(self) -> bool {
        &&& self.inv()
        &&& 8 * self.spec_size() <= 7 * self.cap()
    }

    /// The load-factor bounds the resize manager maintains for any table that
    /// started at the floor capacity: at most 7/8 full always, and at least
    /// 7/16 full unless the capacity sits at the floor.
    pub open spec fn load_factor_ok(self) -> bool {
        &&& 8 * self.spec_size() <= 7 * self.cap()
        &&& (self.cap() == 16 || 16 * self.spec_size() >= 7 * self.cap())
    }

    /// Construct an empty table of the given capacity, which must be a power
    /// of two between the floor and the capacity limit.
    pub(crate) fn with_capacity(capacity: usize) -> (t: Self)
        requires
            16 <= capacity <= CAP_LIMIT,
            is_pow2(capacity as nat),
        ensures
            t.wf(),
            t.cap() == capacity,
            t.spec_size() == 0,
            t.as_map() == Map::<K, V>::empty(),
            forall|q: K| !t.contains_key(q),
            forall|i: int| 0 <= i < capacity ==> t.spec_meta()[i] == EMPTY_ENTRY,
    {
        let mut meta: Vec<u8> = Vec::new();
        let mut arr: Vec<Option<(K, V)>> = Vec::new();
        let mut i: usize = 0;
        while i < capacity
            invariant
                meta@.len() == i,
                arr@.len() == i,
                i <= capacity,
                forall|j: int| 0 <= j < i ==> meta@[j] == EMPTY_ENTRY,
                forall|j: int| 0 <= j < i ==> arr@[j] is None,
            decreases capacity - i,
        {
            meta.push(EMPTY_ENTRY);
            arr.push(None);
            i += 1;
        }
        let t = Table { meta, arr, size: 0 };
        proof {
            lemma_count_occ_none(t.meta@);
            assert forall|k: K| !t.contains_key(k) by {
                assert(forall|j: int| 0 <= j < t.cap() ==> !t.occ_at(j));
            }
            assert(t.as_map() =~= Map::<K, V>::empty());
        }
        t
    }

    /// The hash with its fragment bits removed; selects the bucket.
    fn top_57(&self, hash: u64) -> (r: u64)
        ensures
            r == hash >> 7u64,
    {
        hash >> 7
    }

    /// The low seven bits of the hash; stored as the control byte.
    fn bot_7(&self, hash: u64) -> (r: u8)
        ensures
            r == (hash & 0x7f) as u8,
            is_occupied_byte(r),
    {
        proof {
            lemma_frag_fits(hash);
        }
        (hash & 0x7f) as u8
    }

    /// Split a key's hash into its fragment and its bucket.
    fn get_hash(&self, k: &K) -> (r: (u8, usize))
        requires
            self.cap() > 0,
        ensures
            r.0 == frag_of::<K>(*k),
            is_occupied_byte(r.0),
            r.1 == bucket_of::<K>(*k, self.cap()),
            r.1 < self.cap(),
    {
        let hash_val: u64 = k.hash();
        let frag = self.bot_7(hash_val);
        let wide: u64 = self.top_57(hash_val) % (self.meta.len() as u64);
        proof {
            lemma_mod_division_less_than_divisor((hash_val >> 7u64) as int, self.cap() as int);
        }
        (frag, wide as usize)
    }

    /// Slot `ind` matches the probe target: its control byte equals the
    /// target fragment and its key equals the probed key. A fragment match
    /// alone is a false-positive filter, never an answer.
    fn check_key(&self, k: &K, frag: u8, ind: usize) -> (r: bool)
        requires
            self.wf(),
            ind < self.cap(),
            is_occupied_byte(frag),
        ensures
            r == (self.spec_meta()[ind as int] == frag && self.key_at(ind as int) == *k),
            frag == frag_of::<K>(*k) ==> r == self.live_at(ind as int, *k),
    {
        proof {
            lemma_frag_fits(k.hash_spec());
        }
        let meta_val: u8 = self.meta[ind];
        if meta_val != frag {
            return false;
        }
        match &self.arr[ind] {
            Some(pair) => k.key_eq(&pair.0),
            None => {
                proof {
                    assert(self.occ_at(ind as int));
                    assert(false);
                }
                false
            },
        }
    }

    /// Slot `ind` is occupied by a live entry.
    pub(crate) fn is_full(&self, ind: usize) -> (r: bool)
        requires
            ind < self.cap(),
        ensures
            r == is_occupied_byte(self.spec_meta()[ind as int]),
    {
        let b = self.meta[ind];
        proof {
            assert((b & EMPTY_ENTRY) == 0 <==> b < 128) by (bit_vector);
        }
        (b & EMPTY_ENTRY) == 0
    }

    /// Slot `ind` has never held an entry.
    pub(crate) fn is_empty(&self, ind: usize) -> (r: bool)
        requires
            ind < self.cap(),
        ensures
            r == (self.spec_meta()[ind as int] == EMPTY_ENTRY),
    {
        self.meta[ind] == EMPTY_ENTRY
    }

    /// Slot `ind` holds a tombstone.
    pub(crate) fn is_deleted(&self, ind: usize) -> (r: bool)
        requires
            ind < self.cap(),
        ensures
            r == (self.spec_meta()[ind as int] == TOMBSTONE_ENTRY),
    {
        self.meta[ind] == TOMBSTONE_ENTRY
    }

    /// A live slot for a key is the only one, and is what `spec_loc` names.
    proof fn lemma_loc_unique(self, k: K, i: int)
        requires
            self.inv(),
            self.live_at(i, k),
        ensures
            self.contains_key(k),
            self.loc_of(k) == i,
            self.spec_loc(k) == i as usize,
    {
        assert(self.contains_key(k));
        let j = self.loc_of(k);
        assert(self.live_at(j, k));
    }

    /// Stopping a probe at an EMPTY byte proves the key absent: a live key's
    /// chain has no EMPTY byte before its slot, and the slot itself was
    /// checked on the way.
    proof fn lemma_not_found_empty(self, k: K, e: int)
        requires
            self.inv(),
            0 <= e < self.cap(),
            forall|t: int|
                0 <= t < e ==> !self.live_at(
                    #[trigger] probe(bucket_of::<K>(k, self.cap()), t, self.cap()),
                    k,
                ),
            self.spec_meta()[probe(bucket_of::<K>(k, self.cap()), e, self.cap())] == EMPTY_ENTRY,
        ensures
            !self.contains_key(k),
    {
        let cap = self.cap();
        let b = bucket_of::<K>(k, cap);
        lemma_mod_division_less_than_divisor((k.hash_spec() >> 7u64) as int, cap as int);
        if self.contains_key(k) {
            let i = choose|i: int| self.live_at(i, k);
            assert(self.live_at(i, k));
            lemma_probe_dist(b, i, cap);
            let d = dist(b, i, cap);
            if e < d {
                assert(self.chain_ok(i));
                assert(self.spec_meta()[probe(b, e, cap)] != EMPTY_ENTRY);
            } else if e == d {
                assert(probe(b, e, cap) == i);
                assert(is_occupied_byte(self.spec_meta()[i]));
            } else {
                assert(!self.live_at(probe(b, d, cap), k));
            }
            assert(false);
        }
    }

    /// A probe that visited every slot without finding the key proves it
    /// absent: linear probing covers the whole table in `cap` steps.
    proof fn lemma_not_found_exhausted(self, k: K)
        requires
            self.inv(),
            forall|t: int|
                0 <= t < self.cap() ==> !self.live_at(
                    #[trigger] probe(bucket_of::<K>(k, self.cap()), t, self.cap()),
                    k,
                ),
        ensures
            !self.contains_key(k),
    {
        let cap = self.cap();
        let b = bucket_of::<K>(k, cap);
        lemma_mod_division_less_than_divisor((k.hash_spec() >> 7u64) as int, cap as int);
        if self.contains_key(k) {
            let i = choose|i: int| self.live_at(i, k);
            assert(self.live_at(i, k));
            lemma_probe_dist(b, i, cap);
            let d = dist(b, i, cap);
            assert(!self.live_at(probe(b, d, cap), k));
            assert(false);
        }
    }

    /// Scalar lookup: probe linearly from the key's bucket; stop at the key,
    /// at an EMPTY byte, or after a full cycle. Tombstones are passed over.
    /// Reports the key's slot, or `usize::MAX` when the key is absent.
    pub(crate) fn get_loc(&self, k: &K) -> (r: usize)
        requires
            self.wf(),
        ensures
            r == self.spec_loc(*k),
    {
        let (frag, start) = self.get_hash(k);
        let cap = self.meta.len();
        let ghost b = bucket_of::<K>(*k, self.cap());
        let mut ind = start;
        let mut j: usize = 0;
        proof {
            lemma_small_mod(start as nat, cap as nat);
            assert(probe(b, 0, cap as nat) == b);
        }
        while j < cap
            invariant
                self.wf(),
                cap == self.cap(),
                frag == frag_of::<K>(*k),
                is_occupied_byte(frag),
                b == bucket_of::<K>(*k, self.cap()),
                0 <= b < cap,
                j <= cap,
                ind == probe(b, j as int, cap as nat),
                ind < cap,
                forall|t: int|
                    0 <= t < j ==> !self.live_at(#[trigger] probe(b, t, cap as nat), *k),
            decreases cap - j,
        {
            if self.is_empty(ind) {
                proof {
                    self.lemma_not_found_empty(*k, j as int);
                }
                return usize::MAX;
            }
            if self.check_key(k, frag, ind) {
                proof {
                    self.lemma_loc_unique(*k, ind as int);
                }
                return ind;
            }
            j += 1;
            proof {
                lemma_small_mod(1nat, cap as nat);
                lemma_add_mod_noop(b + j - 1, 1, cap as int);
                lemma_mod_division_less_than_divisor(b + j, cap as int);
            }
            ind = (ind + 1) % cap;
        }
        proof {
            self.lemma_not_found_exhausted(*k);
        }
        usize::MAX
    }

    /// Turn an already-computed lookup result into the stored value.
    fn read_at(&self, k: &K, loc: usize) -> (r: Option<V>)
        requires
            self.wf(),
            loc == self.spec_loc(*k),
        ensures
            r == if self.contains_key(*k) {
                Some(self.as_map()[*k])
            } else {
                None::<V>
            },
    {
        if loc == usize::MAX {
            None
        } else {
            proof {
                assert(self.contains_key(*k));
                assert(self.live_at(self.loc_of(*k), *k));
                assert(self.as_map()[*k] == self.value_at(self.loc_of(*k)));
            }
            match &self.arr[loc] {
                Some(pair) => Some(pair.1),
                None => {
                    proof {
                        assert(false);
                    }
                    None
                },
            }
        }
    }

    /// Look the key up with the scalar probe loop and return its value.
    pub(crate) fn get(&self, k: &K) -> (r: Option<V>)
        requires
            self.wf(),
        ensures
            r == if self.contains_key(*k) {
                Some(self.as_map()[*k])
            } else {
                None::<V>
            },
    {
        let loc = self.get_loc(k);
        self.read_at(k, loc)
    }

    /// Look the key up with the window matcher and return its value.
    pub(crate) fn get_simd(&self, k: &K) -> (r: Option<V>)
        requires
            self.wf(),
        ensures
            r == if self.contains_key(*k) {
                Some(self.as_map()[*k])
            } else {
                None::<V>
            },
    {
        let loc = self.get_loc_simd(k);
        self.read_at(k, loc)
    }

    /// A probe cycle that saw only occupied slots saw every slot, so the
    /// live count equals the capacity; callers hold this against the load
    /// bound to rule the situation out.
    proof fn lemma_all_full_contra(self, b: int)
        requires
            self.inv(),
            0 <= b < self.cap(),
            forall|t: int|
                0 <= t < self.cap() ==> self.occ_at(#[trigger] probe(b, t, self.cap())),
        ensures
            self.spec_size() == self.cap(),
    {
        let cap = self.cap();
        assert forall|i: int| 0 <= i < cap implies is_occupied_byte(#[trigger] self.meta@[i]) by {
            lemma_probe_dist(b, i, cap);
            assert(self.occ_at(probe(b, dist(b, i, cap), cap)));
        }
        lemma_count_occ_all(self.meta@);
    }

    /// Overwriting the payload of the key's own slot keeps every invariant
    /// and updates the map view at that key alone.
    proof fn lemma_after_overwrite(self, pre: Self, k: K, v: V, loc: int)
        requires
            pre.wf(),
            pre.live_at(loc, k),
            self.meta == pre.meta,
            self.arr@ == pre.arr@.update(loc, Some((k, v))),
            self.size == pre.size,
        ensures
            self.wf(),
            self.cap() == pre.cap(),
            self.spec_meta() == pre.spec_meta(),
            self.as_map() == pre.as_map().insert(k, v),
            self.contains_key(k),
            forall|q: K| self.contains_key(q) <==> (pre.contains_key(q) || q == k),
    {
        let cap = pre.cap();
        assert(forall|i: int| 0 <= i < cap ==> self.occ_at(i) == pre.occ_at(i));
        assert(forall|i: int| 0 <= i < cap && i != loc ==> self.key_at(i) == pre.key_at(i));
        assert(self.key_at(loc) == k && pre.key_at(loc) == k);
        assert(forall|i: int| 0 <= i < cap ==> self.key_at(i) == pre.key_at(i));
        assert forall|i: int| 0 <= i < cap && #[trigger] self.occ_at(i) implies self.chain_ok(i) by {
            assert(pre.chain_ok(i));
        }
        assert(self.inv());
        assert forall|q: K| self.contains_key(q) <==> (pre.contains_key(q) || q == k) by {
            if self.contains_key(q) {
                let i = choose|i: int| self.live_at(i, q);
                assert(self.live_at(i, q));
                assert(pre.live_at(i, q));
            }
            if pre.contains_key(q) {
                let i = choose|i: int| pre.live_at(i, q);
                assert(pre.live_at(i, q));
                assert(self.live_at(i, q));
            }
            if q == k {
                assert(self.live_at(loc, k));
            }
        }
        pre.lemma_loc_unique(k, loc);
        self.lemma_loc_unique(k, loc);
        assert forall|q: K| #[trigger]
            self.contains_key(q) && q != k implies self.value_at(self.loc_of(q)) == pre.value_at(
            pre.loc_of(q),
        ) by {
            let i = choose|i: int| self.live_at(i, q);
            assert(self.live_at(i, q));
            assert(i != loc);
            assert(pre.live_at(i, q));
            self.lemma_loc_unique(q, i);
            pre.lemma_loc_unique(q, i);
        }
        assert(self.value_at(self.loc_of(k)) == v);
        assert(self.as_map() =~= pre.as_map().insert(k, v));
    }

    /// Claiming the first non-occupied slot on an absent key's probe path
    /// re-establishes every invariant: the slots before it are occupied, so
    /// the new chain has no EMPTY byte, and no other chain gains one because
    /// the claimed byte only becomes occupied.
    proof fn lemma_after_claim(self, pre: Self, k: K, v: V, b: int, j: int, ind: int)
        requires
            pre.wf(),
            !pre.contains_key(k),
            pre.spec_size() < pre.cap(),
            0 <= b < pre.cap(),
            b == bucket_of::<K>(k, pre.cap()),
            0 <= j < pre.cap(),
            ind == probe(b, j, pre.cap()),
            0 <= ind < pre.cap(),
            !pre.occ_at(ind),
            forall|t: int| 0 <= t < j ==> pre.occ_at(#[trigger] probe(b, t, pre.cap())),
            self.meta@ == pre.meta@.update(ind, frag_of::<K>(k)),
            self.arr@ == pre.arr@.update(ind, Some((k, v))),
            self.size == pre.size + 1,
        ensures
            self.inv(),
            self.cap() == pre.cap(),
            self.spec_size() == pre.spec_size() + 1,
            self.as_map() == pre.as_map().insert(k, v),
            self.contains_key(k),
            forall|q: K| self.contains_key(q) <==> (pre.contains_key(q) || q == k),
            forall|i: int|
                0 <= i < pre.cap() && pre.spec_meta()[i] != TOMBSTONE_ENTRY ==> self.spec_meta()[i]
                    != TOMBSTONE_ENTRY,
    {
        let cap = pre.cap();
        lemma_frag_fits(k.hash_spec());
        let f = frag_of::<K>(k);
        assert(is_occupied_byte(f));
        lemma_count_occ_update(pre.meta@, ind, f);
        assert(self.size == count_occ(self.meta@));
        assert(forall|i: int| 0 <= i < cap && i != ind ==> self.occ_at(i) == pre.occ_at(i));
        assert(self.occ_at(ind));
        assert(self.key_at(ind) == k);
        assert(forall|i: int| 0 <= i < cap && i != ind ==> self.key_at(i) == pre.key_at(i));
        assert(forall|i: int| 0 <= i < cap && i != ind ==> self.value_at(i) == pre.value_at(i));
        // No slot held k before.
        assert(forall|i: int| !pre.live_at(i, k));
        assert forall|i: int|
            0 <= i < cap && 0 <= ind < cap && i != ind && #[trigger] self.occ_at(i) implies
            self.key_at(i) != k by {
            assert(pre.occ_at(i));
            assert(!pre.live_at(i, k));
        }
        // Probe chains survive: the claimed byte is now occupied, hence not
        // EMPTY; every other byte is unchanged.
        assert forall|i: int| 0 <= i < cap && #[trigger] self.occ_at(i) implies self.chain_ok(i) by {
            if i == ind {
                lemma_dist_probe(b, j, cap);
                assert(dist(b, ind, cap) == j);
                assert forall|t: int| 0 <= t < dist(bucket_of::<K>(self.key_at(i), cap), i, cap)
                    implies self.spec_meta()[#[trigger] probe(
                    bucket_of::<K>(self.key_at(i), cap),
                    t,
                    cap,
                )] != EMPTY_ENTRY by {
                    let p = probe(b, t, cap);
                    lemma_probe_range(b, t, cap);
                    if p == ind {
                        assert(self.spec_meta()[p] == f);
                    } else {
                        assert(pre.occ_at(p));
                        assert(is_occupied_byte(pre.spec_meta()[p]));
                    }
                }
            } else {
                assert(pre.occ_at(i));
                assert(pre.chain_ok(i));
                assert(self.key_at(i) == pre.key_at(i));
                let bi = bucket_of::<K>(self.key_at(i), cap);
                assert forall|t: int| 0 <= t < dist(bi, i, cap) implies self.spec_meta()[#[trigger] probe(
                    bi,
                    t,
                    cap,
                )] != EMPTY_ENTRY by {
                    let p = probe(bi, t, cap);
                    lemma_probe_range(bi, t, cap);
                    if p == ind {
                        assert(self.spec_meta()[p] == f);
                    } else {
                        assert(pre.spec_meta()[p] != EMPTY_ENTRY);
                    }
                }
            }
        }
        assert forall|i: int| 0 <= i < self.cap() implies byte_valid(
            #[trigger] self.spec_meta()[i],
        ) by {
            if i == ind {
                assert(self.spec_meta()[i] == f);
            } else {
                assert(self.spec_meta()[i] == pre.spec_meta()[i]);
                assert(byte_valid(pre.spec_meta()[i]));
            }
        }
        assert forall|i: int, jj: int|
            0 <= i < self.cap() && 0 <= jj < self.cap() && i != jj && #[trigger] self.occ_at(i)
                && #[trigger] self.occ_at(jj) implies self.key_at(i) != self.key_at(jj) by {
            if i == ind {
                assert(self.key_at(jj) != k);
            } else if jj == ind {
                assert(self.key_at(i) != k);
            } else {
                assert(pre.occ_at(i) && pre.occ_at(jj));
            }
        }
        assert(self.inv());
        // Membership: exactly k is new.
        assert forall|q: K| self.contains_key(q) <==> (pre.contains_key(q) || q == k) by {
            if self.contains_key(q) {
                let i = choose|i: int| self.live_at(i, q);
                assert(self.live_at(i, q));
                if i == ind {
                    assert(q == k);
                } else {
                    assert(pre.live_at(i, q));
                }
            }
            if pre.contains_key(q) {
                let i = choose|i: int| pre.live_at(i, q);
                assert(pre.live_at(i, q));
                assert(i != ind);
                assert(self.live_at(i, q));
            }
            if q == k {
                assert(self.live_at(ind, k));
            }
        }
        self.lemma_loc_unique(k, ind);
        assert(self.value_at(self.loc_of(k)) == v);
        assert forall|q: K| #[trigger]
            self.contains_key(q) && q != k implies self.value_at(self.loc_of(q)) == pre.value_at(
            pre.loc_of(q),
        ) by {
            let i = choose|i: int| self.live_at(i, q);
            assert(self.live_at(i, q));
            assert(i != ind);
            assert(pre.live_at(i, q));
            self.lemma_loc_unique(q, i);
            pre.lemma_loc_unique(q, i);
        }
        assert(self.as_map() =~= pre.as_map().insert(k, v));
    }

    /// Insert or update without consulting the resize manager: probe in
    /// lookup order; on a key match overwrite the payload; otherwise claim
    /// the first EMPTY or TOMBSTONE slot on the probe path.
    fn raw_insert(&mut self, k: K, v: V)
        requires
            old(self).wf(),
        ensures
            final(self).inv(),
            final(self).cap() == old(self).cap(),
            final(self).as_map() == old(self).as_map().insert(k, v),
            final(self).contains_key(k),
            forall|q: K|
                final(self).contains_key(q) <==> (old(self).contains_key(q) || q == k),
            final(self).spec_size() == old(self).spec_size() + (if old(self).contains_key(k) {
                0int
            } else {
                1int
            }),
            forall|i: int|
                0 <= i < old(self).cap() && old(self).spec_meta()[i] != TOMBSTONE_ENTRY
                    ==> final(self).spec_meta()[i] != TOMBSTONE_ENTRY,
    {
        let ghost pre = *self;
        let loc = self.get_loc(&k);
        if loc != usize::MAX {
            proof {
                assert(pre.contains_key(k));
                assert(pre.live_at(pre.loc_of(k), k));
            }
            self.arr.set(loc, Some((k, v)));
            proof {
                self.lemma_after_overwrite(pre, k, v, loc as int);
            }
        } else {
            proof {
                assert(!pre.contains_key(k));
                assert(pre.spec_size() < pre.cap());
            }
            let (frag, start) = self.get_hash(&k);
            let cap = self.meta.len();
            let ghost b = bucket_of::<K>(k, self.cap());
            let mut ind = start;
            let mut j: usize = 0;
            proof {
                lemma_small_mod(start as nat, cap as nat);
            }
            let mut full = self.is_full(ind);
            while full
                invariant
                    *self == pre,
                    self.wf(),
                    cap == self.cap(),
                    self.spec_size() < self.cap(),
                    frag == frag_of::<K>(k),
                    b == bucket_of::<K>(k, self.cap()),
                    0 <= b < cap,
                    j <= cap,
                    ind == probe(b, j as int, cap as nat),
                    ind < cap,
                    full == self.occ_at(ind as int),
                    forall|t: int| 0 <= t < j ==> self.occ_at(#[trigger] probe(b, t, cap as nat)),
                decreases cap - j,
            {
                proof {
                    if j == cap {
                        self.lemma_all_full_contra(b);
                    }
                }
                j += 1;
                proof {
                    lemma_small_mod(1nat, cap as nat);
                    lemma_add_mod_noop(b + j - 1, 1, cap as int);
                    lemma_mod_division_less_than_divisor(b + j, cap as int);
                }
                ind = (ind + 1) % cap;
                full = self.is_full(ind);
            }
            proof {
                if j == cap {
                    self.lemma_all_full_contra(b);
                }
            }
            self.meta.set(ind, frag);
            self.arr.set(ind, Some((k, v)));
            self.size = self.size + 1;
            proof {
                self.lemma_after_claim(pre, k, v, b, j as int, ind as int);
            }
        }
    }

    /// Writing a tombstone over the key's slot removes exactly that key:
    /// the byte stays non-EMPTY, so every other probe chain is intact.
    proof fn lemma_after_tombstone(self, pre: Self, k: K, loc: int)
        requires
            pre.wf(),
            pre.live_at(loc, k),
            self.meta@ == pre.meta@.update(loc, TOMBSTONE_ENTRY),
            self.arr == pre.arr,
            self.size == pre.size - 1,
        ensures
            self.inv(),
            8 * self.spec_size() <= 7 * self.cap(),
            self.cap() == pre.cap(),
            self.spec_size() == pre.spec_size() - 1,
            self.as_map() == pre.as_map().remove(k),
            forall|q: K| self.contains_key(q) <==> (pre.contains_key(q) && q != k),
    {
        let cap = pre.cap();
        lemma_count_occ_update(pre.meta@, loc, TOMBSTONE_ENTRY);
        assert(forall|i: int| 0 <= i < cap && i != loc ==> self.occ_at(i) == pre.occ_at(i));
        assert(!self.occ_at(loc));
        assert(forall|i: int| 0 <= i < cap ==> self.key_at(i) == pre.key_at(i));
        assert(forall|i: int| 0 <= i < cap ==> self.value_at(i) == pre.value_at(i));
        assert forall|i: int| 0 <= i < self.cap() implies byte_valid(
            #[trigger] self.spec_meta()[i],
        ) by {
            if i != loc {
                assert(byte_valid(pre.spec_meta()[i]));
            }
        }
        assert forall|i: int| 0 <= i < cap && #[trigger] self.occ_at(i) implies self.chain_ok(i) by {
            assert(pre.occ_at(i));
            assert(pre.chain_ok(i));
            let bi = bucket_of::<K>(self.key_at(i), cap);
            assert forall|t: int| 0 <= t < dist(bi, i, cap) implies self.spec_meta()[#[trigger] probe(
                bi,
                t,
                cap,
            )] != EMPTY_ENTRY by {
                let p = probe(bi, t, cap);
                lemma_probe_range(bi, t, cap);
                if p == loc {
                    assert(self.spec_meta()[p] == TOMBSTONE_ENTRY);
                } else {
                    assert(pre.spec_meta()[p] != EMPTY_ENTRY);
                }
            }
        }
        assert(self.inv());
        assert forall|q: K| self.contains_key(q) <==> (pre.contains_key(q) && q != k) by {
            if self.contains_key(q) {
                let i = choose|i: int| self.live_at(i, q);
                assert(self.live_at(i, q));
                assert(i != loc);
                assert(pre.live_at(i, q));
                if q == k {
                    assert(pre.live_at(loc, k));
                    assert(false);
                }
            }
            if pre.contains_key(q) && q != k {
                let i = choose|i: int| pre.live_at(i, q);
                assert(pre.live_at(i, q));
                assert(i != loc);
                assert(self.live_at(i, q));
            }
        }
        assert forall|q: K| #[trigger]
            self.contains_key(q) implies self.value_at(self.loc_of(q)) == pre.value_at(
            pre.loc_of(q),
        ) by {
            let i = choose|i: int| self.live_at(i, q);
            assert(self.live_at(i, q));
            assert(pre.live_at(i, q));
            self.lemma_loc_unique(q, i);
            pre.lemma_loc_unique(q, i);
        }
        assert(self.as_map() =~= pre.as_map().remove(k));
    }

    /// Rehash every live entry into a fresh table of the target capacity and
    /// adopt it; tombstones are discarded in the process, and the caller sees
    /// a single atomic capacity change.
    fn replace_self(&mut self, new_capacity: usize)
        requires
            old(self).inv(),
            16 <= new_capacity <= CAP_LIMIT,
            is_pow2(new_capacity as nat),
            8 * old(self).spec_size() <= 7 * new_capacity,
        ensures
            final(self).wf(),
            final(self).cap() == new_capacity,
            final(self).spec_size() == old(self).spec_size(),
            final(self).as_map() == old(self).as_map(),
            forall|q: K| final(self).contains_key(q) <==> old(self).contains_key(q),
            forall|i: int|
                0 <= i < new_capacity ==> final(self).spec_meta()[i] != TOMBSTONE_ENTRY,
    {
        let ghost pre = *self;
        let cap = self.meta.len();
        let mut new_hm: Table<K, V> = Table::with_capacity(new_capacity);
        let mut i: usize = 0;
        proof {
            assert(pre.spec_meta().subrange(0, 0) =~= Seq::<u8>::empty());
            assert(new_hm.as_map() =~= Map::<K, V>::empty());
        }
        while i < cap
            invariant
                *self == pre,
                pre.inv(),
                cap == pre.cap(),
                8 * pre.spec_size() <= 7 * new_capacity,
                new_hm.wf(),
                new_hm.cap() == new_capacity,
                i <= cap,
                new_hm.spec_size() == count_occ(pre.spec_meta().subrange(0, i as int)),
                forall|s: int|
                    0 <= s < new_capacity ==> new_hm.spec_meta()[s] != TOMBSTONE_ENTRY,
                forall|q: K|
                    #[trigger] new_hm.contains_key(q) <==> exists|t: int|
                        0 <= t < i && pre.live_at(t, q),
                forall|q: K|
                    #[trigger] new_hm.contains_key(q) ==> pre.contains_key(q)
                        && new_hm.as_map()[q] == pre.as_map()[q],
            decreases cap - i,
        {
            let occupied = self.is_full(i);
            if occupied {
                match &self.arr[i] {
                    Some(pair) => {
                        let (kk, vv) = *pair;
                        proof {
                            assert(pre.live_at(i as int, kk));
                            pre.lemma_loc_unique(kk, i as int);
                            assert(pre.as_map()[kk] == pre.value_at(i as int));
                            // kk cannot already be in the fresh table: its only
                            // slot in the old table is i itself.
                            if new_hm.contains_key(kk) {
                                let t = choose|t: int| 0 <= t < i && pre.live_at(t, kk);
                                assert(pre.live_at(t, kk));
                                pre.lemma_loc_unique(kk, t);
                                assert(false);
                            }
                            lemma_count_occ_prefix(pre.spec_meta(), i as int);
                            lemma_count_occ_prefix_le(pre.spec_meta(), i as int + 1);
                            lemma_count_occ_whole(pre.spec_meta());
                        }
                        let ghost mid = new_hm;
                        new_hm.raw_insert(kk, vv);
                        proof {
                            assert(new_hm.wf());
                            assert forall|q: K| #[trigger]
                                new_hm.contains_key(q) <==> exists|t: int|
                                    0 <= t < i + 1 && pre.live_at(t, q) by {
                                if new_hm.contains_key(q) {
                                    if q == kk {
                                        assert(pre.live_at(i as int, q));
                                    } else {
                                        assert(mid.contains_key(q));
                                        let t = choose|t: int| 0 <= t < i && pre.live_at(t, q);
                                        assert(0 <= t < i + 1 && pre.live_at(t, q));
                                    }
                                }
                                if exists|t: int| 0 <= t < i + 1 && pre.live_at(t, q) {
                                    let t = choose|t: int| 0 <= t < i + 1 && pre.live_at(t, q);
                                    if t == i {
                                        assert(q == kk);
                                    } else {
                                        assert(exists|t2: int| 0 <= t2 < i && pre.live_at(t2, q));
                                        assert(mid.contains_key(q));
                                    }
                                }
                            }
                            assert forall|q: K| #[trigger]
                                new_hm.contains_key(q) implies pre.contains_key(q)
                                && new_hm.as_map()[q] == pre.as_map()[q] by {
                                if q == kk {
                                    assert(new_hm.as_map()[q] == vv);
                                } else {
                                    assert(mid.contains_key(q));
                                    assert(new_hm.as_map()[q] == mid.as_map()[q]);
                                }
                            }
                        }
                    },
                    None => {
                        proof {
                            assert(pre.occ_at(i as int));
                            assert(false);
                        }
                    },
                }
            } else {
                proof {
                    lemma_count_occ_prefix(pre.spec_meta(), i as int);
                    assert forall|q: K| #[trigger]
                        new_hm.contains_key(q) <==> exists|t: int|
                            0 <= t < i + 1 && pre.live_at(t, q) by {
                        if exists|t: int| 0 <= t < i + 1 && pre.live_at(t, q) {
                            let t = choose|t: int| 0 <= t < i + 1 && pre.live_at(t, q);
                            assert(t != i);
                            assert(exists|t2: int| 0 <= t2 < i && pre.live_at(t2, q));
                        }
                    }
                }
            }
            i += 1;
        }
        proof {
            lemma_count_occ_whole(pre.spec_meta());
            assert(new_hm.spec_size() == pre.spec_size());
            assert forall|q: K| new_hm.contains_key(q) <==> pre.contains_key(q) by {
                if pre.contains_key(q) {
                    let t = choose|t: int| pre.live_at(t, q);
                    assert(pre.live_at(t, q));
                    assert(0 <= t < cap && pre.live_at(t, q));
                }
            }
            assert(new_hm.as_map() =~= pre.as_map());
        }
        *self = new_hm;
    }

    /// The growth trigger forces the live count to at least 7/8 of the old
    /// capacity exactly, because the capacity is a multiple of 8; the doubled
    /// table therefore sits at or above the 7/16 floor.
    proof fn lemma_grow_keeps_floor(size: nat, cap: nat)
        requires
            is_pow2(cap),
            cap >= 16,
            8 * (size + 1) > 7 * cap,
        ensures
            16 * size >= 7 * (2 * cap),
    {
        lemma_pow2_mod8(cap);
        vstd::arithmetic::div_mod::lemma_fundamental_div_mod(cap as int, 8);
        let c8 = cap / 8;
        assert(cap == 8 * c8);
        assert(8 * size + 8 > 56 * c8);
        assert(size >= 7 * c8);
        assert(16 * size >= 112 * c8);
    }

    /// Grow before an insert that would push the load factor past 7/8:
    /// double the capacity and rehash.
    fn expand_if_necessary(&mut self)
        requires
            old(self).wf(),
            old(self).spec_size() < MAX_ENTRIES,
        ensures
            final(self).wf(),
            final(self).as_map() == old(self).as_map(),
            forall|q: K| final(self).contains_key(q) <==> old(self).contains_key(q),
            final(self).spec_size() == old(self).spec_size(),
            8 * (final(self).spec_size() + 1) <= 7 * final(self).cap(),
            final(self).cap() == if 8 * (old(self).spec_size() + 1) > 7 * old(self).cap() {
                2 * old(self).cap()
            } else {
                old(self).cap()
            },
            8 * (old(self).spec_size() + 1) > 7 * old(self).cap() ==> 16 * final(self).spec_size()
                >= 7 * final(self).cap(),
    {
        let cap = self.meta.len();
        if 8 * (self.size + 1) > 7 * cap {
            proof {
                lemma_pow2_double(self.cap());
                Self::lemma_grow_keeps_floor(self.spec_size(), self.cap());
            }
            self.replace_self(cap * 2);
        }
    }

    /// Shrink after an erase that left the load factor below 7/16, unless the
    /// capacity already sits at the floor: halve the capacity and rehash.
    fn shrink_if_necessary(&mut self)
        requires
            old(self).inv(),
            8 * old(self).spec_size() <= 7 * old(self).cap(),
        ensures
            final(self).wf(),
            final(self).as_map() == old(self).as_map(),
            forall|q: K| final(self).contains_key(q) <==> old(self).contains_key(q),
            final(self).spec_size() == old(self).spec_size(),
            final(self).cap() == if 16 * old(self).spec_size() < 7 * old(self).cap()
                && old(self).cap() != 16 {
                old(self).cap() / 2
            } else {
                old(self).cap()
            },
            !(16 * old(self).spec_size() < 7 * old(self).cap() && old(self).cap() != 16)
                ==> final(self).spec_meta() == old(self).spec_meta(),
            (old(self).cap() == 16 || 16 * old(self).spec_size() + 16 >= 7 * old(self).cap())
                ==> (final(self).cap() == 16 || 16 * final(self).spec_size() >= 7 * final(self).cap()),
    {
        let cap = self.meta.len();
        if 16 * self.size < 7 * cap && cap != 16 {
            proof {
                lemma_is_pow2_16();
                lemma_pow2_gap(self.cap(), 16);
                lemma_pow2_half(self.cap());
            }
            self.replace_self(cap / 2);
        }
    }

    /// Upsert: grow if the new entry would break the load bound, then insert
    /// or update in probe order.
    pub(crate) fn insert(&mut self, k: K, v: V)
        requires
            old(self).wf(),
            old(self).spec_size() < MAX_ENTRIES,
        ensures
            final(self).wf(),
            final(self).as_map() == old(self).as_map().insert(k, v),
            final(self).contains_key(k),
            forall|q: K| final(self).contains_key(q) <==> (old(self).contains_key(q) || q == k),
            final(self).spec_size() == old(self).spec_size() + (if old(self).contains_key(k) {
                0int
            } else {
                1int
            }),
            final(self).cap() == if 8 * (old(self).spec_size() + 1) > 7 * old(self).cap() {
                2 * old(self).cap()
            } else {
                old(self).cap()
            },
            old(self).load_factor_ok() ==> final(self).load_factor_ok(),
    {
        let ghost pre = *self;
        self.expand_if_necessary();
        let ghost mid = *self;
        self.raw_insert(k, v);
        proof {
            assert(self.spec_size() <= mid.spec_size() + 1);
            assert(8 * self.spec_size() <= 7 * self.cap());
            assert(self.wf());
            if pre.load_factor_ok() {
                if 8 * (pre.spec_size() + 1) > 7 * pre.cap() {
                    assert(16 * mid.spec_size() >= 7 * mid.cap());
                    assert(self.spec_size() >= mid.spec_size());
                } else {
                    assert(mid.cap() == pre.cap());
                }
            }
        }
    }

    /// Apply an already-computed lookup result: tombstone the key's slot if
    /// it is present, then consult the shrink trigger.
    fn remove_at(&mut self, k: K, loc: usize)
        requires
            old(self).wf(),
            loc == old(self).spec_loc(k),
        ensures
            final(self).wf(),
            final(self).as_map() == old(self).as_map().remove(k),
            forall|q: K| final(self).contains_key(q) <==> (old(self).contains_key(q) && q != k),
            final(self).spec_size() == old(self).spec_size() - (if old(self).contains_key(k) {
                1int
            } else {
                0int
            }),
            final(self).cap() == if old(self).contains_key(k) && 16 * (old(self).spec_size() - 1)
                < 7 * old(self).cap() && old(self).cap() != 16 {
                old(self).cap() / 2
            } else {
                old(self).cap()
            },
            old(self).load_factor_ok() ==> final(self).load_factor_ok(),
            old(self).contains_key(k) && final(self).cap() == old(self).cap()
                ==> final(self).spec_meta()[old(self).loc_of(k)] == TOMBSTONE_ENTRY,
    {
        let ghost pre = *self;
        if loc != usize::MAX {
            proof {
                assert(pre.contains_key(k));
                assert(pre.live_at(pre.loc_of(k), k));
                lemma_count_occ_pos(pre.spec_meta(), pre.loc_of(k));
            }
            self.meta.set(loc, TOMBSTONE_ENTRY);
            self.size = self.size - 1;
            proof {
                self.lemma_after_tombstone(pre, k, loc as int);
            }
            self.shrink_if_necessary();
        } else {
            proof {
                assert(!pre.contains_key(k));
                assert(self.as_map() =~= pre.as_map().remove(k));
            }
        }
    }

    /// Remove the key if present, else do nothing; shrink afterwards if the
    /// load factor fell below the floor threshold. Locates with the scalar
    /// probe loop.
    pub(crate) fn erase(&mut self, k: K)
        requires
            old(self).wf(),
        ensures
            final(self).wf(),
            final(self).as_map() == old(self).as_map().remove(k),
            forall|q: K| final(self).contains_key(q) <==> (old(self).contains_key(q) && q != k),
            final(self).spec_size() == old(self).spec_size() - (if old(self).contains_key(k) {
                1int
            } else {
                0int
            }),
            final(self).cap() == if old(self).contains_key(k) && 16 * (old(self).spec_size() - 1)
                < 7 * old(self).cap() && old(self).cap() != 16 {
                old(self).cap() / 2
            } else {
                old(self).cap()
            },
            old(self).load_factor_ok() ==> final(self).load_factor_ok(),
            old(self).contains_key(k) && final(self).cap() == old(self).cap()
                ==> final(self).spec_meta()[old(self).loc_of(k)] == TOMBSTONE_ENTRY,
    {
        let loc = self.get_loc(&k);
        self.remove_at(k, loc);
    }

    /// The same removal, locating with the window matcher.
    pub(crate) fn erase_simd(&mut self, k: K)
        requires
            old(self).wf(),
        ensures
            final(self).wf(),
            final(self).as_map() == old(self).as_map().remove(k),
            forall|q: K| final(self).contains_key(q) <==> (old(self).contains_key(q) && q != k),
            final(self).spec_size() == old(self).spec_size() - (if old(self).contains_key(k) {
                1int
            } else {
                0int
            }),
            final(self).cap() == if old(self).contains_key(k) && 16 * (old(self).spec_size() - 1)
                < 7 * old(self).cap() && old(self).cap() != 16 {
                old(self).cap() / 2
            } else {
                old(self).cap()
            },
            old(self).load_factor_ok() ==> final(self).load_factor_ok(),
            old(self).contains_key(k) && final(self).cap() == old(self).cap()
                ==> final(self).spec_meta()[old(self).loc_of(k)] == TOMBSTONE_ENTRY,
    {
        let loc = self.get_loc_simd(&k);
        self.remove_at(k, loc);
    }

    /// Apply an already-computed lookup result: overwrite the stored value
    /// if the key is present.
    fn write_at(&mut self, k: K, v: V, loc: usize)
        requires
            old(self).wf(),
            loc == old(self).spec_loc(k),
        ensures
            final(self).wf(),
            final(self).cap() == old(self).cap(),
            final(self).spec_size() == old(self).spec_size(),
            forall|q: K| final(self).contains_key(q) <==> old(self).contains_key(q),
            final(self).as_map() == if old(self).contains_key(k) {
                old(self).as_map().insert(k, v)
            } else {
                old(self).as_map()
            },
    {
        let ghost pre = *self;
        if loc != usize::MAX {
            proof {
                assert(pre.contains_key(k));
                assert(pre.live_at(pre.loc_of(k), k));
            }
            self.arr.set(loc, Some((k, v)));
            proof {
                self.lemma_after_overwrite(pre, k, v, loc as int);
            }
        }
    }

    /// Update in place: change the stored value only if the key is present;
    /// never inserts. Locates with the scalar probe loop.
    pub(crate) fn set(&mut self, k: K, v: V)
        requires
            old(self).wf(),
        ensures
            final(self).wf(),
            final(self).cap() == old(self).cap(),
            final(self).spec_size() == old(self).spec_size(),
            forall|q: K| final(self).contains_key(q) <==> old(self).contains_key(q),
            final(self).as_map() == if old(self).contains_key(k) {
                old(self).as_map().insert(k, v)
            } else {
                old(self).as_map()
            },
    {
        let loc = self.get_loc(&k);
        self.write_at(k, v, loc);
    }

    /// The same in-place update, locating with the window matcher.
    pub(crate) fn set_simd(&mut self, k: K, v: V)
        requires
            old(self).wf(),
        ensures
            final(self).wf(),
            final(self).cap() == old(self).cap(),
            final(self).spec_size() == old(self).spec_size(),
            forall|q: K| final(self).contains_key(q) <==> old(self).contains_key(q),
            final(self).as_map() == if old(self).contains_key(k) {
                old(self).as_map().insert(k, v)
            } else {
                old(self).as_map()
            },
    {
        let loc = self.get_loc_simd(&k);
        self.write_at(k, v, loc);
    }

    /// The window matcher capability: compare `lanes` consecutive control
    /// bytes (wrapping at the end of the table) against the target fragment
    /// and the EMPTY sentinel at once, and report two per-lane hit bitmasks
    /// ordered by probe position. This is the portable backend; a vectorized
    /// one must return the same masks.
    fn match_window(&self, wstart: usize, frag: u8, lanes: usize) -> (r: (u64, u64))
        requires
            self.cap() > 0,
            self.cap() <= CAP_LIMIT,
            wstart < self.cap(),
            1 <= lanes <= SIMD_SIZE,
        ensures
            forall|s: u64|
                s < lanes ==> (#[trigger] bit_at(r.0, s) <==> self.spec_meta()[probe(
                    wstart as int,
                    s as int,
                    self.cap(),
                )] == frag),
            forall|s: u64|
                s < lanes ==> (#[trigger] bit_at(r.1, s) <==> self.spec_meta()[probe(
                    wstart as int,
                    s as int,
                    self.cap(),
                )] == EMPTY_ENTRY),
    {
        let cap = self.meta.len();
        let mut match_mask: u64 = 0;
        let mut empty_mask: u64 = 0;
        let mut t: usize = 0;
        proof {
            assert forall|s: u64| s < 64 implies !bit_at(0, s) by {
                lemma_bit_zero(s);
            }
        }
        while t < lanes
            invariant
                cap == self.cap(),
                cap <= CAP_LIMIT,
                wstart < cap,
                1 <= lanes <= SIMD_SIZE,
                t <= lanes,
                forall|s: u64|
                    s < t ==> (#[trigger] bit_at(match_mask, s) <==> self.spec_meta()[probe(
                        wstart as int,
                        s as int,
                        self.cap(),
                    )] == frag),
                forall|s: u64|
                    s < t ==> (#[trigger] bit_at(empty_mask, s) <==> self.spec_meta()[probe(
                        wstart as int,
                        s as int,
                        self.cap(),
                    )] == EMPTY_ENTRY),
                forall|s: u64| t <= s < 64 ==> !bit_at(match_mask, s) && !bit_at(empty_mask, s),
            decreases lanes - t,
        {
            let slot = (wstart + t) % cap;
            proof {
                lemma_mod_division_less_than_divisor(wstart + t, cap as int);
                assert(slot == probe(wstart as int, t as int, cap as nat));
            }
            let byte = self.meta[slot];
            let ghost old_match = match_mask;
            let ghost old_empty = empty_mask;
            if byte == frag {
                match_mask = match_mask | (1u64 << (t as u64));
            }
            if byte == EMPTY_ENTRY {
                empty_mask = empty_mask | (1u64 << (t as u64));
            }
            proof {
                assert forall|s: u64| s < 64 implies bit_at(match_mask, s) == (if s == t as u64 {
                    byte == frag
                } else {
                    bit_at(old_match, s)
                }) && bit_at(empty_mask, s) == (if s == t as u64 {
                    byte == EMPTY_ENTRY
                } else {
                    bit_at(old_empty, s)
                }) by {
                    lemma_bit_or_set(old_match, t as u64, s);
                    lemma_bit_or_set(old_empty, t as u64, s);
                }
            }
            t += 1;
        }
        (match_mask, empty_mask)
    }

    /// Window lookup: the alternative probe path. Windows of `SIMD_SIZE`
    /// control bytes are matched in parallel; within a window, an EMPTY hit
    /// before any fragment hit means the key is absent, and each fragment hit
    /// is filtered through the same key-equality check the scalar path uses.
    /// Returns exactly what `get_loc` returns.
    pub(crate) fn get_loc_simd(&self, k: &K) -> (r: usize)
        requires
            self.wf(),
        ensures
            r == self.spec_loc(*k),
    {
        let (frag, start) = self.get_hash(k);
        let cap = self.meta.len();
        let ghost b = bucket_of::<K>(*k, self.cap());
        let mut j: usize = 0;
        while j < cap
            invariant
                self.wf(),
                cap == self.cap(),
                frag == frag_of::<K>(*k),
                is_occupied_byte(frag),
                b == bucket_of::<K>(*k, self.cap()),
                0 <= b < cap,
                start == b,
                j <= cap,
                forall|t: int|
                    0 <= t < j ==> !self.live_at(#[trigger] probe(b, t, cap as nat), *k),
            decreases cap - j,
        {
            let wstart = (start + j) % cap;
            proof {
                lemma_mod_division_less_than_divisor(start + j, cap as int);
                assert(wstart == probe(b, j as int, cap as nat));
            }
            let lanes = if cap - j < SIMD_SIZE {
                cap - j
            } else {
                SIMD_SIZE
            };
            let (match_mask, empty_mask) = self.match_window(wstart, frag, lanes);
            let mut t: usize = 0;
            while t < lanes
                invariant
                    self.wf(),
                    cap == self.cap(),
                    frag == frag_of::<K>(*k),
                    is_occupied_byte(frag),
                    b == bucket_of::<K>(*k, self.cap()),
                    0 <= b < cap,
                    j + lanes <= cap,
                    1 <= lanes <= SIMD_SIZE,
                    t <= lanes,
                    wstart == probe(b, j as int, cap as nat),
                    0 <= wstart < cap,
                    forall|s: u64|
                        s < lanes ==> (#[trigger] bit_at(match_mask, s) <==> self.spec_meta()[probe(
                            wstart as int,
                            s as int,
                            cap as nat,
                        )] == frag),
                    forall|s: u64|
                        s < lanes ==> (#[trigger] bit_at(empty_mask, s) <==> self.spec_meta()[probe(
                            wstart as int,
                            s as int,
                            cap as nat,
                        )] == EMPTY_ENTRY),
                    forall|t2: int|
                        0 <= t2 < j + t ==> !self.live_at(#[trigger] probe(b, t2, cap as nat), *k),
                decreases lanes - t,
            {
                let ghost lane_slot = probe(wstart as int, t as int, cap as nat);
                proof {
                    lemma_probe_shift(b, j as int, t as int, cap as nat);
                    assert(lane_slot == probe(b, j + t, cap as nat));
                    lemma_probe_range(b, j + t, cap as nat);
                }
                if (empty_mask >> (t as u64)) & 1 == 1 {
                    proof {
                        assert(bit_at(empty_mask, t as u64));
                        assert(self.spec_meta()[probe(b, j + t, cap as nat)] == EMPTY_ENTRY);
                        self.lemma_not_found_empty(*k, j + t);
                    }
                    return usize::MAX;
                }
                if (match_mask >> (t as u64)) & 1 == 1 {
                    let idx = (wstart + t) % cap;
                    proof {
                        lemma_mod_division_less_than_divisor(wstart + t, cap as int);
                        assert(idx == lane_slot);
                    }
                    if self.check_key(k, frag, idx) {
                        proof {
                            self.lemma_loc_unique(*k, idx as int);
                        }
                        return idx;
                    }
                }
                proof {
                    // This lane is no live slot of the key: either its byte
                    // differs from the fragment, or the full key comparison
                    // failed.
                    if self.live_at(lane_slot, *k) {
                        assert(self.occ_at(lane_slot));
                        assert(self.spec_meta()[lane_slot] == frag_of::<K>(self.key_at(lane_slot)));
                        assert(bit_at(match_mask, t as u64));
                        assert(false);
                    }
                    assert forall|t2: int|
                        0 <= t2 < j + t + 1 implies !self.live_at(
                        #[trigger] probe(b, t2, cap as nat),
                        *k,
                    ) by {
                        if t2 == j + t {
                            assert(probe(b, t2, cap as nat) == lane_slot);
                        }
                    }
                }
                t += 1;
            }
            j += lanes;
        }
        proof {
            self.lemma_not_found_exhausted(*k);
        }
        usize::MAX
    }

    /// A lookup result is the sentinel exactly on absence, and a present
    /// key's slot lies inside the table.
    pub(crate) proof fn lemma_spec_loc_bounds(self, k: K)
        requires
            self.wf(),
        ensures
            (self.spec_loc(k) == usize::MAX) <==> !self.contains_key(k),
            self.contains_key(k) ==> self.spec_loc(k) < self.cap() && self.spec_loc(k) as int
                == self.loc_of(k),
    {
        if self.contains_key(k) {
            let i = choose|i: int| self.live_at(i, k);
            assert(self.live_at(i, k));
            self.lemma_loc_unique(k, i);
        }
    }

    /// The key stored in slot `ind`, if the slot is occupied.
    pub(crate) fn stored_key(&self, ind: usize) -> (r: Option<K>)
        requires
            self.wf(),
            ind < self.cap(),
        ensures
            r is Some <==> is_occupied_byte(self.spec_meta()[ind as int]),
            r is Some ==> self.live_at(ind as int, r->0) && self.contains_key(r->0)
                && self.spec_loc(r->0) == ind,
    {
        if self.is_full(ind) {
            match &self.arr[ind] {
                Some(pair) => {
                    proof {
                        self.lemma_loc_unique(pair.0, ind as int);
                    }
                    Some(pair.0)
                },
                None => {
                    proof {
                        assert(self.occ_at(ind as int));
                        assert(false);
                    }
                    None
                },
            }
        } else {
            None
        }
    }

    /// What well-formedness guarantees about the table's shape: the control
    /// array matches the capacity, the capacity is a power of two between
    /// the floor and the limit, the live count respects the growth bound,
    /// and every control byte is EMPTY, TOMBSTONE, or an occupied marker.
    pub proof fn lemma_wf_facts(self)
        requires
            self.wf(),
        ensures
            self.spec_meta().len() == self.cap(),
            16 <= self.cap() <= CAP_LIMIT,
            is_pow2(self.cap()),
            8 * self.spec_size() <= 7 * self.cap(),
            forall|i: int| 0 <= i < self.cap() ==> byte_valid(#[trigger] self.spec_meta()[i]),
    {
    }

    /// The domain of the map view is exactly the set of live keys.
    pub(crate) proof fn lemma_as_map_dom(self)
        ensures
            forall|k: K| #[trigger] self.as_map().contains_key(k) <==> self.contains_key(k),
    {
    }

    pub(crate) fn size(&self) -> (r: usize)
        ensures
            r == self.spec_size(),
    {
        self.size
    }

    pub(crate) fn capacity(&self) -> (r: usize)
        ensures
            r == self.cap(),
    {
        self.meta.len()
    }
}

} // verus!
