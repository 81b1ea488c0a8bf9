//! The map adapter over the shared engine, with the scalar lookup path.
//!
//! A table views as a `Map<K, V>`. Every operation states in its contract
//! exactly how that map, the live count, and the capacity change.

use vstd::prelude::*;
use crate::engine::{Table, byte_valid, is_pow2, is_occupied_byte, lemma_is_pow2_16};
use crate::engine::{CAP_LIMIT, EMPTY_ENTRY, INITIAL_SIZE, MAX_ENTRIES, TOMBSTONE_ENTRY};
use crate::hashable::Hashable;

verus! {

/// A flat hash map: open addressing over one control byte per slot, linear
/// probing, tombstone deletion, and load-factor-driven resizing.
pub struct AFHM<K, V> {
    table: Table<K, V>,
}

impl<K: Hashable + Copy, V: Copy> View for AFHM<K, V> {
    type V = Map<K, V>;

    closed spec fn view(&self) -> Map<K, V> {
        self.table.as_map()
    }
}

impl<K: Hashable + Copy, V: Copy> AFHM<K, V> {
    pub closed spec fn wf(self) -> bool {
        self.table.wf()
    }

    pub closed spec fn spec_size(self) -> nat {
        self.table.spec_size()
    }

    pub closed spec fn spec_cap(self) -> nat {
        self.table.cap()
    }

    pub closed spec fn spec_meta(self) -> Seq<u8> {
        self.table.spec_meta()
    }

    /// The slot a present key occupies; meaningful only under membership.
    pub closed spec fn spec_loc(self, k: K) -> usize {
        self.table.spec_loc(k)
    }

    /// The load-factor bounds the resize manager maintains for a table that
    /// started at the floor capacity.
    pub open spec fn load_factor_ok(self) -> bool {
        &&& 8 * self.spec_size() <= 7 * self.spec_cap()
        &&& (self.spec_cap() == 16 || 16 * self.spec_size() >= 7 * self.spec_cap())
    }

    /// The key set of the view matches the engine's notion of membership.
    proof fn lemma_view_dom(self)
        ensures
            forall|k: K| #[trigger] self@.contains_key(k) <==> self.table.contains_key(k),
    {
        self.table.lemma_as_map_dom();
    }

    /// What well-formedness guarantees about the table's shape: the control
    /// array matches the capacity, the capacity is a power of two between
    /// the floor and the limit, the live count respects the growth bound,
    /// and every control byte is EMPTY, TOMBSTONE, or an occupied marker.
    pub proof fn lemma_wf_facts(self)
        requires
            self.wf(),
        ensures
            self.spec_meta().len() == self.spec_cap(),
            16 <= self.spec_cap() <= CAP_LIMIT,
            is_pow2(self.spec_cap()),
            8 * self.spec_size() <= 7 * self.spec_cap(),
            forall|i: int| 0 <= i < self.spec_cap() ==> byte_valid(#[trigger] self.spec_meta()[i]),
    {
        self.table.lemma_wf_facts();
    }

    pub fn new() -> (t: Self)
        ensures
            t.wf(),
            t@ == Map::<K, V>::empty(),
            t.spec_size() == 0,
            t.spec_cap() == 16,
            t.load_factor_ok(),
            forall|i: int| 0 <= i < 16 ==> t.spec_meta()[i] == EMPTY_ENTRY,
    {
        proof {
            lemma_is_pow2_16();
        }
        AFHM::with_capacity(INITIAL_SIZE)
    }

    /// Construct an empty map at an explicit capacity, which must be a power
    /// of two between the floor of 16 and the capacity limit.
    pub fn with_capacity(size: usize) -> (t: Self)
        requires
            16 <= size <= CAP_LIMIT,
            is_pow2(size as nat),
        ensures
            t.wf(),
            t@ == Map::<K, V>::empty(),
            t.spec_size() == 0,
            t.spec_cap() == size,
            forall|i: int| 0 <= i < size ==> t.spec_meta()[i] == EMPTY_ENTRY,
    {
        AFHM { table: Table::with_capacity(size) }
    }

    /// Fetch the value stored under the key, if any.
    pub fn get(&self, k: K) -> (r: Option<V>)
        requires
            self.wf(),
        ensures
            r == if self@.contains_key(k) {
                Some(self@[k])
            } else {
                None::<V>
            },
    {
        proof {
            self.lemma_view_dom();
        }
        self.table.get(&k)
    }

    /// Update in place: change the stored value only if the key is present;
    /// a miss is a no-op (unlike `insert`, this never adds an entry).
    pub fn set(&mut self, k: K, v: V)
        requires
            old(self).wf(),
        ensures
            final(self).wf(),
            final(self).spec_size() == old(self).spec_size(),
            final(self).spec_cap() == old(self).spec_cap(),
            final(self)@ == if old(self)@.contains_key(k) {
                old(self)@.insert(k, v)
            } else {
                old(self)@
            },
    {
        proof {
            old(self).lemma_view_dom();
        }
        self.table.set(k, v);
    }

    /// Upsert: store the value under the key, adding the entry if absent and
    /// overwriting it if present; grows the table first when the new entry
    /// would push the load factor past 7/8.
    pub fn insert(&mut self, k: K, v: V)
        requires
            old(self).wf(),
            old(self).spec_size() < MAX_ENTRIES,
        ensures
            final(self).wf(),
            final(self)@ == old(self)@.insert(k, v),
            final(self).spec_size() == old(self).spec_size() + (if old(self)@.contains_key(k) {
                0int
            } else {
                1int
            }),
            final(self).spec_cap() == if 8 * (old(self).spec_size() + 1) > 7 * old(
                self,
            ).spec_cap() {
                2 * old(self).spec_cap()
            } else {
                old(self).spec_cap()
            },
            old(self).load_factor_ok() ==> final(self).load_factor_ok(),
    {
        proof {
            old(self).lemma_view_dom();
        }
        self.table.insert(k, v);
    }

    /// Remove the key's entry if present, else do nothing; shrinks the table
    /// afterwards when the load factor fell below 7/16 and the capacity is
    /// above the floor.
    pub fn erase(&mut self, k: K)
        requires
            old(self).wf(),
        ensures
            final(self).wf(),
            final(self)@ == old(self)@.remove(k),
            final(self).spec_size() == old(self).spec_size() - (if old(self)@.contains_key(k) {
                1int
            } else {
                0int
            }),
            final(self).spec_cap() == if old(self)@.contains_key(k) && 16 * (old(self).spec_size()
                - 1) < 7 * old(self).spec_cap() && old(self).spec_cap() != 16 {
                old(self).spec_cap() / 2
            } else {
                old(self).spec_cap()
            },
            old(self).load_factor_ok() ==> final(self).load_factor_ok(),
            old(self)@.contains_key(k) && final(self).spec_cap() == old(self).spec_cap()
                ==> final(self).spec_meta()[old(self).spec_loc(k) as int] == TOMBSTONE_ENTRY,
    {
        proof {
            old(self).lemma_view_dom();
            old(self).table.lemma_spec_loc_bounds(k);
        }
        self.table.erase(k);
    }

    pub fn size(&self) -> (r: usize)
        ensures
            r == self.spec_size(),
    {
        self.table.size()
    }

    pub fn capacity(&self) -> (r: usize)
        ensures
            r == self.spec_cap(),
    {
        self.table.capacity()
    }

    /// Slot `ind` holds a live entry.
    pub fn is_full(&self, ind: usize) -> (r: bool)
        requires
            ind < self.spec_cap(),
        ensures
            r == is_occupied_byte(self.spec_meta()[ind as int]),
    {
        self.table.is_full(ind)
    }

    /// Slot `ind` has never held an entry.
    pub fn is_empty(&self, ind: usize) -> (r: bool)
        requires
            ind < self.spec_cap(),
        ensures
            r == (self.spec_meta()[ind as int] == EMPTY_ENTRY),
    {
        self.table.is_empty(ind)
    }

    /// Slot `ind` holds a tombstone.
    pub fn is_deleted(&self, ind: usize) -> (r: bool)
        requires
            ind < self.spec_cap(),
        ensures
            r == (self.spec_meta()[ind as int] == TOMBSTONE_ENTRY),
    {
        self.table.is_deleted(ind)
    }
}

} // verus!
