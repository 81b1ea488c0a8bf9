//! The set adapter: the same engine with a unit payload, viewing as a
//! `Set<K>`. It exposes both lookup paths side by side, each returning the
//! same slot for the same key.

use vstd::prelude::*;
use crate::engine::{Table, byte_valid, is_pow2, is_occupied_byte, lemma_is_pow2_16};
use crate::engine::{CAP_LIMIT, EMPTY_ENTRY, INITIAL_SIZE, MAX_ENTRIES, SIMD_SIZE, TOMBSTONE_ENTRY};
use crate::hashable::Hashable;

verus! {

/// A flat hash set: open addressing over one control byte per slot, linear
/// probing, tombstone deletion, and load-factor-driven resizing.
pub struct AFHS<K> {
    table: Table<K, ()>,
}

impl<K: Hashable + Copy> View for AFHS<K> {
    type V = Set<K>;

    closed spec fn view(&self) -> Set<K> {
        self.table.as_map().dom()
    }
}

impl<K: Hashable + Copy> AFHS<K> {
    pub closed spec fn wf(self) -> bool {
        self.table.wf()
    }

    pub closed spec fn spec_size(self) -> nat {
        self.table.spec_size()
    }

    pub closed spec fn spec_cap(self) -> nat {
        self.table.cap()
    }

    pub closed spec fn spec_meta(self) -> Seq<u8> {
        self.table.spec_meta()
    }

    /// What a lookup on either path reports: the key's unique slot, or
    /// `usize::MAX` when the key is absent.
    pub closed spec fn spec_loc(self, k: K) -> usize {
        self.table.spec_loc(k)
    }

    /// The load-factor bounds the resize manager maintains for a table that
    /// started at the floor capacity.
    pub open spec fn load_factor_ok(self) -> bool {
        &&& 8 * self.spec_size() <= 7 * self.spec_cap()
        &&& (self.spec_cap() == 16 || 16 * self.spec_size() >= 7 * self.spec_cap())
    }

    /// Membership in the view matches the engine's notion of membership.
    proof fn lemma_view_dom(self)
        ensures
            forall|k: K| #[trigger] self@.contains(k) <==> self.table.contains_key(k),
    {
        self.table.lemma_as_map_dom();
    }

    /// What well-formedness guarantees about the table's shape: the control
    /// array matches the capacity, the capacity is a power of two between
    /// the floor and the limit, the live count respects the growth bound,
    /// and every control byte is EMPTY, TOMBSTONE, or an occupied marker.
    pub proof fn lemma_wf_facts(self)
        requires
            self.wf(),
        ensures
            self.spec_meta().len() == self.spec_cap(),
            16 <= self.spec_cap() <= CAP_LIMIT,
            is_pow2(self.spec_cap()),
            8 * self.spec_size() <= 7 * self.spec_cap(),
            forall|i: int| 0 <= i < self.spec_cap() ==> byte_valid(#[trigger] self.spec_meta()[i]),
    {
        self.table.lemma_wf_facts();
    }

    pub fn new() -> (t: Self)
        ensures
            t.wf(),
            t@ == Set::<K>::empty(),
            t.spec_size() == 0,
            t.spec_cap() == 16,
            t.load_factor_ok(),
            forall|i: int| 0 <= i < 16 ==> t.spec_meta()[i] == EMPTY_ENTRY,
    {
        proof {
            lemma_is_pow2_16();
        }
        AFHS::with_capacity(INITIAL_SIZE)
    }

    /// Construct an empty set at an explicit capacity, which must be a power
    /// of two between the floor of 16 and the capacity limit.
    pub fn with_capacity(size: usize) -> (t: Self)
        requires
            16 <= size <= CAP_LIMIT,
            is_pow2(size as nat),
        ensures
            t.wf(),
            t@ == Set::<K>::empty(),
            t.spec_size() == 0,
            t.spec_cap() == size,
            forall|i: int| 0 <= i < size ==> t.spec_meta()[i] == EMPTY_ENTRY,
    {
        let t = AFHS { table: Table::with_capacity(size) };
        proof {
            assert(t@ =~= Set::<K>::empty());
        }
        t
    }

    /// Membership test.
    pub fn has(&self, k: K) -> (r: bool)
        requires
            self.wf(),
        ensures
            r == self@.contains(k),
    {
        proof {
            self.lemma_view_dom();
        }
        self.get_loc(k) != usize::MAX
    }

    /// Add the key; a key already present stays present and the size does not
    /// change. Grows the table first when a new entry would push the load
    /// factor past 7/8.
    pub fn add(&mut self, k: K)
        requires
            old(self).wf(),
            old(self).spec_size() < MAX_ENTRIES,
        ensures
            final(self).wf(),
            final(self)@ == old(self)@.insert(k),
            final(self).spec_size() == old(self).spec_size() + (if old(self)@.contains(k) {
                0int
            } else {
                1int
            }),
            final(self).spec_cap() == if 8 * (old(self).spec_size() + 1) > 7 * old(
                self,
            ).spec_cap() {
                2 * old(self).spec_cap()
            } else {
                old(self).spec_cap()
            },
            old(self).load_factor_ok() ==> final(self).load_factor_ok(),
    {
        proof {
            old(self).lemma_view_dom();
        }
        self.table.insert(k, ());
        proof {
            assert(self@ =~= old(self)@.insert(k));
        }
    }

    /// Remove the key if present, else do nothing; shrinks the table
    /// afterwards when the load factor fell below 7/16 and the capacity is
    /// above the floor.
    pub fn remove(&mut self, k: K)
        requires
            old(self).wf(),
        ensures
            final(self).wf(),
            final(self)@ == old(self)@.remove(k),
            final(self).spec_size() == old(self).spec_size() - (if old(self)@.contains(k) {
                1int
            } else {
                0int
            }),
            final(self).spec_cap() == if old(self)@.contains(k) && 16 * (old(self).spec_size() - 1)
                < 7 * old(self).spec_cap() && old(self).spec_cap() != 16 {
                old(self).spec_cap() / 2
            } else {
                old(self).spec_cap()
            },
            old(self).load_factor_ok() ==> final(self).load_factor_ok(),
            old(self)@.contains(k) && final(self).spec_cap() == old(self).spec_cap()
                ==> final(self).spec_meta()[old(self).spec_loc(k) as int] == TOMBSTONE_ENTRY,
    {
        proof {
            old(self).lemma_view_dom();
            old(self).table.lemma_spec_loc_bounds(k);
        }
        self.table.erase(k);
        proof {
            assert(self@ =~= old(self)@.remove(k));
        }
    }

    /// Scalar lookup: the key's slot, or `usize::MAX` when absent.
    pub fn get_loc(&self, k: K) -> (r: usize)
        requires
            self.wf(),
        ensures
            r == self.spec_loc(k),
            (r == usize::MAX) <==> !self@.contains(k),
            r != usize::MAX ==> r < self.spec_cap(),
    {
        proof {
            self.lemma_view_dom();
            self.table.lemma_spec_loc_bounds(k);
        }
        self.table.get_loc(&k)
    }

    /// Window-matcher lookup: returns exactly what `get_loc` returns on
    /// every table state and every key.
    pub fn get_loc_simd(&self, k: K) -> (r: usize)
        requires
            self.wf(),
        ensures
            r == self.spec_loc(k),
            (r == usize::MAX) <==> !self@.contains(k),
            r != usize::MAX ==> r < self.spec_cap(),
    {
        proof {
            self.lemma_view_dom();
            self.table.lemma_spec_loc_bounds(k);
        }
        self.table.get_loc_simd(&k)
    }

    /// The key stored in slot `ind`, if the slot is occupied.
    pub fn key_at(&self, ind: usize) -> (r: Option<K>)
        requires
            self.wf(),
            ind < self.spec_cap(),
        ensures
            r is Some <==> is_occupied_byte(self.spec_meta()[ind as int]),
            r is Some ==> self@.contains(r->0) && self.spec_loc(r->0) == ind,
    {
        proof {
            self.lemma_view_dom();
        }
        self.table.stored_key(ind)
    }

    pub fn size(&self) -> (r: usize)
        ensures
            r == self.spec_size(),
    {
        self.table.size()
    }

    pub fn capacity(&self) -> (r: usize)
        ensures
            r == self.spec_cap(),
    {
        self.table.capacity()
    }

    /// How many full matcher windows the control array spans.
    pub fn num_chunks(&self) -> (r: usize)
        ensures
            r == self.spec_cap() / (SIMD_SIZE as nat),
    {
        self.table.capacity() / SIMD_SIZE
    }

    /// Slot `ind` holds a live entry.
    pub fn is_full(&self, ind: usize) -> (r: bool)
        requires
            ind < self.spec_cap(),
        ensures
            r == is_occupied_byte(self.spec_meta()[ind as int]),
    {
        self.table.is_full(ind)
    }

    /// Slot `ind` has never held an entry.
    pub fn is_empty(&self, ind: usize) -> (r: bool)
        requires
            ind < self.spec_cap(),
        ensures
            r == (self.spec_meta()[ind as int] == EMPTY_ENTRY),
    {
        self.table.is_empty(ind)
    }

    /// Slot `ind` holds a tombstone.
    pub fn is_deleted(&self, ind: usize) -> (r: bool)
        requires
            ind < self.spec_cap(),
        ensures
            r == (self.spec_meta()[ind as int] == TOMBSTONE_ENTRY),
    {
        self.table.is_deleted(ind)
    }
}

} // verus!
