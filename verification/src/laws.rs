//! Laws of the container, stated over the map view that every operation's
//! contract is written in. Each operation ensures exactly how the view
//! changes (`insert`, `remove`, or unchanged), so these lemmas about views
//! carry over to any sequence of calls.

use vstd::prelude::*;

verus! {

/// Round trip: after an insert the key is present with its value; after an
/// erase it is absent; re-inserting after an erase recovers retrieval.
pub proof fn lemma_round_trip<K, V>(m: Map<K, V>, k: K, v: V)
    ensures
        m.insert(k, v).contains_key(k),
        m.insert(k, v)[k] == v,
        !m.insert(k, v).remove(k).contains_key(k),
        m.insert(k, v).remove(k).insert(k, v).contains_key(k),
        m.insert(k, v).remove(k).insert(k, v)[k] == v,
{
}

/// Idempotence: after the first insert the key is present — so a repeated
/// insert leaves the live count unchanged, by `insert`'s size clause — and
/// the repeated insert leaves the view itself unchanged, so the stored value
/// stays `v`.
pub proof fn lemma_insert_repeat<K, V>(m: Map<K, V>, k: K, v: V)
    ensures
        m.insert(k, v).contains_key(k),
        m.insert(k, v).insert(k, v) == m.insert(k, v),
{
    assert(m.insert(k, v).insert(k, v) =~= m.insert(k, v));
}

/// The most recently stored value wins and survives operations on other
/// keys: a later insert or erase of a different key does not disturb a
/// key's entry, and an insert of the same key overwrites it.
pub proof fn lemma_latest_value_wins<K, V>(m: Map<K, V>, k: K, v: V, k2: K, v2: V)
    ensures
        m.insert(k, v)[k] == v,
        k2 != k ==> m.insert(k, v).insert(k2, v2).contains_key(k) && m.insert(k, v).insert(
            k2,
            v2,
        )[k] == v,
        k2 != k ==> m.insert(k, v).remove(k2).contains_key(k) && m.insert(k, v).remove(k2)[k] == v,
{
}

} // verus!
