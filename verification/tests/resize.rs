use swisstable::{AFHM, AFHS};

/// The load-factor invariant a table keeps once it starts at the floor
/// capacity: at most 7/8 full, and at least 7/16 full unless at the floor.
fn load_factor_in_bounds(size: usize, capacity: usize) -> bool {
    8 * size <= 7 * capacity && (capacity == 16 || 16 * size >= 7 * capacity)
}

#[test]
fn growth_triggers_exactly_at_the_threshold() {
    let mut m: AFHM<u32, u32> = AFHM::new();
    // 14 entries fit in capacity 16 (load 7/8); the 15th would push the load
    // past 7/8, so that insert doubles the capacity first.
    for k in 0..14 {
        m.insert(k, k);
        assert_eq!(m.capacity(), 16);
    }
    m.insert(14, 14);
    assert_eq!(m.capacity(), 32);
    assert_eq!(m.size(), 15);
    for k in 0..15 {
        assert_eq!(m.get(k), Some(k));
    }
}

#[test]
fn shrink_triggers_exactly_at_the_threshold() {
    let mut m: AFHM<u32, u32> = AFHM::new();
    for k in 0..15 {
        m.insert(k, k);
    }
    assert_eq!(m.capacity(), 32);
    // Erasing down to 14 keeps the load at 7/16; one more erase drops it
    // below and halves the capacity back to the floor.
    m.erase(14);
    assert_eq!(m.capacity(), 32);
    m.erase(13);
    assert_eq!(m.capacity(), 16);
    assert_eq!(m.size(), 13);
}

#[test]
fn capacity_never_drops_below_the_floor() {
    let mut m: AFHM<u32, u32> = AFHM::new();
    for k in 0..10 {
        m.insert(k, k);
    }
    for k in 0..10 {
        m.erase(k);
    }
    assert_eq!(m.capacity(), 16);
    assert_eq!(m.size(), 0);
}

#[test]
fn load_factor_invariant_holds_after_every_mutation() {
    let mut m: AFHM<u32, u32> = AFHM::new();
    assert!(load_factor_in_bounds(m.size(), m.capacity()));
    for k in 0..200 {
        m.insert(k, 2 * k);
        assert!(load_factor_in_bounds(m.size(), m.capacity()));
    }
    for k in 0..200 {
        m.erase(k);
        assert!(load_factor_in_bounds(m.size(), m.capacity()));
    }
}

#[test]
fn thousand_inserts_then_nine_hundred_erases() {
    let mut m: AFHM<u32, u32> = AFHM::new();
    for k in 0..1000 {
        m.insert(k, k + 1);
    }
    assert_eq!(m.size(), 1000);
    // Doubling from 16 at each 7/8 crossing lands at 2048 for 1000 entries.
    assert_eq!(m.capacity(), 2048);
    for k in 100..1000 {
        m.erase(k);
    }
    assert_eq!(m.size(), 100);
    // Halving at each 7/16 crossing lands at 128 for 100 entries.
    assert_eq!(m.capacity(), 128);
    assert!(load_factor_in_bounds(m.size(), m.capacity()));
    for k in 0..100 {
        assert_eq!(m.get(k), Some(k + 1));
    }
    for k in 100..1000 {
        assert_eq!(m.get(k), None);
    }
}

#[test]
fn set_grows_once_and_keeps_all_twenty_keys() {
    // The scripted scenario: a fresh set at capacity 16 takes keys 0..20,
    // growing once to 32 on the way; removing 4..14 leaves exactly the rest.
    let mut s: AFHS<i32> = AFHS::new();
    assert_eq!(s.capacity(), 16);
    let mut grew_to_32 = false;
    for k in 0..20 {
        s.add(k);
        if s.capacity() == 32 {
            grew_to_32 = true;
        }
    }
    assert!(grew_to_32);
    assert_eq!(s.capacity(), 32);
    assert_eq!(s.size(), 20);
    for k in 0..20 {
        assert!(s.has(k));
    }
    for k in 4..14 {
        s.remove(k);
    }
    assert_eq!(s.size(), 10);
    for k in 0..4 {
        assert!(s.has(k));
    }
    for k in 4..14 {
        assert!(!s.has(k));
    }
    for k in 14..20 {
        assert!(s.has(k));
    }
    assert!(load_factor_in_bounds(s.size(), s.capacity()));
}

#[test]
fn rehash_discards_every_tombstone() {
    // Fill past the growth threshold after leaving tombstones behind: the
    // triggered rehash must clear every tombstone.
    let mut m: AFHM<u32, u32> = AFHM::new();
    for k in 0..10 {
        m.insert(k, k);
    }
    for k in 0..3 {
        m.erase(k);
    }
    let mut saw_tombstone = false;
    for i in 0..m.capacity() {
        if m.is_deleted(i) {
            saw_tombstone = true;
        }
    }
    assert!(saw_tombstone);
    for k in 10..20 {
        m.insert(k, k);
    }
    assert_eq!(m.capacity(), 32);
    for i in 0..m.capacity() {
        assert!(!m.is_deleted(i));
    }
}

#[test]
fn fresh_tables_have_only_empty_slots() {
    let m: AFHM<u32, u32> = AFHM::with_capacity(64);
    for i in 0..m.capacity() {
        assert!(m.is_empty(i));
        assert!(!m.is_full(i));
        assert!(!m.is_deleted(i));
    }
}

#[test]
fn set_with_capacity_starts_where_asked() {
    let s: AFHS<i32> = AFHS::with_capacity(128);
    assert_eq!(s.capacity(), 128);
    assert_eq!(s.size(), 0);
    assert_eq!(s.num_chunks(), 2);
    assert!(!s.has(0));
}

#[test]
fn mixed_sequence_keeps_every_live_key_current() {
    // An interleaved insert/erase workload: after every call, each live key
    // must report its most recently stored value.
    let mut m: AFHM<u32, u32> = AFHM::new();
    let mut model: Vec<Option<u32>> = vec![None; 60];
    let mut step: u32 = 0;
    for round in 0..5u32 {
        for k in 0..60u32 {
            step = step.wrapping_mul(1103515245).wrapping_add(12345 + round);
            if step % 3 == 0 {
                m.erase(k);
                model[k as usize] = None;
            } else {
                m.insert(k, step);
                model[k as usize] = Some(step);
            }
            for q in 0..60u32 {
                assert_eq!(m.get(q), model[q as usize]);
            }
        }
    }
}
