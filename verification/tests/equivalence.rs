use swisstable::{AFHM, AFHM_SIMD, AFHS};

#[test]
fn scalar_and_window_lookup_agree_on_a_fresh_set() {
    let s: AFHS<i32> = AFHS::new();
    for k in -5..70 {
        assert_eq!(s.get_loc(k), s.get_loc_simd(k));
        assert_eq!(s.get_loc(k), usize::MAX);
    }
}

#[test]
fn scalar_and_window_lookup_agree_under_collisions_and_tombstones() {
    // i32 keys k hash to (k << 7): at capacity 16 keys congruent mod 16
    // collide into one bucket, and every key carries fragment 0, so the
    // window matcher sees plenty of false-positive lanes to filter.
    let mut s: AFHS<i32> = AFHS::new();
    for k in [0, 16, 32, 48, 1, 17, 33, 5, 21] {
        s.add(k);
    }
    for k in [16, 33, 5] {
        s.remove(k);
    }
    for k in -10..80 {
        let scalar = s.get_loc(k);
        let window = s.get_loc_simd(k);
        assert_eq!(scalar, window);
        assert_eq!(scalar != usize::MAX, s.has(k));
    }
}

#[test]
fn scalar_and_window_lookup_agree_across_resizes() {
    let mut s: AFHS<i32> = AFHS::new();
    for k in 0..200 {
        s.add(k);
        assert_eq!(s.get_loc(k), s.get_loc_simd(k));
    }
    for k in 0..150 {
        s.remove(k);
    }
    for k in 0..220 {
        assert_eq!(s.get_loc(k), s.get_loc_simd(k));
        assert_eq!(s.has(k), (150..200).contains(&k));
    }
}

#[test]
fn window_map_mirrors_scalar_map() {
    // Drive the scalar-lookup map and the window-lookup map through the same
    // workload; every observation must match.
    let mut a: AFHM<u32, u32> = AFHM::new();
    let mut b: AFHM_SIMD<u32, u32> = AFHM_SIMD::with_capacity(16);
    for k in 0..100 {
        a.insert(k, 7 * k);
        b.insert(k, 7 * k);
    }
    for k in (0..100).step_by(3) {
        a.erase(k);
        b.erase(k);
    }
    a.set(4, 1000);
    b.set(4, 1000);
    assert_eq!(a.size(), b.size());
    assert_eq!(a.capacity(), b.capacity());
    for k in 0..120 {
        assert_eq!(a.get(k), b.get(k));
    }
}

#[test]
fn window_map_basic_crud() {
    let mut m: AFHM_SIMD<i32, i32> = AFHM_SIMD::new();
    assert_eq!(m.capacity(), 64);
    // One matcher window of 64 control bytes covers the whole fresh table.
    assert_eq!(m.num_chunks(), 1);
    m.insert(3, 33);
    m.insert(19, 190);
    assert_eq!(m.get(3), Some(33));
    assert_eq!(m.get(19), Some(190));
    assert_eq!(m.get(4), None);
    m.set(3, 34);
    assert_eq!(m.get(3), Some(34));
    m.erase(3);
    assert_eq!(m.get(3), None);
    assert_eq!(m.size(), 1);
}

#[test]
fn window_map_slot_predicates() {
    let mut m: AFHM_SIMD<i32, i32> = AFHM_SIMD::new();
    assert!(m.is_empty(0));
    m.insert(0, 1);
    assert!(m.is_full(0));
    // Erasing the only entry of a capacity-64 table drops the load factor
    // below the shrink threshold: the table halves, and the rehash into the
    // fresh table discards the tombstone.
    m.erase(0);
    assert_eq!(m.capacity(), 32);
    assert!(m.is_empty(0));
    assert!(!m.is_deleted(0));
    // At the floor capacity no shrink fires, so the tombstone stays visible.
    let mut f: AFHM_SIMD<i32, i32> = AFHM_SIMD::with_capacity(16);
    f.insert(0, 1);
    f.erase(0);
    assert_eq!(f.capacity(), 16);
    assert!(f.is_deleted(0));
}

#[test]
fn set_lookup_reports_the_keys_own_slot() {
    let mut s: AFHS<i32> = AFHS::new();
    s.add(0);
    s.add(16);
    // Key 0 sits in its bucket; key 16 collided and probed one step on.
    assert_eq!(s.get_loc(0), 0);
    assert_eq!(s.get_loc(16), 1);
    assert_eq!(s.get_loc_simd(0), 0);
    assert_eq!(s.get_loc_simd(16), 1);
    assert_eq!(s.key_at(0), Some(0));
    assert_eq!(s.key_at(1), Some(16));
    assert_eq!(s.key_at(2), None);
    assert_eq!(s.num_chunks(), 0);
}
