use swisstable::AFHM;
use swisstable::Hashable;

#[test]
fn get_on_empty_map_misses() {
    let m: AFHM<u32, u32> = AFHM::new();
    assert_eq!(m.size(), 0);
    assert_eq!(m.capacity(), 16);
    assert_eq!(m.get(0), None);
    assert_eq!(m.get(12345), None);
}

#[test]
fn insert_then_get_round_trip() {
    let mut m: AFHM<u32, u32> = AFHM::new();
    m.insert(7, 70);
    assert_eq!(m.get(7), Some(70));
    m.erase(7);
    assert_eq!(m.get(7), None);
    m.insert(7, 71);
    assert_eq!(m.get(7), Some(71));
}

#[test]
fn insert_is_idempotent() {
    let mut m: AFHM<u32, u32> = AFHM::new();
    m.insert(3, 30);
    let size_once = m.size();
    m.insert(3, 30);
    assert_eq!(m.size(), size_once);
    assert_eq!(m.get(3), Some(30));
    m.insert(3, 30);
    m.insert(3, 30);
    assert_eq!(m.size(), size_once);
    assert_eq!(m.get(3), Some(30));
}

#[test]
fn insert_overwrites_existing_value() {
    let mut m: AFHM<u32, u32> = AFHM::new();
    m.insert(5, 50);
    m.insert(5, 55);
    assert_eq!(m.get(5), Some(55));
    assert_eq!(m.size(), 1);
}

#[test]
fn set_updates_only_present_keys() {
    let mut m: AFHM<u32, u32> = AFHM::new();
    m.set(9, 90);
    assert_eq!(m.get(9), None);
    assert_eq!(m.size(), 0);
    m.insert(9, 90);
    m.set(9, 99);
    assert_eq!(m.get(9), Some(99));
    assert_eq!(m.size(), 1);
}

#[test]
fn erase_of_absent_key_is_noop() {
    let mut m: AFHM<u32, u32> = AFHM::new();
    m.insert(1, 10);
    m.erase(2);
    assert_eq!(m.size(), 1);
    assert_eq!(m.get(1), Some(10));
    assert_eq!(m.capacity(), 16);
}

#[test]
fn colliding_keys_coexist() {
    // u32 keys hash to themselves; keys below 128 share bucket 0, so these
    // three probe through each other.
    let mut m: AFHM<u32, u32> = AFHM::new();
    m.insert(1, 100);
    m.insert(2, 200);
    m.insert(3, 300);
    assert_eq!(m.get(1), Some(100));
    assert_eq!(m.get(2), Some(200));
    assert_eq!(m.get(3), Some(300));
    assert_eq!(m.size(), 3);
}

#[test]
fn lookup_probes_through_tombstones() {
    // i32 keys hash to (key << 7), so keys 0, 16 and 32 share bucket 0 at
    // capacity 16 and form one probe chain. Erasing the middle entry must
    // leave the later one reachable.
    let mut m: AFHM<i32, i32> = AFHM::new();
    m.insert(0, 1);
    m.insert(16, 2);
    m.insert(32, 3);
    m.erase(16);
    assert_eq!(m.get(0), Some(1));
    assert_eq!(m.get(16), None);
    assert_eq!(m.get(32), Some(3));
    // The erased slot is reused on re-insert, in the same probe order.
    m.insert(16, 4);
    assert_eq!(m.get(16), Some(4));
    assert_eq!(m.get(32), Some(3));
    assert_eq!(m.size(), 3);
}

#[test]
fn erase_then_reinsert_does_not_duplicate() {
    // Re-inserting a key whose probe path crosses a tombstone must not
    // create a second live slot for it.
    let mut m: AFHM<i32, i32> = AFHM::new();
    m.insert(0, 1);
    m.insert(16, 2);
    m.erase(0);
    m.insert(16, 5);
    assert_eq!(m.size(), 1);
    assert_eq!(m.get(16), Some(5));
    m.insert(16, 6);
    assert_eq!(m.size(), 1);
    assert_eq!(m.get(16), Some(6));
}

#[test]
fn with_capacity_starts_at_given_power_of_two() {
    let m: AFHM<u32, u32> = AFHM::with_capacity(64);
    assert_eq!(m.capacity(), 64);
    assert_eq!(m.size(), 0);
}

#[test]
fn slot_predicates_track_lifecycle() {
    let mut m: AFHM<i32, i32> = AFHM::new();
    for i in 0..16 {
        assert!(m.is_empty(i));
        assert!(!m.is_full(i));
        assert!(!m.is_deleted(i));
    }
    // i32 key 0 hashes to 0: bucket 0, fragment 0.
    m.insert(0, 42);
    assert!(m.is_full(0));
    assert!(!m.is_empty(0));
    m.erase(0);
    assert!(m.is_deleted(0));
    assert!(!m.is_full(0));
    assert!(!m.is_empty(0));
}

#[test]
fn hash_impls_are_as_documented() {
    assert_eq!(5u32.hash(), 5);
    assert_eq!(123456789u64.hash(), 123456789);
    assert_eq!((-1i64).hash(), u64::MAX);
    assert_eq!(3i32.hash(), 3 << 7);
    assert!(7u32.key_eq(&7));
    assert!(!7u32.key_eq(&8));
    assert!((-9i64).key_eq(&-9));
}

#[test]
fn many_key_types_work() {
    let mut a: AFHM<u64, u8> = AFHM::new();
    a.insert(u64::MAX, 1);
    assert_eq!(a.get(u64::MAX), Some(1));
    let mut b: AFHM<i64, bool> = AFHM::new();
    b.insert(-5, true);
    assert_eq!(b.get(-5), Some(true));
    assert_eq!(b.get(5), None);
    let mut c: AFHM<i32, i32> = AFHM::new();
    c.insert(-3, -30);
    assert_eq!(c.get(-3), Some(-30));
}
