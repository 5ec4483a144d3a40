use clockpro_cache::shard::{ResidentState, VersionedCacheShard};
use clockpro_cache::{UnitWeighter, Weighter};

fn h(key: u64, version: u64) -> u64 {
    key.wrapping_mul(0x9E37_79B9_7F4A_7C15) ^ version.wrapping_mul(0xC2B2_AE3D_27D4_EB4F)
}

type Shard = VersionedCacheShard<u64, u64, u64, UnitWeighter, ()>;

fn unit(capacity: u64) -> Shard {
    VersionedCacheShard::new(capacity, UnitWeighter, ())
}

#[derive(Clone)]
struct ValueWeighter;

impl Weighter<u64, u64, u64> for ValueWeighter {
    fn spec_weight(&self, _key: &u64, _version: &u64, val: &u64) -> u32 {
        *val as u32
    }

    fn weight(&self, _key: &u64, _version: &u64, val: &u64) -> u32 {
        *val as u32
    }
}

fn weighted(capacity: u64) -> VersionedCacheShard<u64, u64, u64, ValueWeighter, ()> {
    VersionedCacheShard::new(capacity, ValueWeighter, ())
}

#[test]
fn new_coerces_capacity() {
    assert_eq!(unit(0).capacity(), 2);
    assert_eq!(unit(1).capacity(), 2);
    assert_eq!(unit(3).capacity(), 3);
    assert_eq!(unit(u64::MAX).capacity(), u64::MAX);
    let s = unit(3);
    assert_eq!(s.len(), 0);
    assert_eq!(s.weight(), 0);
    assert_eq!(s.hits(), 0);
    assert_eq!(s.misses(), 0);
}

#[test]
fn insert_then_get_round_trip() {
    let mut s = unit(5);
    assert!(s.insert(h(1, 2022), 1, 2022, 10).is_none());
    assert!(s.insert(h(1, 2023), 1, 2023, 11).is_none());
    assert_eq!(s.get(h(1, 2022), &1, &2022), Some(&10));
    assert_eq!(s.get(h(1, 2023), &1, &2023), Some(&11));
    assert_eq!(s.get(h(1, 2024), &1, &2024), None);
    assert_eq!(s.len(), 2);
}

#[test]
fn hits_and_misses_count_every_get() {
    let mut s = unit(5);
    s.insert(h(1, 0), 1, 0, 1);
    s.get(h(1, 0), &1, &0);
    s.get(h(2, 0), &2, &0);
    s.get(h(1, 0), &1, &0);
    s.peek(h(1, 0), &1, &0);
    assert_eq!(s.hits(), 2);
    assert_eq!(s.misses(), 1);
    assert_eq!(s.hits() + s.misses(), 3);
}

#[test]
fn scan_resistance_keeps_hot_entry() {
    let mut s = unit(3);
    for k in [1u64, 2, 3] {
        s.insert(h(k, 0), k, 0, k * 10);
    }
    for _ in 0..3 {
        assert_eq!(s.get(h(1, 0), &1, &0), Some(&10));
    }
    s.insert(h(4, 0), 4, 0, 40);
    s.insert(h(5, 0), 5, 0, 50);
    assert_eq!(s.get(h(1, 0), &1, &0), Some(&10));
    let b = s.peek(h(2, 0), &2, &0).is_some();
    let c = s.peek(h(3, 0), &3, &0).is_some();
    assert!(!(b && c));
    assert!(s.weight() <= 3);
}

#[test]
fn eviction_returns_displaced_resident() {
    let mut s = unit(2);
    assert!(s.insert(h(1, 0), 1, 0, 10).is_none());
    assert!(s.insert(h(2, 0), 2, 0, 20).is_none());
    let evicted = s.insert(h(3, 0), 3, 0, 30).expect("an entry is evicted");
    assert_eq!(*evicted.key(), 2);
    assert_eq!(*evicted.value(), 20);
    assert_eq!(s.len(), 2);
    assert!(s.weight() <= 2);
    assert_eq!(s.peek(h(3, 0), &3, &0), Some(&30));
}

#[test]
fn evicted_entry_can_be_inserted_again() {
    let mut s = unit(200);
    for k in 0..200u64 {
        s.insert(h(k, 0), k, 0, k);
    }
    // Fill beyond capacity, so that cold entries are evicted.
    for k in 200..260u64 {
        s.insert(h(k, 0), k, 0, k);
    }
    let mut gone = None;
    for k in 0..260u64 {
        if s.peek(h(k, 0), &k, &0).is_none() {
            gone = Some(k);
            break;
        }
    }
    let k = gone.expect("some entry was evicted");
    s.insert(h(k, 0), k, 0, 7);
    assert_eq!(s.peek(h(k, 0), &k, &0), Some(&7));
    assert!(s.weight() <= 200);
}

#[test]
fn oversized_entry_is_rejected() {
    let mut s = weighted(100);
    assert!(s.insert(h(1, 0), 1, 0, 2).is_none());
    assert_eq!(s.get(h(1, 0), &1, &0), None);
    assert_eq!(s.len(), 0);
    assert_eq!(s.weight(), 0);
}

#[test]
fn oversized_entry_leaves_contents_alone() {
    let mut s = weighted(100);
    s.insert(h(1, 0), 1, 0, 1);
    assert!(s.insert(h(1, 0), 1, 0, 5).is_none());
    assert_eq!(s.peek(h(1, 0), &1, &0), Some(&1));
    assert_eq!(s.weight(), 1);
    assert_eq!(s.len(), 1);
}

#[test]
fn weighted_admission_small_capacity_rejects_heavy() {
    // Capacity 10: hot target 9, cold budget 1; weights 4, 4 and 3 are all too heavy.
    let mut s = weighted(10);
    s.insert(h(1, 0), 1, 0, 4);
    s.insert(h(2, 0), 2, 0, 4);
    s.insert(h(3, 0), 3, 0, 3);
    assert_eq!(s.len(), 0);
    assert_eq!(s.weight(), 0);
}

#[test]
fn weighted_eviction_stays_within_capacity() {
    // Capacity 1000: hot target 990, cold budget 10.
    let mut s = weighted(1000);
    for k in 0..400u64 {
        s.insert(h(k, 0), k, 0, 4 + k % 7);
        assert!(s.weight() <= 1000);
    }
    assert!(s.len() < 400);
    assert_eq!(s.capacity(), 1000);
}

#[test]
fn peek_does_not_mark_referenced() {
    let mut s = unit(3);
    for k in [1u64, 2, 3] {
        s.insert(h(k, 0), k, 0, k);
    }
    for _ in 0..5 {
        assert_eq!(s.peek(h(1, 0), &1, &0), Some(&1));
    }
    assert_eq!(s.hits(), 0);
    assert_eq!(s.misses(), 0);
    s.insert(h(4, 0), 4, 0, 4);
    s.insert(h(5, 0), 5, 0, 5);
    assert!(s.weight() <= 3);
}

#[test]
fn remove_then_insert_again() {
    let mut s = unit(3);
    s.insert(h(1, 0), 1, 0, 1);
    let removed = s.remove(h(1, 0), &1, &0).expect("present");
    match removed {
        Ok(r) => {
            assert_eq!(*r.key(), 1);
            assert_eq!(r.into_value(), 1);
        }
        Err(_) => panic!("a resident was removed"),
    }
    assert_eq!(s.len(), 0);
    assert_eq!(s.weight(), 0);
    assert!(s.remove(h(1, 0), &1, &0).is_none());
    s.insert(h(2, 0), 2, 0, 20);
    assert_eq!(s.get(h(2, 0), &2, &0), Some(&20));
    assert_eq!(s.len(), 1);
}

#[test]
fn reinsert_replaces_value_and_marks_referenced() {
    let mut s = unit(5);
    s.insert(h(1, 0), 1, 0, 10);
    let old = s.insert(h(1, 0), 1, 0, 11).expect("previous value handed back");
    assert_eq!(*old.value(), 10);
    assert_eq!(*old.version(), 0);
    assert_eq!(old.state(), ResidentState::Hot);
    assert!(!old.referenced());
    assert_eq!(s.peek(h(1, 0), &1, &0), Some(&11));
    assert_eq!(s.len(), 1);
    let again = s.insert(h(1, 0), 1, 0, 12).expect("previous value handed back");
    assert!(again.referenced());
}

#[test]
fn reserve_changes_nothing_visible() {
    let mut s = unit(5);
    s.insert(h(1, 0), 1, 0, 10);
    s.reserve(100);
    assert_eq!(s.peek(h(1, 0), &1, &0), Some(&10));
    assert_eq!(s.len(), 1);
    assert_eq!(s.weight(), 1);
}

#[test]
fn colliding_hashes_keep_distinct_keys() {
    let mut s = unit(10);
    s.insert(7, 1, 0, 10);
    s.insert(7, 2, 0, 20);
    assert_eq!(s.get(7, &1, &0), Some(&10));
    assert_eq!(s.get(7, &2, &0), Some(&20));
    assert!(s.remove(7, &1, &0).is_some());
    assert_eq!(s.get(7, &1, &0), None);
    assert_eq!(s.get(7, &2, &0), Some(&20));
}

struct StringWeighter;

impl Weighter<u64, (), String> for StringWeighter {
    fn spec_weight(&self, _key: &u64, _version: &(), val: &String) -> u32 {
        val.len() as u32
    }

    fn weight(&self, _key: &u64, _version: &(), val: &String) -> u32 {
        val.len() as u32
    }
}

fn hs(key: &str, version: u64) -> u64 {
    let mut x: u64 = version;
    for b in key.bytes() {
        x = x.wrapping_mul(31).wrapping_add(b as u64);
    }
    h(x, version)
}

#[test]
fn test_new() {
    for cap in [0u64, 1, 2, 3, u64::MAX] {
        let s: VersionedCacheShard<u64, u64, u64, UnitWeighter, ()> =
            VersionedCacheShard::new(cap, UnitWeighter, ());
        assert!(s.capacity() >= 2);
        let s: VersionedCacheShard<u64, (), u64, UnitWeighter, ()> =
            VersionedCacheShard::new(cap, UnitWeighter, ());
        assert_eq!(s.len(), 0);
    }
}

#[test]
fn test_custom_cost() {
    let mut cache = VersionedCacheShard::new(100_000, StringWeighter, ());
    cache.insert(h(1, 0), 1, (), "1".to_string());
    cache.insert(h(54, 0), 54, (), "54".to_string());
    cache.insert(h(1000, 0), 1000, (), "1000".to_string());
    assert_eq!(cache.get(h(1000, 0), &1000, &()).unwrap(), "1000");
}

#[test]
fn test_versioned() {
    let mut cache: VersionedCacheShard<String, u64, String, UnitWeighter, ()> =
        VersionedCacheShard::new(5, UnitWeighter, ());
    cache.insert(hs("square", 2022), "square".to_string(), 2022, "blue".to_string());
    cache.insert(hs("square", 2023), "square".to_string(), 2023, "black".to_string());
    assert_eq!(cache.get(hs("square", 2022), &"square".to_string(), &2022).unwrap(), "blue");
}

#[test]
fn test_borrow_keys() {
    let mut cache: VersionedCacheShard<Vec<u8>, Vec<u8>, u64, UnitWeighter, ()> =
        VersionedCacheShard::new(0, UnitWeighter, ());
    assert!(cache.get(0, &b"".to_vec(), &b"".to_vec()).is_none());
    let mut cache: VersionedCacheShard<String, String, u64, UnitWeighter, ()> =
        VersionedCacheShard::new(0, UnitWeighter, ());
    assert!(cache.get(0, &String::new(), &String::new()).is_none());
}

#[test]
fn mutable_lookups_write_through() {
    let mut s = unit(5);
    s.insert(h(1, 0), 1, 0, 10);
    if let Some(v) = s.peek_mut(h(1, 0), &1, &0) {
        *v = 11;
    }
    assert_eq!(s.hits(), 0);
    if let Some(v) = s.get_mut(h(1, 0), &1, &0) {
        *v += 1;
    }
    assert!(s.get_mut(h(2, 0), &2, &0).is_none());
    assert_eq!(s.hits(), 1);
    assert_eq!(s.misses(), 1);
    assert_eq!(s.peek(h(1, 0), &1, &0), Some(&12));
}

#[test]
fn ghost_removed_by_remove() {
    // Entries of weight 10 in a capacity of 10000 give a ghost budget of 5, so evicted
    // entries in test leave ghosts; removing by their key drops those ghosts.
    let mut s = weighted(10_000);
    for k in 0..1100u64 {
        s.insert(h(k, 0), k, 0, 10);
        assert!(s.weight() <= 10_000);
    }
    let mut ghosts = 0;
    for k in 0..1100u64 {
        if s.peek(h(k, 0), &k, &0).is_none() {
            if let Some(Err(hash)) = s.remove(h(k, 0), &k, &0) {
                assert_eq!(hash, h(k, 0));
                ghosts += 1;
            }
        }
    }
    assert!(ghosts > 0);
    assert!(ghosts <= 5);
}

#[test]
fn ghost_comes_back_on_reinsert() {
    let mut s = weighted(10_000);
    for k in 0..1100u64 {
        s.insert(h(k, 0), k, 0, 10);
    }
    let len = s.len();
    let mut back = None;
    for k in 0..1100u64 {
        if s.peek(h(k, 0), &k, &0).is_none() {
            back = Some(k);
        }
    }
    let k = back.expect("some entry was evicted");
    s.insert(h(k, 0), k, 0, 10);
    assert_eq!(s.peek(h(k, 0), &k, &0), Some(&10));
    assert!(s.weight() <= 10_000);
    assert!(s.len() <= len + 1);
}

#[test]
fn new_entries_enter_hot_until_the_target_then_cold() {
    // Capacity 3: hot target 2.
    let mut s = unit(3);
    for k in [1u64, 2, 3] {
        s.insert(h(k, 0), k, 0, k);
    }
    let r1 = s.insert(h(1, 0), 1, 0, 10).expect("replaced");
    assert_eq!(r1.state(), ResidentState::Hot);
    let r3 = s.insert(h(3, 0), 3, 0, 30).expect("replaced");
    assert_eq!(r3.state(), ResidentState::ColdInTest);
    assert!(!r3.referenced());
    assert_eq!(s.len(), 3);
}

#[test]
fn largest_capacity_is_kept() {
    let mut s = unit(u64::MAX);
    assert_eq!(s.capacity(), u64::MAX);
    for k in 0..50u64 {
        assert!(s.insert(h(k, 0), k, 0, k).is_none());
    }
    assert_eq!(s.len(), 50);
    assert_eq!(s.weight(), 50);
}
