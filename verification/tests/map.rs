use intmap::{IntMap, IntMapKey};

#[derive(Clone, Copy, PartialEq, Debug)]
struct SomeType(u32);

// The ghost items of the trait never run; an implementation in plain Rust
// still has to name them.
impl IntMapKey for SomeType {
    fn spec_key(&self) -> u64 {
        unreachable!()
    }

    fn intmap_key(&self) -> u64 {
        self.0 as u64
    }

    fn lemma_eq_is_identity() {}
}

/// A key type whose keys all share one representation, and so one bucket.
#[derive(Clone, Copy, PartialEq, Debug)]
struct Crowded(u32);

impl IntMapKey for Crowded {
    fn spec_key(&self) -> u64 {
        unreachable!()
    }

    fn intmap_key(&self) -> u64 {
        42
    }

    fn lemma_eq_is_identity() {}
}

#[test]
fn three_keys_then_remove_one() {
    let mut map: IntMap<u64, char> = IntMap::new();
    assert_eq!(map.insert(7, 'a'), None);
    assert_eq!(map.insert(121, 'b'), None);
    assert_eq!(map.insert(982343242, 'c'), None);

    assert_eq!(map.get(&7), Some(&'a'));
    assert_eq!(map.get(&121), Some(&'b'));
    assert_eq!(map.get(&982343242), Some(&'c'));
    assert_eq!(map.len(), 3);

    assert_eq!(map.remove(&121), Some('b'));
    assert_eq!(map.len(), 2);
    assert_eq!(map.get(&121), None);
    assert_eq!(map.get(&7), Some(&'a'));
    assert_eq!(map.get(&982343242), Some(&'c'));
}

#[test]
fn user_defined_key() {
    let mut map = IntMap::new();
    map.insert(SomeType(7), 'a');
    map.insert(SomeType(121), 'b');
    map.insert(SomeType(982343242), 'c');

    assert_eq!(Some(&'a'), map.get(&SomeType(7)));
    assert_eq!(Some(&'b'), map.get(&SomeType(121)));
    assert_eq!(Some(&'c'), map.get(&SomeType(982343242)));
    assert_eq!(None, map.get(&SomeType(8)));
}

#[test]
fn new_map_is_empty_with_one_bucket() {
    let map: IntMap<u32, u32> = IntMap::new();
    assert_eq!(map.len(), 0);
    assert!(map.is_empty());
    assert_eq!(map.capacity(), 1);
    assert_eq!(map.get(&0), None);
    assert!(!map.contains_key(&0));
}

#[test]
fn with_capacity_rounds_up_to_a_power_of_two() {
    let expected = [
        (0usize, 1usize),
        (1, 1),
        (2, 2),
        (3, 4),
        (4, 4),
        (5, 8),
        (8, 8),
        (9, 16),
        (1000, 1024),
        (1024, 1024),
        (1025, 2048),
    ];
    for (asked, buckets) in expected {
        let map: IntMap<u64, u64> = IntMap::with_capacity(asked);
        assert_eq!(map.capacity(), buckets);
        assert_eq!(map.len(), 0);
        assert!(map.is_empty());
    }
}

#[test]
fn get_finds_what_insert_stored() {
    let mut map: IntMap<i32, String> = IntMap::new();
    for key in [-5, 0, 5, i32::MIN, i32::MAX] {
        assert_eq!(map.insert(key, format!("value {key}")), None);
        assert_eq!(map.get(&key), Some(&format!("value {key}")));
    }
    assert_eq!(map.len(), 5);
}

#[test]
fn second_insert_overwrites_and_returns_the_first_value() {
    let mut map: IntMap<u16, &str> = IntMap::new();
    assert_eq!(map.insert(9, "one"), None);
    assert_eq!(map.insert(9, "two"), Some("one"));
    assert_eq!(map.get(&9), Some(&"two"));
    assert_eq!(map.len(), 1);
    assert_eq!(map.insert(9, "three"), Some("two"));
    assert_eq!(map.len(), 1);
}

#[test]
fn overwriting_does_not_grow() {
    let mut map: IntMap<u64, u64> = IntMap::with_capacity(4);
    map.insert(1, 10);
    map.insert(2, 20);
    map.insert(3, 30);
    assert_eq!(map.capacity(), 4);
    for round in 0..100 {
        assert_eq!(map.insert(3, round), Some(if round == 0 { 30 } else { round - 1 }));
    }
    assert_eq!(map.capacity(), 4);
    assert_eq!(map.len(), 3);
}

#[test]
fn remove_of_a_present_key() {
    let mut map: IntMap<u8, u8> = IntMap::new();
    map.insert(1, 11);
    map.insert(2, 22);
    let before = map.len();
    assert_eq!(map.remove(&1), Some(11));
    assert_eq!(map.len(), before - 1);
    assert_eq!(map.get(&1), None);
    assert!(!map.contains_key(&1));
    assert_eq!(map.get(&2), Some(&22));
}

#[test]
fn remove_of_an_absent_key_changes_nothing() {
    let mut map: IntMap<u8, u8> = IntMap::new();
    map.insert(1, 11);
    map.insert(2, 22);
    let capacity = map.capacity();
    assert_eq!(map.remove(&3), None);
    assert_eq!(map.len(), 2);
    assert_eq!(map.capacity(), capacity);
    assert_eq!(map.get(&1), Some(&11));
    assert_eq!(map.get(&2), Some(&22));
    assert_eq!(map.remove(&1), Some(11));
    assert_eq!(map.remove(&1), None);
    assert_eq!(map.len(), 1);
}

#[test]
fn remove_on_an_empty_map() {
    let mut map: IntMap<i64, i64> = IntMap::new();
    assert_eq!(map.remove(&-1), None);
    assert_eq!(map.len(), 0);
}

#[test]
fn len_counts_distinct_keys() {
    let mut map: IntMap<u32, u32> = IntMap::new();
    let mut expected = 0;
    for key in 0..50 {
        map.insert(key, key);
        expected += 1;
        assert_eq!(map.len(), expected);
    }
    for key in 0..50 {
        map.insert(key, key + 1);
        assert_eq!(map.len(), expected);
    }
    for key in (0..50).step_by(2) {
        assert_eq!(map.remove(&key), Some(key + 1));
        expected -= 1;
        assert_eq!(map.len(), expected);
    }
    for key in (0..50).step_by(2) {
        assert_eq!(map.remove(&key), None);
        assert_eq!(map.len(), expected);
    }
    assert_eq!(map.len(), 25);
    assert!(!map.is_empty());
}

#[test]
fn map_grows_at_nine_tenths() {
    let mut map: IntMap<u64, u64> = IntMap::new();
    let capacities = [2usize, 4, 4, 8, 8, 8, 8, 16, 16, 16, 16, 16, 16, 16, 32];
    for (inserted, expected) in capacities.iter().enumerate() {
        map.insert(inserted as u64, 0);
        assert_eq!(map.len(), inserted + 1);
        assert_eq!(map.capacity(), *expected);
    }
}

#[test]
fn growth_waits_for_the_threshold() {
    let mut map: IntMap<u64, u64> = IntMap::with_capacity(1024);
    for key in 0..921 {
        map.insert(key, key);
    }
    // 921 pairs in 1024 buckets are just short of nine tenths.
    assert_eq!(map.capacity(), 1024);
    map.insert(921, 921);
    assert_eq!(map.capacity(), 2048);
    assert_eq!(map.len(), 922);
}

#[test]
fn every_pair_survives_growth() {
    let mut map: IntMap<u64, u64> = IntMap::new();
    let mut capacity = map.capacity();
    let mut doublings = 0;
    for key in 0..10_000u64 {
        assert_eq!(map.insert(key * 7919, key), None);
        if map.capacity() != capacity {
            assert_eq!(map.capacity(), capacity * 2);
            capacity = map.capacity();
            doublings += 1;
            for earlier in 0..=key {
                assert_eq!(map.get(&(earlier * 7919)), Some(&earlier));
            }
        }
    }
    assert!(doublings >= 10);
    assert_eq!(map.len(), 10_000);
    assert!(map.capacity().is_power_of_two());
    for key in 0..10_000u64 {
        assert_eq!(map.get(&(key * 7919)), Some(&key));
    }
    assert_eq!(map.get(&1), None);
}

#[test]
fn grow_doubles_the_buckets_and_keeps_the_pairs() {
    let mut map: IntMap<i16, i16> = IntMap::with_capacity(64);
    for key in -20..20 {
        map.insert(key, -key);
    }
    assert_eq!(map.capacity(), 64);
    map.grow();
    assert_eq!(map.capacity(), 128);
    assert_eq!(map.len(), 40);
    for key in -20..20 {
        assert_eq!(map.get(&key), Some(&-key));
    }
    assert_eq!(map.get(&20), None);
    map.grow();
    assert_eq!(map.capacity(), 256);
    assert_eq!(map.len(), 40);
}

#[test]
fn grow_of_an_empty_map() {
    let mut map: IntMap<u8, u8> = IntMap::new();
    map.grow();
    assert_eq!(map.capacity(), 2);
    assert!(map.is_empty());
}

#[test]
fn a_map_never_shrinks() {
    let mut map: IntMap<u32, u32> = IntMap::new();
    for key in 0..100 {
        map.insert(key, key);
    }
    let capacity = map.capacity();
    for key in 0..100 {
        map.remove(&key);
    }
    assert!(map.is_empty());
    assert_eq!(map.capacity(), capacity);
}

#[test]
fn get_mut_changes_the_stored_value() {
    let mut map: IntMap<u64, Vec<u8>> = IntMap::new();
    map.insert(3, vec![1]);
    match map.get_mut(&3) {
        Some(value) => value.push(2),
        None => panic!("key 3 is present"),
    }
    assert_eq!(map.get(&3), Some(&vec![1, 2]));
    assert!(map.get_mut(&4).is_none());
    assert_eq!(map.len(), 1);
}

#[test]
fn contains_key_tells_presence() {
    let mut map: IntMap<isize, ()> = IntMap::new();
    assert!(!map.contains_key(&-1));
    map.insert(-1, ());
    assert!(map.contains_key(&-1));
    assert!(!map.contains_key(&1));
    map.remove(&-1);
    assert!(!map.contains_key(&-1));
}

#[test]
fn clear_empties_and_keeps_the_capacity() {
    let mut map: IntMap<u64, u64> = IntMap::new();
    for key in 0..100 {
        map.insert(key, key);
    }
    let capacity = map.capacity();
    map.clear();
    assert_eq!(map.len(), 0);
    assert!(map.is_empty());
    assert_eq!(map.capacity(), capacity);
    for key in 0..100 {
        assert_eq!(map.get(&key), None);
    }
    map.clear();
    assert_eq!(map.len(), 0);
    assert_eq!(map.capacity(), capacity);
}

#[test]
fn cleared_map_behaves_like_a_new_one_of_its_capacity() {
    let mut cleared: IntMap<u64, u64> = IntMap::new();
    for key in 0..40 {
        cleared.insert(key, key);
    }
    cleared.clear();
    let mut new: IntMap<u64, u64> = IntMap::with_capacity(cleared.capacity());
    assert_eq!(new.capacity(), cleared.capacity());
    for key in 0..200 {
        assert_eq!(cleared.insert(key * 3, key), new.insert(key * 3, key));
        assert_eq!(cleared.len(), new.len());
        assert_eq!(cleared.capacity(), new.capacity());
    }
    for key in 0..600 {
        assert_eq!(cleared.get(&key), new.get(&key));
    }
}

#[test]
fn keys_of_one_representation_are_told_apart() {
    let mut map: IntMap<Crowded, u32> = IntMap::new();
    for key in 0..20 {
        assert_eq!(map.insert(Crowded(key), key * 10), None);
    }
    assert_eq!(map.len(), 20);
    for key in 0..20 {
        assert_eq!(map.get(&Crowded(key)), Some(&(key * 10)));
    }
    assert_eq!(map.get(&Crowded(20)), None);
    assert_eq!(map.insert(Crowded(5), 1), Some(50));
    assert_eq!(map.len(), 20);
}

#[test]
fn removal_from_a_crowded_bucket_keeps_the_others() {
    for victim in 0..6 {
        let mut map: IntMap<Crowded, u32> = IntMap::new();
        for key in 0..6 {
            map.insert(Crowded(key), key + 100);
        }
        assert_eq!(map.remove(&Crowded(victim)), Some(victim + 100));
        assert_eq!(map.len(), 5);
        for key in 0..6 {
            let expected = if key == victim { None } else { Some(key + 100) };
            assert_eq!(map.get(&Crowded(key)).copied(), expected);
        }
    }
}

#[test]
fn all_key_types_work_as_keys() {
    let mut by_u8: IntMap<u8, u8> = IntMap::new();
    let mut by_u16: IntMap<u16, u8> = IntMap::new();
    let mut by_u32: IntMap<u32, u8> = IntMap::new();
    let mut by_u64: IntMap<u64, u8> = IntMap::new();
    let mut by_usize: IntMap<usize, u8> = IntMap::new();
    let mut by_i8: IntMap<i8, u8> = IntMap::new();
    let mut by_i16: IntMap<i16, u8> = IntMap::new();
    let mut by_i32: IntMap<i32, u8> = IntMap::new();
    let mut by_i64: IntMap<i64, u8> = IntMap::new();
    let mut by_isize: IntMap<isize, u8> = IntMap::new();
    for n in 0..100u8 {
        by_u8.insert(n, n);
        by_u16.insert(n as u16 * 600, n);
        by_u32.insert(n as u32 * 40_000_000, n);
        by_u64.insert(n as u64 * 180_000_000_000_000_000, n);
        by_usize.insert(n as usize * 40_000_000, n);
        by_i8.insert(n as i8 - 50, n);
        by_i16.insert((n as i16 - 50) * 600, n);
        by_i32.insert((n as i32 - 50) * 40_000_000, n);
        by_i64.insert((n as i64 - 50) * 180_000_000_000_000_000, n);
        by_isize.insert((n as isize - 50) * 40_000_000, n);
    }
    for n in 0..100u8 {
        assert_eq!(by_u8.get(&n), Some(&n));
        assert_eq!(by_u16.get(&(n as u16 * 600)), Some(&n));
        assert_eq!(by_u32.get(&(n as u32 * 40_000_000)), Some(&n));
        assert_eq!(by_u64.get(&(n as u64 * 180_000_000_000_000_000)), Some(&n));
        assert_eq!(by_usize.get(&(n as usize * 40_000_000)), Some(&n));
        assert_eq!(by_i8.get(&(n as i8 - 50)), Some(&n));
        assert_eq!(by_i16.get(&((n as i16 - 50) * 600)), Some(&n));
        assert_eq!(by_i32.get(&((n as i32 - 50) * 40_000_000)), Some(&n));
        assert_eq!(by_i64.get(&((n as i64 - 50) * 180_000_000_000_000_000)), Some(&n));
        assert_eq!(by_isize.get(&((n as isize - 50) * 40_000_000)), Some(&n));
    }
    assert_eq!(by_i8.len(), 100);
    assert_eq!(by_i64.len(), 100);
}
