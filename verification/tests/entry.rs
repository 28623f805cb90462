use intmap::{Entry, IntMap, IntMapKey};

/// A key type whose keys all share one representation, and so one bucket.
#[derive(Clone, Copy, PartialEq, Debug)]
struct Crowded(u32);

// The ghost items of the trait never run; an implementation in plain Rust
// still has to name them.
impl IntMapKey for Crowded {
    fn spec_key(&self) -> u64 {
        unreachable!()
    }

    fn intmap_key(&self) -> u64 {
        42
    }

    fn lemma_eq_is_identity() {}
}

#[test]
fn entry_of_a_present_key_is_occupied() {
    let mut map: IntMap<u32, u32> = IntMap::new();
    map.insert(1, 10);
    assert!(matches!(map.entry(1), Entry::Occupied(_)));
    assert!(matches!(map.entry(2), Entry::Vacant(_)));
    assert_eq!(map.len(), 1);
    assert_eq!(map.get(&1), Some(&10));
}

#[test]
fn occupied_get_reads_the_value() {
    let mut map: IntMap<u64, &str> = IntMap::new();
    map.insert(7, "seven");
    map.insert(8, "eight");
    match map.entry(8) {
        Entry::Occupied(occupied) => assert_eq!(*occupied.get(), "eight"),
        Entry::Vacant(_) => panic!("key 8 is present"),
    }
}

#[test]
fn occupied_get_mut_changes_the_value() {
    let mut map: IntMap<u64, u32> = IntMap::new();
    map.insert(7, 1);
    match map.entry(7) {
        Entry::Occupied(mut occupied) => {
            *occupied.get_mut() += 1;
            assert_eq!(*occupied.get(), 2);
            *occupied.get_mut() *= 10;
        }
        Entry::Vacant(_) => panic!("key 7 is present"),
    }
    assert_eq!(map.get(&7), Some(&20));
    assert_eq!(map.len(), 1);
}

#[test]
fn occupied_into_mut_outlives_the_entry() {
    let mut map: IntMap<i8, String> = IntMap::new();
    map.insert(-1, String::from("minus"));
    let value = match map.entry(-1) {
        Entry::Occupied(occupied) => occupied.into_mut(),
        Entry::Vacant(_) => panic!("key -1 is present"),
    };
    assert_eq!(value, "minus");
    value.push_str(" one");
    assert_eq!(map.get(&-1), Some(&String::from("minus one")));
}

#[test]
fn occupied_insert_returns_the_old_value() {
    let mut map: IntMap<u32, u32> = IntMap::with_capacity(2);
    map.insert(1, 10);
    let capacity = map.capacity();
    match map.entry(1) {
        Entry::Occupied(mut occupied) => {
            assert_eq!(occupied.insert(11), 10);
            assert_eq!(*occupied.get(), 11);
            assert_eq!(occupied.insert(12), 11);
        }
        Entry::Vacant(_) => panic!("key 1 is present"),
    }
    assert_eq!(map.get(&1), Some(&12));
    assert_eq!(map.len(), 1);
    assert_eq!(map.capacity(), capacity);
}

#[test]
fn occupied_remove_takes_the_pair_out() {
    let mut map: IntMap<u32, u32> = IntMap::new();
    for key in 0..10 {
        map.insert(key, key * 2);
    }
    let capacity = map.capacity();
    match map.entry(4) {
        Entry::Occupied(occupied) => assert_eq!(occupied.remove(), 8),
        Entry::Vacant(_) => panic!("key 4 is present"),
    }
    assert_eq!(map.len(), 9);
    assert_eq!(map.capacity(), capacity);
    assert_eq!(map.get(&4), None);
    assert!(matches!(map.entry(4), Entry::Vacant(_)));
    for key in (0..10).filter(|key| *key != 4) {
        assert_eq!(map.get(&key), Some(&(key * 2)));
    }
}

#[test]
fn occupied_remove_from_a_crowded_bucket() {
    for victim in 0..6 {
        let mut map: IntMap<Crowded, u32> = IntMap::new();
        for key in 0..6 {
            map.insert(Crowded(key), key + 100);
        }
        match map.entry(Crowded(victim)) {
            Entry::Occupied(occupied) => assert_eq!(occupied.remove(), victim + 100),
            Entry::Vacant(_) => panic!("the key is present"),
        }
        assert_eq!(map.len(), 5);
        for key in 0..6 {
            let expected = if key == victim { None } else { Some(key + 100) };
            assert_eq!(map.get(&Crowded(key)).copied(), expected);
        }
    }
}

#[test]
fn occupied_entry_in_a_crowded_bucket_points_at_its_own_pair() {
    let mut map: IntMap<Crowded, u32> = IntMap::new();
    for key in 0..6 {
        map.insert(Crowded(key), key);
    }
    for key in 0..6 {
        match map.entry(Crowded(key)) {
            Entry::Occupied(mut occupied) => {
                assert_eq!(*occupied.get(), key);
                assert_eq!(occupied.insert(key + 50), key);
            }
            Entry::Vacant(_) => panic!("the key is present"),
        }
    }
    for key in 0..6 {
        assert_eq!(map.get(&Crowded(key)), Some(&(key + 50)));
    }
}

#[test]
fn vacant_insert_stores_and_hands_out_the_value() {
    let mut map: IntMap<u64, u32> = IntMap::new();
    match map.entry(5) {
        Entry::Occupied(_) => panic!("key 5 is absent"),
        Entry::Vacant(vacant) => {
            let stored = vacant.insert(50);
            assert_eq!(*stored, 50);
            *stored += 1;
        }
    }
    assert_eq!(map.get(&5), Some(&51));
    assert_eq!(map.len(), 1);
}

#[test]
fn vacant_insert_grows_the_map_as_insert_does() {
    let mut through_entry: IntMap<u64, u64> = IntMap::new();
    let mut direct: IntMap<u64, u64> = IntMap::new();
    for key in 0..500u64 {
        match through_entry.entry(key * 31) {
            Entry::Occupied(_) => panic!("the key is absent"),
            Entry::Vacant(vacant) => {
                assert_eq!(*vacant.insert(key), key);
            }
        }
        assert_eq!(direct.insert(key * 31, key), None);
        assert_eq!(through_entry.len(), direct.len());
        assert_eq!(through_entry.capacity(), direct.capacity());
    }
    assert!(direct.capacity() > 1);
    for key in 0..(500 * 31) {
        assert_eq!(through_entry.get(&key), direct.get(&key));
    }
}

#[test]
fn insert_through_an_entry_equals_insert() {
    let mut through_entry: IntMap<i32, i32> = IntMap::new();
    let mut direct: IntMap<i32, i32> = IntMap::new();
    let keys = [3, -3, 3, 0, 17, -3, 17, 17, 1 << 20, 3];
    for (round, key) in keys.iter().enumerate() {
        let value = round as i32;
        match through_entry.entry(*key) {
            Entry::Occupied(mut occupied) => {
                occupied.insert(value);
            }
            Entry::Vacant(vacant) => {
                vacant.insert(value);
            }
        }
        direct.insert(*key, value);
        assert_eq!(through_entry.get(key), Some(&value));
        assert_eq!(through_entry.get(key), direct.get(key));
        assert_eq!(through_entry.len(), direct.len());
        assert_eq!(through_entry.capacity(), direct.capacity());
    }
    assert_eq!(direct.len(), 5);
}

#[test]
fn counting_with_entries() {
    let mut counts: IntMap<u8, usize> = IntMap::new();
    for byte in b"abracadabra" {
        match counts.entry(*byte) {
            Entry::Occupied(mut occupied) => *occupied.get_mut() += 1,
            Entry::Vacant(vacant) => {
                vacant.insert(1);
            }
        }
    }
    assert_eq!(counts.len(), 5);
    assert_eq!(counts.get(&b'a'), Some(&5));
    assert_eq!(counts.get(&b'b'), Some(&2));
    assert_eq!(counts.get(&b'r'), Some(&2));
    assert_eq!(counts.get(&b'c'), Some(&1));
    assert_eq!(counts.get(&b'd'), Some(&1));
    assert_eq!(counts.get(&b'e'), None);
}
