use datakit::hash_map::{SimpleHashMap, SimpleRSHasher, MIN_DEFAULT_CAPACITY};
use std::hash::{BuildHasher, Hasher};

fn hasher_after(bytes: &[u8]) -> u64 {
    let map: SimpleHashMap<i32, i32> = SimpleHashMap::new();
    let mut hasher: SimpleRSHasher = map.build_hasher();
    hasher.write(bytes);
    hasher.finish()
}

#[test]
fn test_zero_capacities() {
    type HM = SimpleHashMap<i32, i32>;

    let m = HM::new();
    assert_eq!(m.capacity(), 0);

    let m = HM::with_capacity(0);
    assert_eq!(m.capacity(), 0);
}

#[test]
fn test_create_capacity_zero() {
    let mut m = SimpleHashMap::with_capacity(0);

    assert!(m.insert(1, 1).is_none());

    assert!(m.contains_key(&1));
    assert!(!m.contains_key(&0));
}

#[test]
fn lib_test_insert() {
    let mut m = SimpleHashMap::new();
    assert_eq!(m.len(), 0);
    assert!(m.insert(1, 2).is_none());
    assert_eq!(m.len(), 1);
    assert!(m.insert(2, 4).is_none());
    assert_eq!(m.len(), 2);
    assert_eq!(*m.get(&1).unwrap(), 2);
    assert_eq!(*m.get(&2).unwrap(), 4);
}

#[test]
fn test_empty_iter() {
    let m: SimpleHashMap<i32, bool> = SimpleHashMap::new();
    assert_eq!(m.keys().next(), None);
    assert_eq!(m.values().next(), None);
    assert_eq!(m.iter().next(), None);
    assert_eq!(m.len(), 0);
    assert!(m.is_empty());
}

#[test]
fn test_insert_overwrite() {
    let mut m = SimpleHashMap::new();
    assert!(m.insert(1, 2).is_none());
    assert_eq!(*m.get(&1).unwrap(), 2);
    assert!(!m.insert(1, 3).is_none());
    assert_eq!(*m.get(&1).unwrap(), 3);
}

#[test]
fn test_insert_conflicts() {
    let mut m = SimpleHashMap::with_capacity(4);
    assert!(m.insert(1, 2).is_none());
    assert!(m.insert(5, 3).is_none());
    assert!(m.insert(9, 4).is_none());

    assert_eq!(m.len(), 3);

    assert_eq!(*m.get(&9).unwrap(), 4);
    assert_eq!(*m.get(&5).unwrap(), 3);
    assert_eq!(*m.get(&1).unwrap(), 2);
}

#[test]
fn test_keys() {
    let vec = vec![(1, 'a'), (2, 'b'), (3, 'c')];
    let map: SimpleHashMap<_, _> = SimpleHashMap::from_iter(vec);
    let mut keys: Vec<i32> = Vec::new();
    let mut walk = map.keys();
    while let Some(k) = walk.next() {
        keys.push(*k);
    }
    assert_eq!(keys.len(), 3);
    assert!(keys.contains(&1));
    assert!(keys.contains(&2));
    assert!(keys.contains(&3));
}

#[test]
fn test_values() {
    let vec = vec![(1, 'a'), (2, 'b'), (3, 'c')];
    let map: SimpleHashMap<_, _> = SimpleHashMap::from_iter(vec);
    let mut values: Vec<char> = Vec::new();
    let mut walk = map.values();
    while let Some(v) = walk.next() {
        values.push(*v);
    }
    assert_eq!(values.len(), 3);
    assert!(values.contains(&'a'));
    assert!(values.contains(&'b'));
    assert!(values.contains(&'c'));
}

#[test]
fn test_find() {
    let mut m = SimpleHashMap::new();
    assert!(m.get(&1).is_none());
    m.insert(1, 2);
    match m.get(&1) {
        None => panic!(),
        Some(v) => assert_eq!(*v, 2),
    }
}

#[test]
fn test_eq() {
    let mut m1 = SimpleHashMap::new();
    m1.insert(1, 2);
    m1.insert(2, 3);
    m1.insert(3, 4);

    let mut m2 = SimpleHashMap::new();
    m2.insert(1, 2);
    m2.insert(2, 3);

    assert!(!m1.eq(&m2));

    m2.insert(3, 4);

    assert!(m1.eq(&m2));
}

#[test]
fn test_show() {
    let mut map = SimpleHashMap::new();
    let empty: SimpleHashMap<i32, i32> = SimpleHashMap::new();

    map.insert(1, 2);
    map.insert(3, 4);

    let map_str = map.show();

    assert!(map_str == "{1: 2, 3: 4}" || map_str == "{3: 4, 1: 2}");
    assert_eq!(empty.show(), "{}");
}

#[test]
fn test_from_iter() {
    let xs = [(1, 1), (2, 2), (3, 3), (4, 4), (5, 5), (6, 6)];

    let map: SimpleHashMap<_, _> = SimpleHashMap::from_iter(xs.to_vec());

    for &(k, v) in &xs {
        assert_eq!(map.get(&k), Some(&v));
    }
}

#[test]
fn test_iter_len() {
    let xs = [(1, 1), (2, 2), (3, 3), (4, 4), (5, 5), (6, 6)];

    let map: SimpleHashMap<_, _> = SimpleHashMap::from_iter(xs.to_vec());

    let mut iter = map.iter();

    for _ in 0..3 {
        iter.next();
    }

    assert_eq!(iter.len(), 3);
}

#[test]
fn test_index() {
    let mut map = SimpleHashMap::new();

    map.insert(1, 2);
    map.insert(2, 1);
    map.insert(3, 4);

    assert_eq!(*map.get(&2).unwrap(), 1);
}

#[test]
fn first_insertion_takes_the_default_capacity() {
    let mut m: SimpleHashMap<i32, i32> = SimpleHashMap::new();
    assert_eq!(m.capacity(), 0);
    m.insert(1, 1);
    assert_eq!(m.capacity(), MIN_DEFAULT_CAPACITY);
    assert_eq!(MIN_DEFAULT_CAPACITY, 32);
}

#[test]
fn overwriting_counts_as_an_insertion() {
    let mut m = SimpleHashMap::with_capacity(4);
    assert_eq!(m.insert(7, 1), None);
    assert_eq!(m.insert(7, 2), Some(1));
    assert_eq!(m.len(), 2);
    assert!(!m.is_empty());
}

#[test]
fn clear_forgets_the_entries() {
    let mut m: SimpleHashMap<i32, i32> = SimpleHashMap::new();
    m.insert(1, 1);
    m.clear();
    assert_eq!(m.len(), 0);
    assert!(m.is_empty());
    assert_eq!(m.iter().next(), None);
    assert_eq!(m.capacity(), 32);
}

#[test]
fn rs_hash_of_known_bytes() {
    assert_eq!(hasher_after(b""), 0);
    assert_eq!(hasher_after(&[1]), 1);
    assert_eq!(hasher_after(b"abc"), 3195772970492570284);
    assert_eq!(hasher_after(&[255, 255]), 6147931333200);
    assert_eq!(hasher_after(&1i32.to_le_bytes()), 5797625647480865545);
}

#[test]
fn probing_starts_at_the_hash_and_wraps_round() {
    let mut m: SimpleHashMap<i32, char> = SimpleHashMap::with_capacity(4);
    assert_eq!(m.insert_hashed(10, 'a', 3), None);
    assert_eq!(m.insert_hashed(11, 'b', 7), None);
    assert_eq!(m.insert_hashed(12, 'c', 3), None);
    let mut order: Vec<(i32, char)> = Vec::new();
    let mut walk = m.iter();
    while let Some((k, v)) = walk.next() {
        order.push((*k, *v));
    }
    assert_eq!(order, vec![(11, 'b'), (12, 'c'), (10, 'a')]);
    assert_eq!(m.find_index_hashed(&10, 3), Some(3));
    assert_eq!(m.find_index_hashed(&11, 7), Some(0));
    assert_eq!(m.find_index_hashed(&12, 3), Some(1));
    assert_eq!(m.find_index_hashed(&12, 7), None);
    assert_eq!(m.get_hashed(&11, 7), Some(&'b'));
    assert_eq!(m.get_hashed(&11, 3), None);
    assert!(m.contains_key_hashed(&10, 3));
    assert!(!m.contains_key_hashed(&13, 3));
    assert_eq!(m.insert_hashed(11, 'z', 2), None);
    assert_eq!(m.get_hashed(&11, 2), Some(&'z'));
    assert_eq!(m.get_hashed(&11, 7), Some(&'b'));
}

#[test]
fn a_key_goes_to_the_cell_that_its_hash_names() {
    // The hashes of 7 and 1 name the cells 31 and 9 of a table of 32.
    let mut m: SimpleHashMap<i32, i32> = SimpleHashMap::new();
    m.insert(7, 70);
    m.insert(1, 10);
    let mut keys: Vec<i32> = Vec::new();
    let mut walk = m.keys();
    while let Some(k) = walk.next() {
        keys.push(*k);
    }
    assert_eq!(keys, vec![1, 7]);
    assert_eq!(m.find_index(&7), Some(31));
    assert_eq!(m.find_index(&1), Some(9));
    assert_eq!(m.find_index(&2), None);
}

#[test]
fn a_full_table_of_the_default_capacity() {
    let pairs: Vec<(i32, i32)> = (0..32).map(|i| (i, i * i)).collect();
    let map = SimpleHashMap::from_iter(pairs);
    assert_eq!(map.len(), 32);
    for i in 0..32 {
        assert_eq!(map.get(&i), Some(&(i * i)));
    }
    assert_eq!(map.get(&32), None);
}

#[test]
fn eq_compares_counts_keys_and_values() {
    let empty1: SimpleHashMap<i32, i32> = SimpleHashMap::new();
    let empty2: SimpleHashMap<i32, i32> = SimpleHashMap::with_capacity(4);
    assert!(empty1.eq(&empty2));

    let mut m1 = SimpleHashMap::new();
    m1.insert(1, 2);
    let mut m2 = SimpleHashMap::new();
    m2.insert(1, 3);
    assert!(!m1.eq(&m2));

    let mut m3 = SimpleHashMap::new();
    m3.insert(2, 2);
    assert!(!m1.eq(&m3));

    let mut m4 = SimpleHashMap::with_capacity(8);
    m4.insert(1, 2);
    assert!(m1.eq(&m4));
    assert!(!m1.eq(&empty1));
}

#[test]
fn a_cleared_map_is_ready_only_without_capacity() {
    let mut fresh: SimpleHashMap<i32, i32> = SimpleHashMap::new();
    assert!(fresh.is_ready());
    fresh.clear();
    assert!(fresh.is_ready());
    assert_eq!(fresh.get(&1), None);
    assert!(!fresh.contains_key(&1));

    let mut used: SimpleHashMap<i32, i32> = SimpleHashMap::with_capacity(4);
    assert!(used.is_ready());
    used.insert(1, 1);
    used.clear();
    assert!(!used.is_ready());
    assert_eq!(used.capacity(), 4);
}

#[test]
fn show_lays_the_entries_out_in_cell_order() {
    let mut map: SimpleHashMap<i32, &str> = SimpleHashMap::new();
    map.insert(7, "seven");
    map.insert(1, "one");
    map.insert(2, "two");
    // the hashes of 1, 2 and 7 name the cells 9, 18 and 31
    assert_eq!(map.show(), "{1: \"one\", 2: \"two\", 7: \"seven\"}");
}

#[test]
fn collected_pairs_come_out_of_the_walks_in_cell_order() {
    let map = SimpleHashMap::from_iter(vec![(7, 'g'), (1, 'a'), (2, 'b'), (1, 'z')]);
    let mut keys: Vec<i32> = Vec::new();
    let mut walk = map.keys();
    while let Some(k) = walk.next() {
        keys.push(*k);
    }
    let mut values: Vec<char> = Vec::new();
    let mut walk = map.values();
    while let Some(v) = walk.next() {
        values.push(*v);
    }
    assert_eq!(keys, vec![1, 2, 7]);
    assert_eq!(values, vec!['z', 'b', 'g']);
    assert_eq!(map.len(), 4);
}
