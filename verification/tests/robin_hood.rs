use kcm::robin_hood::RobinHoodMap;

#[test]
fn test_robin_hood_basic() {
    let mut map = RobinHoodMap::new();
    map.insert("hello", 1);
    map.insert("world", 2);
    assert_eq!(map.get(&"hello"), Some(&1));
    assert_eq!(map.get(&"world"), Some(&2));
    assert_eq!(map.len(), 2);
}

#[test]
fn test_robin_hood_overwrite() {
    let mut map = RobinHoodMap::new();
    assert_eq!(map.insert("key", 1), None);
    assert_eq!(map.insert("key", 2), Some(1));
    assert_eq!(map.get(&"key"), Some(&2));
    assert_eq!(map.len(), 1);
}

#[test]
fn test_robin_hood_growth() {
    let mut map = RobinHoodMap::with_capacity(4);
    for i in 0..100 {
        map.insert(format!("key_{}", i), i);
    }
    assert_eq!(map.len(), 100);
    for i in 0..100 {
        assert_eq!(map.get(&format!("key_{}", i)), Some(&i));
    }
}

#[test]
fn test_robin_hood_max_probe() {
    let mut map = RobinHoodMap::with_capacity(8);
    for i in 0..50 {
        map.insert(i, i * 10);
    }
    assert!(map.max_probe_distance() < 32);
}

#[test]
fn test_robin_hood_keys_values() {
    let mut map = RobinHoodMap::new();
    map.insert("a", 1);
    map.insert("b", 2);

    let mut keys: Vec<_> = map.keys().into_iter().cloned().collect();
    keys.sort();
    assert_eq!(keys, vec!["a", "b"]);

    let mut values: Vec<_> = map.values().into_iter().cloned().collect();
    values.sort();
    assert_eq!(values, vec![1, 2]);
}

#[test]
fn test_robin_hood_get_with_hash() {
    let mut map = RobinHoodMap::new();
    map.insert("test", 42);
    let hash = map.hash_key(&"test");
    assert_eq!(map.get_with_hash(&"test", hash), Some(&42));
}

#[test]
fn robin_hood_capacity_is_a_power_of_two_at_least_64() {
    let small: RobinHoodMap<u64, u64> = RobinHoodMap::with_capacity(4);
    assert_eq!(small.capacity(), 64);
    let exact: RobinHoodMap<u64, u64> = RobinHoodMap::with_capacity(64);
    assert_eq!(exact.capacity(), 64);
    let larger: RobinHoodMap<u64, u64> = RobinHoodMap::with_capacity(100);
    assert_eq!(larger.capacity(), 128);
    let fresh: RobinHoodMap<u64, u64> = RobinHoodMap::new();
    assert_eq!(fresh.capacity(), 64);
    assert!(fresh.is_empty());
}

#[test]
fn robin_hood_doubles_when_ninety_percent_full() {
    let mut map: RobinHoodMap<u64, u64> = RobinHoodMap::new();
    for i in 0..58u64 {
        map.insert(i, i);
    }
    assert_eq!(map.capacity(), 64);
    map.insert(58, 58);
    assert_eq!(map.capacity(), 128);
    assert_eq!(map.len(), 59);
    for i in 0..59u64 {
        assert_eq!(map.get(&i), Some(&i));
    }
}

#[test]
fn robin_hood_overwrite_keeps_len_and_capacity() {
    let mut map: RobinHoodMap<String, u32> = RobinHoodMap::new();
    for i in 0..20u32 {
        assert_eq!(map.insert(format!("k{}", i), i), None);
    }
    for i in 0..20u32 {
        assert_eq!(map.insert(format!("k{}", i), i + 100), Some(i));
    }
    assert_eq!(map.len(), 20);
    assert_eq!(map.capacity(), 64);
    assert_eq!(map.get(&"k7".to_string()), Some(&107));
}

#[test]
fn robin_hood_missing_key_is_absent() {
    let mut map: RobinHoodMap<i32, i32> = RobinHoodMap::new();
    for i in 0..40 {
        map.insert(i, -i);
    }
    assert_eq!(map.get(&1000), None);
    assert!(!map.contains_key(&1000));
    assert!(map.contains_key(&39));
    let hash = map.hash_key(&1000);
    assert_eq!(map.get_with_hash(&1000, hash), None);
}

#[test]
fn robin_hood_clear_empties_and_keeps_slots() {
    let mut map: RobinHoodMap<u32, u32> = RobinHoodMap::with_capacity(200);
    for i in 0..150u32 {
        map.insert(i, i);
    }
    let cap = map.capacity();
    map.clear();
    assert_eq!(map.len(), 0);
    assert!(map.is_empty());
    assert_eq!(map.capacity(), cap);
    assert_eq!(map.get(&3), None);
    assert!(map.keys().is_empty());
    assert_eq!(map.max_probe_distance(), 0);
    assert_eq!(map.probe_distance_sum(), 0);
}

#[test]
fn robin_hood_iter_lists_every_entry_once() {
    let mut map: RobinHoodMap<usize, usize> = RobinHoodMap::default();
    for i in 0..30usize {
        map.insert(i, i * i);
    }
    let mut pairs: Vec<(usize, usize)> = map.iter().into_iter().map(|(k, v)| (*k, *v)).collect();
    pairs.sort();
    let expected: Vec<(usize, usize)> = (0..30usize).map(|i| (i, i * i)).collect();
    assert_eq!(pairs, expected);
}

#[test]
fn robin_hood_single_entry_sits_at_home() {
    let mut map: RobinHoodMap<i64, i64> = RobinHoodMap::new();
    map.insert(-5, 5);
    assert_eq!(map.max_probe_distance(), 0);
    assert_eq!(map.probe_distance_sum(), 0);
    assert_eq!(map.get(&-5), Some(&5));
}
