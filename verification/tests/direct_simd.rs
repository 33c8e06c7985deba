use hashlab::control64::search;
use hashlab::direct_simd_cuckoo_table;
use hashlab::direct_simd_quadratic_probing::HashTable;

#[test]
fn test_search_existing_key() {
    let bucket = [1, 2, 3, 4];
    assert_eq!(search(2, bucket), Some(1));
    assert_eq!(search(1, bucket), Some(0));
    assert_eq!(search(4, bucket), Some(3));
}

#[test]
fn test_search_non_existing_key() {
    let bucket = [1, 2, 3, 4];
    assert_eq!(search(5, bucket), None);
    assert_eq!(search(0, bucket), None);
}

#[test]
fn test_search_zero_empty_slot() {
    let bucket = [1, 0, 3, 4];
    assert_eq!(search(0, bucket), Some(1));

    let empty_bucket = [0, 0, 0, 0];
    assert_eq!(search(0, empty_bucket), Some(0));
}

#[test]
fn test_search_duplicate_keys() {
    let bucket = [5, 5, 3, 5];
    assert_eq!(search(5, bucket), Some(0));
}

#[test]
fn direct_simd_quadratic_probing_test_basic_insert_and_get() {
    let mut table = HashTable::with_capacity(16);

    let (inserted, _, _) = table.insert(42, "hello").unwrap();
    assert!(inserted);
    assert_eq!(table.len(), 1);

    assert_eq!(table.get(&42), Some(&"hello"));
    assert_eq!(table.get(&999), None);
}

#[test]
fn test_zero_key() {
    let mut table = HashTable::with_capacity(16);

    let (inserted, _, _) = table.insert(0, "zero").unwrap();
    assert!(inserted);
    assert_eq!(table.len(), 1);

    assert_eq!(table.get(&0), Some(&"zero"));
}

#[test]
fn direct_simd_quadratic_probing_test_update_existing() {
    let mut table = HashTable::with_capacity(16);

    let (inserted, _, _) = table.insert(123, "first").unwrap();
    assert!(inserted);
    assert_eq!(table.len(), 1);

    let (inserted, _, _) = table.insert(123, "updated").unwrap();
    assert!(!inserted);
    assert_eq!(table.len(), 1);

    assert_eq!(table.get(&123), Some(&"updated"));
}

#[test]
fn direct_simd_quadratic_probing_test_multiple_insertions() {
    let mut table = HashTable::with_capacity(64);

    for i in 1..=20 {
        let (inserted, _, _) = table.insert(i, i * 10).unwrap();
        assert!(inserted);
    }

    assert_eq!(table.len(), 20);

    for i in 1..=20 {
        assert_eq!(table.get(&i), Some(&(i * 10)));
    }
}

#[test]
fn direct_simd_quadratic_probing_test_collision_handling() {
    let mut table = HashTable::with_capacity(8);

    let keys = [1, 17, 33, 49, 65, 81, 97];

    for &key in &keys {
        let (inserted, _, _) = table.insert(key, key * 100).unwrap();
        assert!(inserted);
    }

    for &key in &keys {
        assert_eq!(table.get(&key), Some(&(key * 100)));
    }
}

#[test]
fn test_insert_and_erase() {
    let mut table = HashTable::with_capacity(16);

    assert!(table.insert_and_erase(42, "test"));

    assert_eq!(table.get(&42), None);
    assert_eq!(table.len(), 0);
}

#[test]
fn test_bucket_simd_search() {
    let mut table = HashTable::with_capacity(64);

    for i in 1..=20 {
        table.insert(i, i * 2).unwrap();
    }

    for i in 1..=20 {
        assert_eq!(table.get(&i), Some(&(i * 2)));
    }
}

#[test]
fn test_direct_cuckoo_basic() {
    let mut table = direct_simd_cuckoo_table::HashTable::with_capacity(16);

    let (inserted, _) = table.insert(42, 100u64).unwrap();
    assert!(inserted);
    assert_eq!(table.len(), 1);
    assert_eq!(table.get(&42), Some(&100));
    assert_eq!(table.get(&999), None);

    let (inserted, _) = table.insert(42, 999).unwrap();
    assert!(!inserted);
    assert_eq!(table.get(&42), Some(&999));
    assert_eq!(table.len(), 1);
}

#[test]
fn test_direct_cuckoo_zero_key() {
    let mut table = direct_simd_cuckoo_table::HashTable::with_capacity(16);

    let (inserted, loc) = table.insert(0, 7u64).unwrap();
    assert!(inserted);
    assert_eq!(loc, (usize::MAX, usize::MAX));
    assert_eq!(table.get(&0), Some(&7));
    assert_eq!(table.len(), 1);

    let (inserted, _) = table.insert(0, 8).unwrap();
    assert!(!inserted);
    assert_eq!(table.get(&0), Some(&8));
    assert_eq!(table.len(), 1);

    assert!(table.insert_and_erase(1234, 5));
    assert_eq!(table.get(&1234), None);
    assert_eq!(table.len(), 1);
}

#[test]
fn test_direct_cuckoo_many() {
    let mut table = direct_simd_cuckoo_table::HashTable::with_capacity(128);

    for i in 0..100u64 {
        let (inserted, _) = table.insert(i, i + 1000).unwrap();
        assert!(inserted);
    }
    assert_eq!(table.len(), 100);
    for i in 0..100u64 {
        assert_eq!(table.get(&i), Some(&(i + 1000)));
    }
    assert_eq!(table.get(&100), None);
}
