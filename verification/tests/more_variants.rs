use std::collections::HashMap;

use hashlab::aligned_double_hashing_table;
use hashlab::localized_simd_cuckoo_table;
use hashlab::scalar_unaligned_table::U64HashSet;

#[test]
fn localized_simd_cuckoo_table_test_basic_insert_and_get() {
    let mut table = localized_simd_cuckoo_table::HashTable::<u64>::with_capacity(16);

    let keys = [0x1234567890abcdef_u64, 0x9876543210fedcba_u64, 0xdeadbeefcafebabe_u64];

    for &key in &keys {
        table.insert(key, key + 1000).unwrap();
    }

    for &key in &keys {
        let found = table.get(&key);
        assert!(found.is_some(), "Key {:#x} should be found in table", key);
        assert_eq!(*found.unwrap(), key + 1000, "Value should match for key {:#x}", key);
    }
}

#[test]
fn test_localized_update_and_transient() {
    let mut table = localized_simd_cuckoo_table::HashTable::with_capacity(32);

    for i in 1..=20u64 {
        let (inserted, _) = table.insert(i, i * 3).unwrap();
        assert!(inserted);
    }
    assert_eq!(table.len(), 20);

    let (inserted, _) = table.insert(7, 777).unwrap();
    assert!(!inserted);
    assert_eq!(table.get(&7), Some(&777));
    assert_eq!(table.len(), 20);

    assert!(table.insert_and_erase(555, 1));
    assert_eq!(table.get(&555), None);
    assert_eq!(table.len(), 20);
}

#[test]
fn test_localized_fill_buckets() {
    let mut table = localized_simd_cuckoo_table::HashTable::with_capacity(8);
    let usable = 7 * (table.bucket_mask + 1);
    let count = (usable * 7 / 8) as u64;
    for i in 1..=count {
        let (inserted, _) = table.insert(i, i).expect("localized insert failed");
        assert!(inserted);
    }
    for i in 1..=count {
        assert_eq!(table.get(&i), Some(&i));
    }
}

#[test]
fn test_double_hashing_cross_check() {
    let mut table = aligned_double_hashing_table::HashTable::with_capacity(64);
    let mut reference = HashMap::new();
    let mut rng = fastrand::Rng::with_seed(24680);

    for _ in 0..120 {
        match rng.u32(0..4) {
            0 | 1 => {
                let key = rng.u64(1..300);
                let value = rng.u64(..);
                let (inserted, _) = table.insert(key, value).unwrap();
                let existed = reference.insert(key, value).is_some();
                assert_eq!(inserted, !existed);
            }
            2 => {
                let key = rng.u64(1..400);
                assert_eq!(table.get(&key).copied(), reference.get(&key).copied());
            }
            _ => {
                let key = rng.u64(1..300);
                if let Some(&value) = reference.get(&key) {
                    let (inserted, idx) = table.insert(key, value).unwrap();
                    assert!(!inserted);
                    table.erase_index(idx);
                    reference.remove(&key);
                }
                assert_eq!(table.get(&key), None);
            }
        }
        assert_eq!(table.len(), reference.len());
    }
    for (&k, &v) in &reference {
        assert_eq!(table.get(&k), Some(&v));
    }
}

#[test]
fn test_double_hashing_tombstone_reuse() {
    let mut table = aligned_double_hashing_table::HashTable::with_capacity(16);
    for i in 1..=10u64 {
        table.insert(i, i).unwrap();
    }
    for i in 1..=10u64 {
        let (inserted, idx) = table.insert(i, i).unwrap();
        assert!(!inserted);
        table.erase_index(idx);
    }
    assert_eq!(table.len(), 0);
    for i in 11..=20u64 {
        let (inserted, _) = table.insert(i, i * 2).unwrap();
        assert!(inserted);
    }
    assert_eq!(table.len(), 10);
    for i in 1..=10u64 {
        assert_eq!(table.get(&i), None);
    }
    for i in 11..=20u64 {
        assert_eq!(table.get(&i), Some(&(i * 2)));
    }
}

#[test]
fn test_double_hashing_transient_insert() {
    let mut table = aligned_double_hashing_table::HashTable::with_capacity(16);
    table.insert(42, 1u64).unwrap();
    assert!(table.insert_and_erase(43, 2));
    assert_eq!(table.get(&43), None);
    assert_eq!(table.len(), 1);
    assert!(table.insert_and_erase(42, 9));
    assert_eq!(table.get(&42), Some(&9));
    assert_eq!(table.len(), 1);
}

#[test]
fn test_scalar_basic() {
    let mut set = U64HashSet::with_capacity(16);

    let (inserted, _) = set.insert(42, 100u64).unwrap();
    assert!(inserted);
    assert_eq!(set.len(), 1);
    assert_eq!(set.get(&42), Some(&100));
    assert_eq!(set.get(&999), None);

    let (inserted, _) = set.insert(42, 200).unwrap();
    assert!(!inserted);
    assert_eq!(set.get(&42), Some(&200));
    assert_eq!(set.len(), 1);
}

#[test]
fn test_scalar_zero_key_and_fill() {
    let mut set = U64HashSet::with_capacity(16);

    let (inserted, _) = set.insert(0, 5u64).unwrap();
    assert!(inserted);
    assert_eq!(set.get(&0), Some(&5));
    assert_eq!(set.len(), 1);

    for i in 1..=16u64 {
        let (inserted, _) = set.insert(i, i * 7).unwrap();
        assert!(inserted);
    }
    assert_eq!(set.len(), 17);
    for i in 1..=16u64 {
        assert_eq!(set.get(&i), Some(&(i * 7)));
    }
}

#[test]
fn test_scalar_cross_check() {
    let mut set = U64HashSet::with_capacity(64);
    let mut reference = HashMap::new();
    let mut rng = fastrand::Rng::with_seed(9753);

    for _ in 0..150 {
        let key = rng.u64(0..200);
        let value = rng.u64(..);
        let (inserted, _) = set.insert(key, value).unwrap();
        let existed = reference.insert(key, value).is_some();
        assert_eq!(inserted, !existed);
    }
    assert_eq!(set.len(), reference.len());
    for (&k, &v) in &reference {
        assert_eq!(set.get(&k), Some(&v));
    }
    for k in 200..260u64 {
        assert_eq!(set.get(&k), None);
    }
}

#[test]
fn test_scalar_cuckoo_basic() {
    let mut set = hashlab::scalar_cuckoo_table::U64HashSet::with_capacity(16);

    let (inserted, _) = set.insert(42, 100u64).unwrap();
    assert!(inserted);
    assert_eq!(set.len(), 1);
    assert_eq!(set.get(&42), Some(&100));
    assert_eq!(set.get(&999), None);

    let (inserted, _) = set.insert(42, 200).unwrap();
    assert!(!inserted);
    assert_eq!(set.get(&42), Some(&200));
    assert_eq!(set.len(), 1);

    let (inserted, _) = set.insert(0, 7).unwrap();
    assert!(inserted);
    assert_eq!(set.get(&0), Some(&7));
    assert_eq!(set.len(), 2);
}

#[test]
fn test_scalar_cuckoo_cross_check() {
    let mut set = hashlab::scalar_cuckoo_table::U64HashSet::with_capacity(256);
    let mut reference = HashMap::new();
    let mut rng = fastrand::Rng::with_seed(86420);

    for _ in 0..200 {
        let key = rng.u64(1..400);
        let value = rng.u64(..);
        match set.insert(key, value) {
            Some((inserted, _)) => {
                let existed = reference.insert(key, value).is_some();
                assert_eq!(inserted, !existed);
            }
            None => {
                // A failed displacement walk must leave the table unchanged.
                assert_eq!(set.get(&key).copied(), reference.get(&key).copied());
            }
        }
    }
    assert_eq!(set.len(), reference.len());
    for (&k, &v) in &reference {
        assert_eq!(set.get(&k), Some(&v));
    }
}

#[test]
fn test_scalar_cuckoo_transient() {
    let mut set = hashlab::scalar_cuckoo_table::U64HashSet::with_capacity(32);
    for i in 1..=8u64 {
        set.insert(i, i).unwrap();
    }
    assert!(set.insert_and_erase(99, 1));
    assert_eq!(set.get(&99), None);
    assert_eq!(set.len(), 8);
    assert!(set.insert_and_erase(3, 300));
    assert_eq!(set.get(&3), Some(&300));
    assert_eq!(set.len(), 8);
}

#[test]
fn test_balancing_cuckoo_basic() {
    let mut table = hashlab::balancing_cuckoo_table::HashTable::with_capacity(16);

    let (inserted, _) = table.insert(42, 100u64).unwrap();
    assert!(inserted);
    assert_eq!(table.len(), 1);
    assert_eq!(table.get(&42), Some(&100));
    assert_eq!(table.get(&999), None);

    let (inserted, _) = table.insert(42, 999).unwrap();
    assert!(!inserted);
    assert_eq!(table.get(&42), Some(&999));
    assert_eq!(table.len(), 1);
}

#[test]
fn test_balancing_cuckoo_cross_check() {
    let mut table = hashlab::balancing_cuckoo_table::HashTable::with_capacity(128);
    let mut reference = HashMap::new();
    let mut rng = fastrand::Rng::with_seed(31415);

    for _ in 0..150 {
        let key = rng.u64(1..300);
        let value = rng.u64(..);
        match table.insert(key, value) {
            Some((inserted, _)) => {
                let existed = reference.insert(key, value).is_some();
                assert_eq!(inserted, !existed);
            }
            None => {
                assert_eq!(table.get(&key).copied(), reference.get(&key).copied());
            }
        }
    }
    assert_eq!(table.len(), reference.len());
    for (&k, &v) in &reference {
        assert_eq!(table.get(&k), Some(&v));
    }

    // Erase half the keys through the reinsert-then-erase locator.
    let keys: Vec<u64> = reference.keys().copied().collect();
    for (n, &k) in keys.iter().enumerate() {
        if n % 2 == 0 {
            let v = reference[&k];
            let (inserted, idx) = table.insert(k, v).unwrap();
            assert!(!inserted);
            table.erase_index(idx);
            reference.remove(&k);
        }
    }
    assert_eq!(table.len(), reference.len());
    for &k in &keys {
        assert_eq!(table.get(&k).copied(), reference.get(&k).copied());
    }
}

#[test]
fn test_balancing_cuckoo_transient() {
    let mut table = hashlab::balancing_cuckoo_table::HashTable::with_capacity(32);
    for i in 1..=10u64 {
        table.insert(i, i).unwrap();
    }
    assert!(table.insert_and_erase(777, 1));
    assert_eq!(table.get(&777), None);
    assert_eq!(table.len(), 10);
}

#[test]
fn test_cache_line_basic() {
    let mut set = hashlab::scalar_cache_line_aligned_table::U64HashSet::with_capacity(16);

    let (inserted, _) = set.insert(42, 100u64).unwrap();
    assert!(inserted);
    assert_eq!(set.len(), 1);
    assert_eq!(set.get(&42), Some(&100));
    assert_eq!(set.get(&999), None);

    let (inserted, _) = set.insert(42, 200).unwrap();
    assert!(!inserted);
    assert_eq!(set.get(&42), Some(&200));
    assert_eq!(set.len(), 1);

    let (inserted, _) = set.insert(0, 7).unwrap();
    assert!(inserted);
    assert_eq!(set.get(&0), Some(&7));
    assert_eq!(set.len(), 2);
}

#[test]
fn test_cache_line_cross_check() {
    let mut set = hashlab::scalar_cache_line_aligned_table::U64HashSet::with_capacity(64);
    let mut reference = HashMap::new();
    let mut rng = fastrand::Rng::with_seed(27182);

    for _ in 0..150 {
        let key = rng.u64(0..200);
        let value = rng.u64(..);
        let (inserted, _) = set.insert(key, value).unwrap();
        let existed = reference.insert(key, value).is_some();
        assert_eq!(inserted, !existed);
    }
    assert_eq!(set.len(), reference.len());
    for (&k, &v) in &reference {
        assert_eq!(set.get(&k), Some(&v));
    }
    for k in 200..260u64 {
        assert_eq!(set.get(&k), None);
    }
}
