use std::collections::HashMap;

use hashlab::aligned_cuckoo_table::HashTable;

#[test]
fn aligned_cuckoo_table_test_basic_insert_and_get() {
    let mut table = HashTable::with_capacity(16);

    let (inserted, _, _) = table.insert(42, 100).unwrap();
    assert!(inserted);
    assert_eq!(table.len(), 1);

    assert_eq!(table.get(&42), Some(&100));
    assert_eq!(table.get(&999), None);
}

#[test]
fn aligned_cuckoo_table_test_update_existing() {
    let mut table = HashTable::with_capacity(16);

    let (inserted, _, _) = table.insert(123, 456).unwrap();
    assert!(inserted);
    assert_eq!(table.len(), 1);

    let (inserted, _, _) = table.insert(123, 789).unwrap();
    assert!(!inserted);
    assert_eq!(table.len(), 1);

    assert_eq!(table.get(&123), Some(&789));
}

#[test]
fn aligned_cuckoo_table_test_multiple_insertions() {
    let mut table = HashTable::with_capacity(64);

    for i in 1..=20 {
        let (inserted, _, _) = table.insert(i, i * 10).unwrap();
        assert!(inserted);
    }

    assert_eq!(table.len(), 20);

    for i in 1..=20 {
        assert_eq!(table.get(&i), Some(&(i * 10)));
    }
}

#[test]
fn aligned_cuckoo_table_test_cross_check_with_std_hashmap_small() {
    let mut cuckoo_table = HashTable::with_capacity(32);
    let mut std_map = HashMap::new();

    let keys = [1, 5, 10, 15, 20, 25, 30, 35];

    for &key in &keys {
        let value = key * 2;
        cuckoo_table.insert(key, value).unwrap();
        std_map.insert(key, value);
    }

    assert_eq!(cuckoo_table.len(), std_map.len());

    for &key in &keys {
        assert_eq!(cuckoo_table.get(&key).copied(), std_map.get(&key).copied());
    }

    for &key in &[2, 7, 12, 99] {
        assert_eq!(cuckoo_table.get(&key), None);
        assert_eq!(std_map.get(&key), None);
    }
}

#[test]
fn aligned_cuckoo_table_test_randomized_small() {
    let mut rng = fastrand::Rng::with_seed(12345);
    let mut cuckoo_table = HashTable::with_capacity(128);
    let mut std_map = HashMap::new();

    for _ in 0..50 {
        let key = rng.u64(1..1000);
        let value = rng.u64(..);

        let (cuckoo_inserted, _, _) = cuckoo_table.insert(key, value).unwrap();
        let std_existed = std_map.insert(key, value).is_some();

        assert_eq!(cuckoo_inserted, !std_existed);
    }

    assert_eq!(cuckoo_table.len(), std_map.len());

    for &key in std_map.keys() {
        assert_eq!(cuckoo_table.get(&key).copied(), std_map.get(&key).copied());
    }
}

#[test]
fn aligned_cuckoo_table_test_randomized_medium() {
    let mut rng = fastrand::Rng::with_seed(67890);
    let mut cuckoo_table = HashTable::with_capacity(512);
    let mut std_map = HashMap::new();

    for _ in 0..200 {
        let key = rng.u64(1..500);
        let value = rng.u64(..);

        let (cuckoo_inserted, _, _) = cuckoo_table.insert(key, value).unwrap();
        let std_existed = std_map.insert(key, value).is_some();

        assert_eq!(cuckoo_inserted, !std_existed);
    }

    assert_eq!(cuckoo_table.len(), std_map.len());

    for _ in 0..100 {
        let key = rng.u64(1..1000);
        assert_eq!(cuckoo_table.get(&key).copied(), std_map.get(&key).copied());
    }
}

#[test]
fn aligned_cuckoo_table_test_collision_handling() {
    let mut table = HashTable::with_capacity(8);

    let test_keys = [
        0x1000_0000_0000_0001,
        0x2000_0000_0000_0002,
        0x3000_0000_0000_0003,
        0x4000_0000_0000_0004,
        0x5000_0000_0000_0005,
    ];

    for &key in &test_keys {
        let (inserted, _, _) = table.insert(key, key).unwrap();
        assert!(inserted);
    }

    for &key in &test_keys {
        assert_eq!(table.get(&key), Some(&key));
    }
}

#[test]
fn aligned_cuckoo_table_test_capacity_stress() {
    let mut cuckoo_table = HashTable::with_capacity(64);
    let mut std_map = HashMap::new();
    let mut rng = fastrand::Rng::with_seed(42);

    let num_items = 45;

    for _ in 0..num_items {
        let key = loop {
            let k = rng.u64(1..u64::MAX);
            if !std_map.contains_key(&k) {
                break k;
            }
        };
        let value = rng.u64(..);

        cuckoo_table.insert(key, value).unwrap();
        std_map.insert(key, value);
    }

    assert_eq!(cuckoo_table.len(), std_map.len());
    assert_eq!(cuckoo_table.len(), num_items);

    for (&key, &expected_value) in &std_map {
        assert_eq!(cuckoo_table.get(&key), Some(&expected_value));
    }
}

#[test]
fn aligned_cuckoo_table_test_update_pattern() {
    let mut cuckoo_table = HashTable::with_capacity(32);
    let mut std_map = HashMap::new();

    for i in 1..=10 {
        cuckoo_table.insert(i, i).unwrap();
        std_map.insert(i, i);
    }

    for round in 1..=3 {
        for i in 1..=10 {
            let new_value = i * 100 * round;
            let (cuckoo_inserted, _, _) = cuckoo_table.insert(i, new_value).unwrap();
            let std_existed = std_map.insert(i, new_value).is_some();

            assert!(!cuckoo_inserted);
            assert!(std_existed);
        }

        for i in 1..=10 {
            let expected = i * 100 * round;
            assert_eq!(cuckoo_table.get(&i), Some(&expected));
            assert_eq!(std_map.get(&i), Some(&expected));
        }
    }
}

#[test]
fn aligned_cuckoo_table_test_mixed_operations_randomized() {
    let mut rng = fastrand::Rng::with_seed(13579);
    let mut cuckoo_table = HashTable::with_capacity(256);
    let mut std_map = HashMap::new();

    for _ in 0..300 {
        let operation = rng.u32(0..3);

        match operation {
            0 => {
                let key = rng.u64(1..200);
                let value = rng.u64(..);

                let (cuckoo_inserted, _, _) = cuckoo_table.insert(key, value).unwrap();
                let std_existed = std_map.insert(key, value).is_some();
                assert_eq!(cuckoo_inserted, !std_existed);
            }
            1 => {
                if let Some(&key) = std_map.keys().next() {
                    assert_eq!(cuckoo_table.get(&key).copied(), std_map.get(&key).copied());
                }
            }
            2 => {
                let key = rng.u64(1..300);
                assert_eq!(cuckoo_table.get(&key).copied(), std_map.get(&key).copied());
            }
            _ => unreachable!(),
        }
    }

    assert_eq!(cuckoo_table.len(), std_map.len());

    for (&key, &value) in &std_map {
        assert_eq!(cuckoo_table.get(&key), Some(&value));
    }
}
