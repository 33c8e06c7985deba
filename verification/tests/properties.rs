use std::collections::HashMap;

use hashlab::aligned_cuckoo_table;
use hashlab::direct_simd_cuckoo_table;
use hashlab::direct_simd_quadratic_probing;
use hashlab::fold_hash_fast;
use hashlab::unaligned_cuckoo_table;
use hashlab::uunwrap::UUnwrap;

#[test]
fn test_tiny_capacities_build_valid_empty_tables() {
    for cap in [0usize, 1] {
        let mut a = aligned_cuckoo_table::HashTable::<u64>::with_capacity(cap);
        assert_eq!(a.len(), 0);
        assert_eq!(a.get(&7), None);
        a.insert(7, 70).unwrap();
        assert_eq!(a.get(&7), Some(&70));

        let mut u = unaligned_cuckoo_table::HashTable::<u64>::with_capacity(cap);
        assert_eq!(u.len(), 0);
        assert_eq!(u.get(&7), None);
        u.insert(7, 70).unwrap();
        assert_eq!(u.get(&7), Some(&70));

        let mut d = direct_simd_cuckoo_table::HashTable::<u64>::with_capacity(cap);
        assert_eq!(d.len(), 0);
        assert_eq!(d.get(&7), None);
        d.insert(7, 70).unwrap();
        assert_eq!(d.get(&7), Some(&70));

        let mut q = direct_simd_quadratic_probing::HashTable::<u64>::with_capacity(cap);
        assert_eq!(q.len(), 0);
        assert_eq!(q.get(&7), None);
        q.insert(7, 70).unwrap();
        assert_eq!(q.get(&7), Some(&70));
    }
}

#[test]
fn test_fill_to_seven_eighths_all_variants() {
    let mut a = aligned_cuckoo_table::HashTable::<u64>::with_capacity(64);
    let n = a.bucket_mask + 1;
    for i in 0..(n * 7 / 8) as u64 {
        let (inserted, _, _) = a.insert(i + 1, i).expect("aligned cuckoo insert failed");
        assert!(inserted);
    }
    assert_eq!(a.len(), n * 7 / 8);

    let mut u = unaligned_cuckoo_table::HashTable::<u64>::with_capacity(64);
    let n = u.bucket_mask + 1;
    for i in 0..(n * 7 / 8) as u64 {
        let (inserted, _) = u.insert(i + 1, i).expect("unaligned cuckoo insert failed");
        assert!(inserted);
    }
    assert_eq!(u.len(), n * 7 / 8);

    let mut d = direct_simd_cuckoo_table::HashTable::<u64>::with_capacity(64);
    let lanes = 4 * (d.bucket_mask + 1);
    for i in 0..(lanes * 7 / 8) as u64 {
        let (inserted, _) = d.insert(i + 1, i).expect("direct cuckoo insert failed");
        assert!(inserted);
    }
    assert_eq!(d.len(), lanes * 7 / 8);

    let mut q = direct_simd_quadratic_probing::HashTable::<u64>::with_capacity(64);
    let lanes = 4 * (q.bucket_mask + 1);
    for i in 0..(lanes * 7 / 8) as u64 {
        let (inserted, _, _) = q.insert(i + 1, i).expect("quadratic insert failed");
        assert!(inserted);
    }
    assert_eq!(q.len(), lanes * 7 / 8);
}

#[test]
fn test_full_tag_count_matches_len() {
    let mut table = aligned_cuckoo_table::HashTable::with_capacity(32);
    for i in 1..=20u64 {
        table.insert(i, i).unwrap();
    }
    let (_, idx, _) = table.insert(3, 3).unwrap();
    table.erase_index(idx);
    let (_, idx, _) = table.insert(9, 9).unwrap();
    table.erase_index(idx);

    let full_tags = table.tags.iter().filter(|&&t| t & 0x80 == 0).count();
    assert_eq!(full_tags, table.len());
    assert_eq!(table.len(), 18);
}

#[test]
fn test_erase_and_reinsert() {
    let mut table = aligned_cuckoo_table::HashTable::with_capacity(64);
    for i in 1..=20u64 {
        table.insert(i, i).unwrap();
    }
    for i in (1..=20u64).step_by(2) {
        let (inserted, idx, _) = table.insert(i, i).unwrap();
        assert!(!inserted);
        table.erase_index(idx);
    }
    for i in 1..=20u64 {
        if i % 2 == 0 {
            assert_eq!(table.get(&i), Some(&i));
        } else {
            assert_eq!(table.get(&i), None);
        }
    }
    for i in (1..=20u64).step_by(2) {
        let (inserted, _, _) = table.insert(i, i * 2).unwrap();
        assert!(inserted);
    }
    for i in (1..=20u64).step_by(2) {
        assert_eq!(table.get(&i), Some(&(i * 2)));
    }
    assert_eq!(table.len(), 20);
}

#[test]
fn test_transient_insert_leaves_len_unchanged() {
    let mut table = unaligned_cuckoo_table::HashTable::with_capacity(32);
    for i in 1..=10u64 {
        table.insert(i, i).unwrap();
    }
    assert_eq!(table.len(), 10);

    assert!(table.insert_and_erase(777, 1));
    assert_eq!(table.len(), 10);
    assert_eq!(table.get(&777), None);

    assert!(table.insert_and_erase(5, 500));
    assert_eq!(table.len(), 10);
    assert_eq!(table.get(&5), Some(&500));
}

#[test]
fn test_cross_check_with_erases() {
    let mut rng = fastrand::Rng::with_seed(12345);
    let mut table = aligned_cuckoo_table::HashTable::with_capacity(128);
    let mut reference: HashMap<u64, u64> = HashMap::new();

    for _ in 0..50 {
        match rng.u32(0..3) {
            0 => {
                let key = rng.u64(1..1000);
                let value = rng.u64(..);
                let (inserted, _, _) = table.insert(key, value).unwrap();
                let existed = reference.insert(key, value).is_some();
                assert_eq!(inserted, !existed);
            }
            1 => {
                let key = rng.u64(1..1000);
                assert_eq!(table.get(&key).copied(), reference.get(&key).copied());
            }
            _ => {
                let key = rng.u64(1..1000);
                if let Some(&value) = reference.get(&key) {
                    let (inserted, idx, _) = table.insert(key, value).unwrap();
                    assert!(!inserted);
                    table.erase_index(idx);
                    reference.remove(&key);
                }
                assert_eq!(table.get(&key), None);
            }
        }
        assert_eq!(table.len(), reference.len());
        for (&k, &v) in &reference {
            assert_eq!(table.get(&k), Some(&v));
        }
    }
}

#[test]
fn test_unaligned_windows_wrap_at_table_end() {
    // A small table probed near full load exercises windows that straddle
    // the end of the slot array and rely on the mirrored tags.
    let mut table = unaligned_cuckoo_table::HashTable::with_capacity(8);
    let n = table.bucket_mask + 1;
    let count = (n * 7 / 8) as u64;
    for i in 0..count {
        let key = 0x0101_0101_0101_0101u64.wrapping_mul(i + 1);
        let (inserted, _) = table.insert(key, i).unwrap();
        assert!(inserted);
    }
    for i in 0..count {
        let key = 0x0101_0101_0101_0101u64.wrapping_mul(i + 1);
        assert_eq!(table.get(&key), Some(&i));
        let (inserted, idx) = table.insert(key, i).unwrap();
        assert!(!inserted);
        table.erase_index(idx);
        assert_eq!(table.get(&key), None);
    }
    assert_eq!(table.len(), 0);
}

#[test]
fn test_probe_length_reports_presence() {
    let mut table = aligned_cuckoo_table::HashTable::with_capacity(32);
    for i in 1..=10u64 {
        table.insert(i, i).unwrap();
    }
    for i in 1..=10u64 {
        let (probes, found) = table.probe_length(i);
        assert!(found);
        assert!(probes == 1 || probes == 2);
    }
    let (_, found) = table.probe_length(999);
    assert!(!found);

    let mut q = direct_simd_quadratic_probing::HashTable::with_capacity(32);
    q.insert(0, 1u64).unwrap();
    q.insert(5, 2u64).unwrap();
    assert_eq!(q.probe_length(0), (1, true));
    let (_, found) = q.probe_length(5);
    assert!(found);
    let (_, found) = q.probe_length(6);
    assert!(!found);
}

#[test]
fn test_fold_hash_is_deterministic() {
    let a = fold_hash_fast(0x1234_5678_9abc_def0, 42);
    let b = fold_hash_fast(0x1234_5678_9abc_def0, 42);
    assert_eq!(a, b);
    assert_ne!(fold_hash_fast(0, 0), fold_hash_fast(1, 0));
    assert_eq!(fold_hash_fast(3, 5), fold_hash_fast(3 ^ 5 ^ 5, 5));
}

#[test]
fn test_uunwrap_takes_payload() {
    let some: Option<u64> = Some(17);
    assert_eq!(some.uunwrap(), 17);
    let ok: Result<u64, &str> = Ok(23);
    assert_eq!(ok.uunwrap(), 23);
}

#[test]
fn test_fresh_tables_start_open_with_headroom() {
    let capacity = 20usize;

    let a = aligned_cuckoo_table::HashTable::<u64>::with_capacity(capacity);
    assert!(a.tags.iter().all(|&t| t == 0xFF));
    assert!(8 * capacity <= 7 * (a.bucket_mask + 1));

    let u = unaligned_cuckoo_table::HashTable::<u64>::with_capacity(capacity);
    assert!(u.tags.iter().all(|&t| t == 0xFF));
    assert_eq!(u.tags.len(), u.bucket_mask + 1 + 8);
    assert!(8 * capacity <= 7 * (u.bucket_mask + 1));

    let d = direct_simd_cuckoo_table::HashTable::<u64>::with_capacity(capacity);
    assert!(d.keys.iter().all(|&k| k == 0));
    assert!(8 * capacity <= 7 * (4 * (d.bucket_mask + 1)));

    let l = hashlab::localized_simd_cuckoo_table::HashTable::<u64>::with_capacity(capacity);
    for (i, &t) in l.tags.iter().enumerate() {
        if i % 8 == 7 {
            assert_eq!(t, 0x80);
        } else {
            assert_eq!(t, 0xFF);
        }
    }
    assert!(8 * capacity <= 7 * (8 * (l.bucket_mask + 1)));
}

#[test]
fn test_zero_key_locator_is_sentinel() {
    let mut d = direct_simd_cuckoo_table::HashTable::with_capacity(8);
    assert_eq!(d.insert(0, 1u64), Some((true, (usize::MAX, usize::MAX))));

    let mut q = direct_simd_quadratic_probing::HashTable::with_capacity(8);
    let (inserted, loc, _) = q.insert(0, 1u64).unwrap();
    assert!(inserted);
    assert_eq!(loc, (usize::MAX, usize::MAX));

    let mut s = hashlab::scalar_cuckoo_table::U64HashSet::with_capacity(8);
    assert_eq!(s.insert(0, 1u64), Some((true, usize::MAX)));
}

#[test]
fn test_erased_slot_is_reopened() {
    let mut table = aligned_cuckoo_table::HashTable::with_capacity(16);
    let (inserted, idx, _) = table.insert(7, 70u64).unwrap();
    assert!(inserted);
    assert!(table.tags[idx] & 0x80 == 0);
    table.erase_index(idx);
    assert_eq!(table.tags[idx], 0xFF);

    let mut dh = hashlab::aligned_double_hashing_table::HashTable::with_capacity(16);
    let (inserted, idx) = dh.insert(7, 70u64).unwrap();
    assert!(inserted);
    dh.erase_index(idx);
    assert_eq!(dh.tags[idx], 0x80);
}
