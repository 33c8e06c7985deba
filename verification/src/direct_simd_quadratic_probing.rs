//! Quadratic probing over buckets of four directly-compared keys: the
//! direct-SIMD layout of the cuckoo variant combined with a triangular probe
//! sequence instead of displacement. The stride over buckets grows by one at
//! each step, which on a power-of-two bucket count visits every bucket.
//!
//! Key zero is the empty-lane sentinel, bound through a separate side slot.
//! A lookup walks the key's probe sequence and may stop at the first bucket
//! with an empty lane: every occupant was placed at the first empty lane of
//! its own sequence, so the buckets before it are full. No operation of this
//! variant reopens a lane except the transient insert-then-erase, which
//! restores the exact prior state.

use vstd::prelude::*;

use crate::control64::{search, BUCKET_SIZE};
use crate::model::{
    slot_key, slot_val, slots_distinct, live_at, table_contains, table_map, count_live,
    lemma_contains_at, lemma_map_update_value, lemma_map_fill, lemma_map_clear,
    lemma_map_all_open, lemma_count_le_len, vec_set,
};
use crate::probe::{is_pow2, lemma_pow2_double, lemma_masked_props};
use crate::rng::{rng_with_seed, rng_u64};
use crate::u64_fold_hash_fast::{spec_fold_hash, fold_hash_fast};

verus! {

/// The bucket visited at step `j` of the triangular probe sequence for a
/// hash `h` over a table whose bucket mask is `m`: start at the masked hash
/// and advance by a stride that grows by one bucket per step.
pub open spec fn probe_pos(h: u64, m: u64, j: int) -> int
    decreases j,
{
    if j <= 0 {
        (h & m) as int
    } else {
        (((probe_pos(h, m, j - 1) + j) as u64) & m) as int
    }
}

/// Every step of the probe sequence stays inside the table.
pub proof fn lemma_probe_pos_range(h: u64, m: u64, j: int)
    requires
        j >= 0,
    ensures
        0 <= probe_pos(h, m, j) <= m,
    decreases j,
{
    if j <= 0 {
        lemma_masked_props(m, h);
    } else {
        lemma_probe_pos_range(h, m, j - 1);
        lemma_masked_props(m, ((probe_pos(h, m, j - 1) + j) as u64));
    }
}

/// Bucket `b` has no empty lane.
pub open spec fn bucket_full(keys: Seq<u64>, b: int) -> bool {
    forall|l: int| 0 <= l < 4 ==> #[trigger] keys[4 * b + l] != 0
}

/// The first `j` buckets of the probe sequence for `h` are all full.
pub open spec fn prefix_full(keys: Seq<u64>, h: u64, m: u64, j: int) -> bool {
    forall|j2: int| 0 <= j2 < j ==> bucket_full(keys, #[trigger] probe_pos(h, m, j2))
}

/// Adding a key to a lane keeps every full bucket full.
pub proof fn lemma_bucket_full_monotone(keys: Seq<u64>, idx: int, key: u64)
    requires
        0 <= idx < keys.len(),
        key != 0,
    ensures
        forall|b: int|
            0 <= b && 4 * b + 4 <= keys.len() && bucket_full(keys, b) ==> bucket_full(
                #[trigger] keys.update(idx, key),
                b,
            ),
{
    assert forall|b: int|
        0 <= b && 4 * b + 4 <= keys.len() && bucket_full(keys, b) implies bucket_full(
        keys.update(idx, key),
        b,
    ) by {
        assert forall|l: int| 0 <= l < 4 implies #[trigger] keys.update(idx, key)[4 * b + l]
            != 0 by {
            if 4 * b + l != idx {
                assert(keys.update(idx, key)[4 * b + l] == keys[4 * b + l]);
            }
        }
    }
}

pub struct HashTable<V: Copy> {
    /// One less than the number of buckets.
    pub bucket_mask: usize,
    /// Four keys per bucket, flattened; zero marks an empty lane.
    pub keys: Vec<u64>,
    /// The entries, one per key lane.
    pub slots: Vec<Option<(u64, V)>>,
    /// The value bound to key zero, which cannot use a key lane.
    pub zero_value: Option<V>,
    /// Number of entries, the zero key's included.
    pub items: usize,
    /// Seed of the hash mixer.
    pub seed: u64,
}

impl<V: Copy> View for HashTable<V> {
    type V = Map<u64, V>;

    /// The table denotes the map from occupied-lane keys to their values,
    /// with the side slot supplying key zero's binding.
    open spec fn view(&self) -> Map<u64, V> {
        match self.zero_value {
            Some(v) => table_map(self.slots@).insert(0u64, v),
            None => table_map(self.slots@),
        }
    }
}

impl<V: Copy> HashTable<V> {
    /// Number of buckets.
    pub open spec fn num_buckets(self) -> int {
        self.bucket_mask as int + 1
    }

    /// Number of key lanes.
    pub open spec fn num_lanes(self) -> int {
        self.slots@.len() as int
    }

    /// The hash of a key under this table's seed.
    pub open spec fn hash_of(self, k: u64) -> u64 {
        spec_fold_hash(k, self.seed)
    }

    /// Lane `i` is where a lookup of key `k` finds it: its bucket is the
    /// first bucket of `k`'s probe sequence with an empty lane, or an earlier
    /// one holding `k` itself; every bucket of the sequence before it is
    /// full, and the step number is at most the bucket mask.
    pub open spec fn reachable(self, i: int, k: u64) -> bool {
        exists|j: int|
            0 <= j <= self.bucket_mask && #[trigger] probe_pos(
                self.hash_of(k),
                self.bucket_mask as u64,
                j,
            ) == i / 4 && prefix_full(self.keys@, self.hash_of(k), self.bucket_mask as u64, j)
    }

    /// Well-formedness: a power-of-two number of four-lane buckets; the key
    /// array shadows the entries, with zero marking the open lanes; occupied
    /// lanes hold distinct nonzero keys reachable along their probe
    /// sequences; `items` counts the entries, the side slot's included.
    pub open spec fn wf(self) -> bool {
        let nb = self.num_buckets();
        &&& self.slots@.len() == 4 * nb
        &&& self.keys@.len() == 4 * nb
        &&& 1 <= nb <= usize::MAX / 8
        &&& is_pow2(nb as u64)
        &&& slots_distinct(self.slots@)
        &&& self.items as int == count_live(self.slots@) + (if self.zero_value is Some {
            1int
        } else {
            0int
        })
        &&& forall|i: int|
            0 <= i < 4 * nb ==> #[trigger] self.keys@[i] == (if self.slots@[i] is Some {
                slot_key(self.slots@, i)
            } else {
                0u64
            })
        &&& forall|i: int|
            0 <= i < 4 * nb && #[trigger] self.slots@[i] is Some ==> slot_key(self.slots@, i) != 0
                && self.reachable(i, slot_key(self.slots@, i))
    }

    /// For a nonzero key the table view agrees with the lane map.
    proof fn lemma_view_nonzero(self, k: u64)
        requires
            k != 0,
        ensures
            self@.contains_key(k) == table_map(self.slots@).contains_key(k),
            table_map(self.slots@).contains_key(k) ==> self@[k] == table_map(self.slots@)[k],
    {
    }

    /// Reachability only depends on the keys, the seed and the geometry, so
    /// it survives changes to the side slot and the entry count.
    proof fn lemma_reachable_stable(pre: Self, post: Self)
        requires
            pre.wf(),
            post.keys@ == pre.keys@,
            post.slots@ == pre.slots@,
            post.seed == pre.seed,
            post.bucket_mask == pre.bucket_mask,
        ensures
            forall|i2: int|
                0 <= i2 < post.num_lanes() && #[trigger] post.slots@[i2] is Some ==> slot_key(
                    post.slots@,
                    i2,
                ) != 0 && post.reachable(i2, slot_key(post.slots@, i2)),
    {
        assert forall|i2: int|
            0 <= i2 < post.num_lanes() && #[trigger] post.slots@[i2] is Some implies slot_key(
            post.slots@,
            i2,
        ) != 0 && post.reachable(i2, slot_key(post.slots@, i2)) by {
            let k2 = slot_key(post.slots@, i2);
            assert(pre.slots@[i2] is Some);
            assert(pre.reachable(i2, k2));
            let jk = choose|jk: int|
                0 <= jk <= pre.bucket_mask && #[trigger] probe_pos(
                    pre.hash_of(k2),
                    pre.bucket_mask as u64,
                    jk,
                ) == i2 / 4 && prefix_full(pre.keys@, pre.hash_of(k2), pre.bucket_mask as u64, jk);
            assert(probe_pos(post.hash_of(k2), post.bucket_mask as u64, jk) == i2 / 4);
            assert(prefix_full(post.keys@, post.hash_of(k2), post.bucket_mask as u64, jk));
            assert(post.reachable(i2, k2));
        }
    }

    /// Key zero never occupies a lane, so the lane map never contains it.
    proof fn lemma_zero_not_in_lanes(self)
        requires
            self.wf(),
        ensures
            !table_contains(self.slots@, 0u64),
            !table_map(self.slots@).contains_key(0u64),
    {
        if table_contains(self.slots@, 0u64) {
            let i = choose|i: int| live_at(self.slots@, i, 0u64);
            assert(self.slots@[i] is Some);
        }
    }

    /// Loads the four keys of bucket `b`.
    fn load_bucket(&self, b: usize) -> (arr: [u64; BUCKET_SIZE])
        requires
            self.wf(),
            b <= self.bucket_mask,
        ensures
            forall|j: int| 0 <= j < 4 ==> arr@[j] == self.keys@[4 * b + j],
    {
        let base = 4 * b;
        [self.keys[base], self.keys[base + 1], self.keys[base + 2], self.keys[base + 3]]
    }

    /// Allocates a table able to hold `capacity` entries at a load factor of
    /// at most seven eighths: the smallest power-of-two number of four-lane
    /// buckets offering at least `capacity * 8 / 7` lanes.
    pub fn with_capacity(capacity: usize) -> (t: Self)
        requires
            capacity <= usize::MAX / 16,
        ensures
            t.wf(),
            t@ == Map::<u64, V>::empty(),
            t.items == 0,
            t.num_lanes() >= capacity,
            8 * capacity <= 7 * t.num_lanes(),
            forall|i: int| 0 <= i < t.num_lanes() ==> t.keys@[i] == 0,
    {
        let target = (capacity * 8 + 6) / 7;
        let mut nb: usize = 1;
        proof {
            crate::probe::lemma_small_pow2();
        }
        while 4 * nb < target
            invariant
                1 <= nb <= usize::MAX / 8,
                target <= usize::MAX / 8,
                is_pow2(nb as u64),
            decreases 2 * target - nb,
        {
            proof {
                lemma_pow2_double(nb as u64);
            }
            nb = nb + nb;
        }
        let n = 4 * nb;
        let mut keys: Vec<u64> = Vec::new();
        let mut slots: Vec<Option<(u64, V)>> = Vec::new();
        let mut i: usize = 0;
        while i < n
            invariant
                i <= n,
                keys@.len() == i,
                slots@.len() == i,
                forall|j: int| 0 <= j < i ==> keys@[j] == 0,
                forall|j: int| 0 <= j < i ==> slots@[j] is None,
            decreases n - i,
        {
            keys.push(0);
            slots.push(None);
            i = i + 1;
        }
        let mut rng = rng_with_seed(123);
        let seed = rng_u64(&mut rng);
        let t = HashTable { bucket_mask: nb - 1, keys, slots, zero_value: None, items: 0, seed };
        proof {
            lemma_map_all_open(t.slots@);
        }
        t
    }

    /// Number of entries in the table: the occupied lanes plus the side
    /// slot, which equals the number of distinct live keys.
    pub fn len(&self) -> (r: usize)
        requires
            self.wf(),
        ensures
            r as int == count_live(self.slots@) + (if self.zero_value is Some {
                1int
            } else {
                0int
            }),
            r as int == self@.dom().len(),
    {
        proof {
            crate::model::lemma_count_is_dom_len(self.slots@);
            self.lemma_zero_not_in_lanes();
            match self.zero_value {
                Some(v) => {
                    assert(self@.dom() =~= table_map(self.slots@).dom().insert(0u64));
                },
                None => {},
            }
        }
        self.items
    }

    /// A probe of key `key` that saw no match in buckets `0..j` of its
    /// sequence, all buckets before `j` full, and either a hole or the end of
    /// the sequence at step `j`, proves the key absent.
    proof fn lemma_absent(self, key: u64, j: int, hole: bool)
        requires
            self.wf(),
            key != 0,
            0 <= j,
            forall|j2: int|
                0 <= j2 < j ==> !bucket_has(
                    self.keys@,
                    #[trigger] probe_pos(self.hash_of(key), self.bucket_mask as u64, j2),
                    key,
                ),
            prefix_full(self.keys@, self.hash_of(key), self.bucket_mask as u64, j),
            hole ==> j <= self.bucket_mask && !bucket_full(
                self.keys@,
                probe_pos(self.hash_of(key), self.bucket_mask as u64, j),
            ) && !bucket_has(
                self.keys@,
                probe_pos(self.hash_of(key), self.bucket_mask as u64, j),
                key,
            ),
            !hole ==> j > self.bucket_mask,
        ensures
            !table_contains(self.slots@, key),
    {
        let h = self.hash_of(key);
        let m = self.bucket_mask as u64;
        if table_contains(self.slots@, key) {
            let i = choose|i: int| live_at(self.slots@, i, key);
            assert(self.slots@[i] is Some);
            assert(self.keys@[i] == key);
            assert(self.reachable(i, key));
            let jk = choose|jk: int|
                0 <= jk <= self.bucket_mask && #[trigger] probe_pos(h, m, jk) == i / 4
                    && prefix_full(self.keys@, h, m, jk);
            let b = i / 4;
            let l = i - 4 * b;
            assert(0 <= l < 4) by (nonlinear_arith)
                requires
                    i >= 0,
                    b == i / 4,
                    l == i - 4 * b,
            ;
            assert(self.keys@[4 * b + l] == key);
            assert(bucket_has(self.keys@, b, key));
            if jk < j {
                assert(!bucket_has(self.keys@, probe_pos(h, m, jk), key));
            } else if hole {
                if jk == j {
                    assert(!bucket_has(self.keys@, probe_pos(h, m, j), key));
                } else {
                    assert(bucket_full(self.keys@, probe_pos(h, m, j)));
                }
            }
        }
    }

    /// Looks up the current value bound to `key`, walking the probe sequence
    /// until a match, a bucket with an empty lane, or the end of the
    /// sequence.
    pub fn get(&self, key: &u64) -> (r: Option<&V>)
        requires
            self.wf(),
        ensures
            match r {
                Some(v) => self@.contains_key(*key) && *v == self@[*key],
                None => !self@.contains_key(*key),
            },
    {
        let k = *key;
        if k == 0 {
            proof {
                self.lemma_zero_not_in_lanes();
            }
            return self.zero_value.as_ref();
        }
        let h = fold_hash_fast(k, self.seed);
        let m64 = self.bucket_mask as u64;
        proof {
            lemma_masked_props(m64, h);
        }
        let mut pos = (h & m64) as usize;
        let mut stride: usize = 0;
        loop
            invariant
                self.wf(),
                k != 0,
                k == *key,
                h == self.hash_of(k),
                m64 == self.bucket_mask as u64,
                stride <= self.bucket_mask,
                pos as int == probe_pos(h, m64, stride as int),
                pos <= self.bucket_mask,
                forall|j2: int|
                    0 <= j2 < stride ==> !bucket_has(
                        self.keys@,
                        #[trigger] probe_pos(h, m64, j2),
                        k,
                    ),
                prefix_full(self.keys@, h, m64, stride as int),
            decreases self.bucket_mask - stride,
        {
            let arr = self.load_bucket(pos);
            match search(k, arr) {
                Some(lane) => {
                    let i = 4 * pos + lane;
                    proof {
                        assert(self.keys@[i as int] == k);
                        assert(self.slots@[i as int] is Some);
                        assert(slot_key(self.slots@, i as int) == k);
                        lemma_contains_at(self.slots@, i as int, k);
                        self.lemma_view_nonzero(k);
                    }
                    match &self.slots[i] {
                        Some(pair) => {
                            return Some(&pair.1);
                        },
                        None => {
                            proof {
                                assert(false);
                            }
                            return None;
                        },
                    }
                },
                None => {},
            }
            proof {
                assert forall|j2: int| 0 <= j2 < 4 implies #[trigger] self.keys@[4 * pos + j2]
                    != k by {
                    assert(arr@[j2] != k);
                }
                assert(!bucket_has(self.keys@, pos as int, k));
            }
            match search(0, arr) {
                Some(lane) => {
                    proof {
                        assert(self.keys@[4 * pos + lane] == 0);
                        assert(!bucket_full(self.keys@, pos as int));
                        self.lemma_absent(k, stride as int, true);
                        self.lemma_view_nonzero(k);
                    }
                    return None;
                },
                None => {},
            }
            proof {
                assert forall|l: int| 0 <= l < 4 implies #[trigger] self.keys@[4 * pos + l]
                    != 0 by {
                    assert(arr@[l] != 0);
                }
                assert(bucket_full(self.keys@, pos as int));
            }
            if stride >= self.bucket_mask {
                proof {
                    assert(prefix_full(self.keys@, h, m64, stride as int + 1));
                    self.lemma_absent(k, stride as int + 1, false);
                    self.lemma_view_nonzero(k);
                }
                return None;
            }
            stride = stride + 1;
            proof {
                lemma_masked_props(m64, ((pos + stride) as u64));
            }
            pos = (((pos as u64) + (stride as u64)) & m64) as usize;
        }
    }

    /// Writes `(key, value)` into the empty lane `i`, reached at step `j` of
    /// the key's probe sequence with every earlier bucket full.
    fn fill_slot(&mut self, i: usize, key: u64, value: V, Ghost(j): Ghost<int>)
        requires
            old(self).wf(),
            i < old(self).num_lanes(),
            old(self).slots@[i as int] is None,
            !table_contains(old(self).slots@, key),
            key != 0,
            0 <= j <= old(self).bucket_mask,
            probe_pos(old(self).hash_of(key), old(self).bucket_mask as u64, j) == i as int / 4,
            prefix_full(old(self).keys@, old(self).hash_of(key), old(self).bucket_mask as u64, j),
        ensures
            final(self).wf(),
            final(self).seed == old(self).seed,
            final(self).bucket_mask == old(self).bucket_mask,
            final(self).zero_value == old(self).zero_value,
            final(self).num_lanes() == old(self).num_lanes(),
            final(self)@ == old(self)@.insert(key, value),
            final(self).items == old(self).items + 1,
            final(self).slots@ == old(self).slots@.update(i as int, Some((key, value))),
            final(self).keys@ == old(self).keys@.update(i as int, key),
            live_at(final(self).slots@, i as int, key),
            slot_val(final(self).slots@, i as int) == value,
    {
        proof {
            lemma_count_le_len(self.slots@);
        }
        let ghost s0 = self.slots@;
        let ghost k0 = self.keys@;
        vec_set(&mut self.keys, i, key);
        vec_set(&mut self.slots, i, Some((key, value)));
        self.items = self.items + 1;
        proof {
            lemma_map_fill(s0, i as int, key, value);
            lemma_bucket_full_monotone(k0, i as int, key);
            let n = self.num_lanes();
            let m = self.bucket_mask as u64;
            assert forall|i2: int|
                0 <= i2 < n implies #[trigger] self.keys@[i2] == (if self.slots@[i2] is Some {
                slot_key(self.slots@, i2)
            } else {
                0u64
            }) by {
                if i2 != i {
                    assert(self.keys@[i2] == k0[i2]);
                    assert(self.slots@[i2] == s0[i2]);
                }
            }
            assert forall|i2: int|
                0 <= i2 < n && #[trigger] self.slots@[i2] is Some implies slot_key(self.slots@, i2)
                != 0 && self.reachable(i2, slot_key(self.slots@, i2)) by {
                let k2 = slot_key(self.slots@, i2);
                let h2 = self.hash_of(k2);
                if i2 != i {
                    assert(self.slots@[i2] == s0[i2]);
                    assert(slot_key(self.slots@, i2) == slot_key(s0, i2));
                    assert(old(self).reachable(i2, k2));
                    let jk = choose|jk: int|
                        0 <= jk <= old(self).bucket_mask && #[trigger] probe_pos(h2, m, jk) == i2
                            / 4 && prefix_full(k0, h2, m, jk);
                    assert forall|j2: int| 0 <= j2 < jk implies bucket_full(
                        self.keys@,
                        #[trigger] probe_pos(h2, m, j2),
                    ) by {
                        assert(bucket_full(k0, probe_pos(h2, m, j2)));
                        lemma_probe_pos_range(h2, m, j2);
                    }
                    assert(probe_pos(h2, m, jk) == i2 / 4);
                    assert(prefix_full(self.keys@, h2, m, jk));
                } else {
                    assert(k2 == key);
                    assert forall|j2: int| 0 <= j2 < j implies bucket_full(
                        self.keys@,
                        #[trigger] probe_pos(h2, m, j2),
                    ) by {
                        assert(bucket_full(k0, probe_pos(h2, m, j2)));
                        lemma_probe_pos_range(h2, m, j2);
                    }
                    assert(prefix_full(self.keys@, h2, m, j));
                    assert(probe_pos(h2, m, j) == i2 / 4);
                }
            }
            match self.zero_value {
                Some(zv) => {
                    assert(self@ =~= old(self)@.insert(key, value));
                },
                None => {},
            }
        }
    }

    /// Overwrites the value of the occupied lane `i`, which holds `key`.
    fn update_slot(&mut self, i: usize, key: u64, value: V)
        requires
            old(self).wf(),
            key != 0,
            live_at(old(self).slots@, i as int, key),
        ensures
            final(self).wf(),
            final(self).seed == old(self).seed,
            final(self).bucket_mask == old(self).bucket_mask,
            final(self).zero_value == old(self).zero_value,
            final(self).num_lanes() == old(self).num_lanes(),
            final(self)@ == old(self)@.insert(key, value),
            old(self)@.contains_key(key),
            final(self).items == old(self).items,
            live_at(final(self).slots@, i as int, key),
            slot_val(final(self).slots@, i as int) == value,
    {
        proof {
            lemma_contains_at(self.slots@, i as int, key);
            self.lemma_view_nonzero(key);
        }
        let ghost s0 = self.slots@;
        vec_set(&mut self.slots, i, Some((key, value)));
        proof {
            lemma_map_update_value(s0, i as int, key, value);
            let n = self.num_lanes();
            assert forall|i2: int|
                0 <= i2 < n implies #[trigger] self.keys@[i2] == (if self.slots@[i2] is Some {
                slot_key(self.slots@, i2)
            } else {
                0u64
            }) by {
                if i2 != i {
                    assert(self.slots@[i2] == s0[i2]);
                } else {
                    assert(slot_key(self.slots@, i2) == slot_key(s0, i2));
                }
            }
            assert forall|i2: int|
                0 <= i2 < n && #[trigger] self.slots@[i2] is Some implies slot_key(self.slots@, i2)
                != 0 && self.reachable(i2, slot_key(self.slots@, i2)) by {
                assert(slot_key(self.slots@, i2) == slot_key(s0, i2));
                if i2 != i {
                    assert(self.slots@[i2] == s0[i2]);
                }
                let k2 = slot_key(self.slots@, i2);
                assert(old(self).slots@[i2] is Some);
                assert(old(self).reachable(i2, k2));
                let m = self.bucket_mask as u64;
                let jk = choose|jk: int|
                    0 <= jk <= old(self).bucket_mask && #[trigger] probe_pos(
                        old(self).hash_of(k2),
                        old(self).bucket_mask as u64,
                        jk,
                    ) == i2 / 4 && prefix_full(
                        old(self).keys@,
                        old(self).hash_of(k2),
                        old(self).bucket_mask as u64,
                        jk,
                    );
                assert(probe_pos(self.hash_of(k2), m, jk) == i2 / 4);
                assert(prefix_full(self.keys@, self.hash_of(k2), m, jk));
                assert(self.reachable(i2, k2));
            }
            match self.zero_value {
                Some(zv) => {
                    assert(self@ =~= old(self)@.insert(key, value));
                },
                None => {},
            }
        }
    }

    /// Inserts `key` bound to `value`, overwriting the value if the key is
    /// already present. On success returns whether the key was newly
    /// installed, a bucket/lane locator (both components are the largest
    /// machine word for the zero key), and the number of buckets probed.
    /// Returns `None`, leaving the table unchanged, when the probe sequence
    /// is exhausted without finding room.
    pub fn insert(&mut self, key: u64, value: V) -> (r: Option<(bool, (usize, usize), usize)>)
        requires
            old(self).wf(),
        ensures
            final(self).wf(),
            final(self).seed == old(self).seed,
            final(self).bucket_mask == old(self).bucket_mask,
            final(self).num_lanes() == old(self).num_lanes(),
            match r {
                Some(t) => {
                    &&& final(self)@ == old(self)@.insert(key, value)
                    &&& t.0 == !old(self)@.contains_key(key)
                    &&& final(self).items as int == old(self).items + (if t.0 {
                        1int
                    } else {
                        0int
                    })
                    &&& t.2 >= 1
                    &&& (key != 0 ==> t.1.0 <= final(self).bucket_mask && t.1.1 < 4 && live_at(
                        final(self).slots@,
                        4 * t.1.0 + t.1.1,
                        key,
                    ) && slot_val(final(self).slots@, 4 * t.1.0 + t.1.1) == value)
                    &&& (key != 0 && t.0 ==> final(self).slots@ == old(self).slots@.update(
                        4 * t.1.0 + t.1.1,
                        Some((key, value)),
                    ) && final(self).keys@ == old(self).keys@.update(4 * t.1.0 + t.1.1, key)
                        && old(self).slots@[4 * t.1.0 + t.1.1] is None
                        && final(self).zero_value == old(self).zero_value)
                    &&& (key == 0 ==> t.1 == (usize::MAX, usize::MAX) && final(self).zero_value
                        == Some(value) && final(self).slots@ == old(self).slots@
                        && final(self).keys@ == old(self).keys@)
                },
                None => {
                    &&& final(self)@ == old(self)@
                    &&& final(self).items == old(self).items
                    &&& !old(self)@.contains_key(key)
                    &&& key != 0
                    &&& final(self).keys@ == old(self).keys@
                    &&& final(self).slots@ == old(self).slots@
                    &&& final(self).zero_value == old(self).zero_value
                    &&& prefix_full(
                        old(self).keys@,
                        old(self).hash_of(key),
                        old(self).bucket_mask as u64,
                        old(self).bucket_mask + 1,
                    )
                },
            },
            old(self)@.contains_key(key) ==> r is Some && !(r->0).0,
            key == 0 ==> r is Some,
    {
        if key == 0 {
            proof {
                self.lemma_zero_not_in_lanes();
            }
            let inserted = self.zero_value.is_none();
            if inserted {
                proof {
                    lemma_count_le_len(self.slots@);
                }
                self.items = self.items + 1;
            }
            self.zero_value = Some(value);
            proof {
                Self::lemma_reachable_stable(*old(self), *self);
                match old(self).zero_value {
                    Some(w) => {
                        assert(self@ =~= old(self)@.insert(0u64, value));
                    },
                    None => {},
                }
            }
            return Some((inserted, (usize::MAX, usize::MAX), 1));
        }
        let h = fold_hash_fast(key, self.seed);
        let m64 = self.bucket_mask as u64;
        proof {
            lemma_masked_props(m64, h);
        }
        let mut pos = (h & m64) as usize;
        let mut stride: usize = 0;
        loop
            invariant
                *self == *old(self),
                self.wf(),
                key != 0,
                h == self.hash_of(key),
                m64 == self.bucket_mask as u64,
                stride <= self.bucket_mask,
                pos as int == probe_pos(h, m64, stride as int),
                pos <= self.bucket_mask,
                forall|j2: int|
                    0 <= j2 < stride ==> !bucket_has(
                        self.keys@,
                        #[trigger] probe_pos(h, m64, j2),
                        key,
                    ),
                prefix_full(self.keys@, h, m64, stride as int),
            decreases self.bucket_mask - stride,
        {
            let arr = self.load_bucket(pos);
            match search(key, arr) {
                Some(lane) => {
                    let i = 4 * pos + lane;
                    proof {
                        assert(self.keys@[i as int] == key);
                        assert(self.slots@[i as int] is Some);
                        assert(slot_key(self.slots@, i as int) == key);
                    }
                    self.update_slot(i, key, value);
                    return Some((false, (pos, lane), stride + 1));
                },
                None => {},
            }
            proof {
                assert forall|j2: int| 0 <= j2 < 4 implies #[trigger] self.keys@[4 * pos + j2]
                    != key by {
                    assert(arr@[j2] != key);
                }
                assert(!bucket_has(self.keys@, pos as int, key));
            }
            match search(0, arr) {
                Some(lane) => {
                    let i = 4 * pos + lane;
                    proof {
                        assert(self.keys@[i as int] == 0);
                        assert(!bucket_full(self.keys@, pos as int));
                        self.lemma_absent(key, stride as int, true);
                        self.lemma_view_nonzero(key);
                        if self.slots@[i as int] is Some {
                            assert(slot_key(self.slots@, i as int) != 0);
                        }
                        assert(i as int / 4 == pos as int) by (nonlinear_arith)
                            requires
                                i as int == 4 * (pos as int) + lane,
                                0 <= lane < 4,
                        ;
                    }
                    self.fill_slot(i, key, value, Ghost(stride as int));
                    return Some((true, (pos, lane), stride + 1));
                },
                None => {},
            }
            proof {
                assert forall|l: int| 0 <= l < 4 implies #[trigger] self.keys@[4 * pos + l]
                    != 0 by {
                    assert(arr@[l] != 0);
                }
                assert(bucket_full(self.keys@, pos as int));
            }
            if stride >= self.bucket_mask {
                proof {
                    assert(prefix_full(self.keys@, h, m64, stride as int + 1));
                    self.lemma_absent(key, stride as int + 1, false);
                    self.lemma_view_nonzero(key);
                }
                return None;
            }
            stride = stride + 1;
            proof {
                lemma_masked_props(m64, ((pos + stride) as u64));
            }
            pos = (((pos as u64) + (stride as u64)) & m64) as usize;
        }
    }

    /// Inserts a key and immediately erases it again when it was newly
    /// installed, restoring the exact prior state; an already-present key
    /// only has its value overwritten. The entry count is unchanged either
    /// way. Returns false, leaving the table unchanged, when the transient
    /// insertion found no room.
    pub fn insert_and_erase(&mut self, key: u64, value: V) -> (r: bool)
        requires
            old(self).wf(),
        ensures
            final(self).wf(),
            final(self).seed == old(self).seed,
            final(self).bucket_mask == old(self).bucket_mask,
            final(self).num_lanes() == old(self).num_lanes(),
            final(self).items == old(self).items,
            old(self)@.contains_key(key) ==> r && final(self)@ == old(self)@.insert(key, value),
            !old(self)@.contains_key(key) ==> final(self)@ == old(self)@,
    {
        let ghost m0 = self@;
        match self.insert(key, value) {
            Some((inserted, (b, lane), _)) => {
                if inserted {
                    if key == 0 {
                        proof {
                            self.lemma_zero_not_in_lanes();
                            assert(old(self).zero_value is None) by {
                                if old(self).zero_value is Some {
                                    assert(m0.contains_key(0u64));
                                }
                            }
                        }
                        self.zero_value = None;
                        self.items = self.items - 1;
                        proof {
                            Self::lemma_reachable_stable(*old(self), *self);
                            assert(self.slots@ == old(self).slots@);
                            assert(self@ == table_map(self.slots@));
                            assert(m0 == table_map(old(self).slots@));
                            assert(self@ =~= m0);
                        }
                    } else {
                        let idx = 4 * b + lane;
                        let ghost s1 = self.slots@;
                        let ghost k1 = self.keys@;
                        proof {
                            assert(live_at(s1, idx as int, key));
                            lemma_map_clear(s1, idx as int, key);
                        }
                        vec_set(&mut self.keys, idx, 0);
                        vec_set(&mut self.slots, idx, None);
                        self.items = self.items - 1;
                        proof {
                            assert(old(self).keys@[idx as int] == 0);
                            assert(self.keys@ =~= old(self).keys@);
                            assert(self.slots@ =~= old(self).slots@);
                            Self::lemma_reachable_stable(*old(self), *self);
                            assert(self@ =~= m0);
                        }
                    }
                }
                true
            },
            None => false,
        }
    }

    /// Reports how many buckets a lookup of `key` inspects before reaching a
    /// verdict, and whether the key is present. The zero key is always
    /// answered from the side slot in one probe.
    pub fn probe_length(&self, key: u64) -> (r: (usize, bool))
        requires
            self.wf(),
        ensures
            r.1 == self@.contains_key(key),
            1 <= r.0 <= self.bucket_mask + 1,
            key == 0 ==> r.0 == 1,
    {
        if key == 0 {
            proof {
                self.lemma_zero_not_in_lanes();
            }
            return (1, self.zero_value.is_some());
        }
        let h = fold_hash_fast(key, self.seed);
        let m64 = self.bucket_mask as u64;
        proof {
            lemma_masked_props(m64, h);
        }
        let mut pos = (h & m64) as usize;
        let mut stride: usize = 0;
        loop
            invariant
                self.wf(),
                key != 0,
                h == self.hash_of(key),
                m64 == self.bucket_mask as u64,
                stride <= self.bucket_mask,
                pos as int == probe_pos(h, m64, stride as int),
                pos <= self.bucket_mask,
                forall|j2: int|
                    0 <= j2 < stride ==> !bucket_has(
                        self.keys@,
                        #[trigger] probe_pos(h, m64, j2),
                        key,
                    ),
                prefix_full(self.keys@, h, m64, stride as int),
            decreases self.bucket_mask - stride,
        {
            let arr = self.load_bucket(pos);
            match search(key, arr) {
                Some(lane) => {
                    let i = 4 * pos + lane;
                    proof {
                        assert(self.keys@[i as int] == key);
                        assert(self.slots@[i as int] is Some);
                        assert(slot_key(self.slots@, i as int) == key);
                        lemma_contains_at(self.slots@, i as int, key);
                        self.lemma_view_nonzero(key);
                    }
                    return (stride + 1, true);
                },
                None => {},
            }
            proof {
                assert forall|j2: int| 0 <= j2 < 4 implies #[trigger] self.keys@[4 * pos + j2]
                    != key by {
                    assert(arr@[j2] != key);
                }
                assert(!bucket_has(self.keys@, pos as int, key));
            }
            match search(0, arr) {
                Some(lane) => {
                    proof {
                        assert(self.keys@[4 * pos + lane] == 0);
                        assert(!bucket_full(self.keys@, pos as int));
                        self.lemma_absent(key, stride as int, true);
                        self.lemma_view_nonzero(key);
                    }
                    return (stride + 1, false);
                },
                None => {},
            }
            proof {
                assert forall|l: int| 0 <= l < 4 implies #[trigger] self.keys@[4 * pos + l]
                    != 0 by {
                    assert(arr@[l] != 0);
                }
                assert(bucket_full(self.keys@, pos as int));
            }
            if stride >= self.bucket_mask {
                proof {
                    assert(prefix_full(self.keys@, h, m64, stride as int + 1));
                    self.lemma_absent(key, stride as int + 1, false);
                    self.lemma_view_nonzero(key);
                }
                return (stride + 1, false);
            }
            stride = stride + 1;
            proof {
                lemma_masked_props(m64, ((pos + stride) as u64));
            }
            pos = (((pos as u64) + (stride as u64)) & m64) as usize;
        }
    }
}

/// Bucket `b` holds `key` in some lane.
pub open spec fn bucket_has(keys: Seq<u64>, b: int, key: u64) -> bool {
    exists|l: int| 0 <= l < 4 && #[trigger] keys[4 * b + l] == key
}

} // verus!
