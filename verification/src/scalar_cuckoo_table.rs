//! A dense scalar cuckoo table: no metadata plane, just the keys themselves.
//! Each key has four candidate slots — two windows of two adjacent slots,
//! derived from the two halves of its hash. Key zero is the empty sentinel,
//! bound through a separate side slot.
//!
//! Insertion into a full neighbourhood displaces a pseudo-randomly chosen
//! occupant (a random walk, rather than the breadth-first search of the wider
//! tables) and re-places it, for a bounded number of steps. Every displacement
//! is recorded, and a walk that exhausts its budget is unwound step by step,
//! leaving the table exactly as it was.

use vstd::prelude::*;

use crate::model::{
    slot_key, slot_val, slots_distinct, live_at, table_contains, table_map, count_live,
    lemma_contains_at, lemma_map_update_value, lemma_map_fill, lemma_map_clear,
    lemma_map_all_open, lemma_count_le_len, vec_set,
};
use crate::probe::{
    is_pow2, spec_rotl32, rotl32, lemma_pow2_double, lemma_masked_props, lemma_mask_wrap_wide,
};
use crate::rng::{rng_with_seed, rng_u64, rng_usize};
use crate::u64_fold_hash_fast::{spec_fold_hash, fold_hash_fast};

verus! {

/// The slot one past `p`, wrapping around a table of `n` slots.
pub open spec fn next_slot(p: int, n: int) -> int {
    if p + 1 < n {
        p + 1
    } else {
        p + 1 - n
    }
}

pub struct U64HashSet<V: Copy> {
    /// One less than the number of slots.
    pub bucket_mask: usize,
    /// The keys, one per slot; zero marks an empty slot.
    pub keys: Vec<u64>,
    /// The entries, one per slot.
    pub slots: Vec<Option<(u64, V)>>,
    /// The value bound to key zero, which cannot use a slot.
    pub zero_value: Option<V>,
    /// Number of entries, the zero key's included.
    pub items: usize,
    /// Seed of the hash mixer.
    pub seed: u64,
    /// Source of eviction choices during displacement walks.
    pub rng: fastrand::Rng,
}

impl<V: Copy> View for U64HashSet<V> {
    type V = Map<u64, V>;

    /// The table denotes the map from occupied-slot keys to their values,
    /// with the side slot supplying key zero's binding.
    open spec fn view(&self) -> Map<u64, V> {
        match self.zero_value {
            Some(v) => table_map(self.slots@).insert(0u64, v),
            None => table_map(self.slots@),
        }
    }
}

impl<V: Copy> U64HashSet<V> {
    /// Number of slots.
    pub open spec fn num_buckets(self) -> int {
        self.bucket_mask as int + 1
    }

    /// The hash of a key under this table's seed.
    pub open spec fn hash_of(self, k: u64) -> u64 {
        spec_fold_hash(k, self.seed)
    }

    /// The candidate slot `l` of key `k`: the masked hash and its rotation
    /// each open a window of two adjacent slots.
    pub open spec fn cand(self, k: u64, l: int) -> int {
        let m = self.bucket_mask as u64;
        let n = self.num_buckets();
        let w0 = (self.hash_of(k) & m) as int;
        let w1 = (spec_rotl32(self.hash_of(k)) & m) as int;
        if l == 0 {
            w0
        } else if l == 1 {
            next_slot(w0, n)
        } else if l == 2 {
            w1
        } else {
            next_slot(w1, n)
        }
    }

    /// Slot `i` is one of the key's four candidate slots.
    pub open spec fn in_windows(self, i: int, k: u64) -> bool {
        i == self.cand(k, 0) || i == self.cand(k, 1) || i == self.cand(k, 2) || i == self.cand(
            k,
            3,
        )
    }

    /// Well-formedness: a power-of-two slot count of at least one window; the
    /// key array shadows the entries, with zero marking the empty slots;
    /// occupied slots hold distinct nonzero keys sitting in one of their four
    /// candidate slots; `items` counts the entries, the side slot's included.
    pub open spec fn wf(self) -> bool {
        let n = self.num_buckets();
        &&& self.slots@.len() == n
        &&& self.keys@.len() == n
        &&& 4 <= n <= usize::MAX / 4
        &&& is_pow2(n as u64)
        &&& slots_distinct(self.slots@)
        &&& self.items as int == count_live(self.slots@) + (if self.zero_value is Some {
            1int
        } else {
            0int
        })
        &&& forall|i: int|
            0 <= i < n ==> #[trigger] self.keys@[i] == (if self.slots@[i] is Some {
                slot_key(self.slots@, i)
            } else {
                0u64
            })
        &&& forall|i: int|
            0 <= i < n && #[trigger] self.slots@[i] is Some ==> slot_key(self.slots@, i) != 0
                && self.in_windows(i, slot_key(self.slots@, i))
    }

    /// Key zero never occupies a slot, so the slot map never contains it.
    proof fn lemma_zero_not_in_slots(self)
        requires
            self.wf(),
        ensures
            !table_contains(self.slots@, 0u64),
            !table_map(self.slots@).contains_key(0u64),
    {
        if table_contains(self.slots@, 0u64) {
            let i = choose|i: int| live_at(self.slots@, i, 0u64);
            assert(self.slots@[i] is Some);
        }
    }

    /// Computes the four candidate slots of a key.
    fn cands(&self, k: u64) -> (r: (usize, usize, usize, usize))
        requires
            self.wf(),
        ensures
            r.0 as int == self.cand(k, 0),
            r.1 as int == self.cand(k, 1),
            r.2 as int == self.cand(k, 2),
            r.3 as int == self.cand(k, 3),
            r.0 < self.num_buckets(),
            r.1 < self.num_buckets(),
            r.2 < self.num_buckets(),
            r.3 < self.num_buckets(),
    {
        let h = fold_hash_fast(k, self.seed);
        let m = self.bucket_mask as u64;
        proof {
            lemma_masked_props(m, h);
            lemma_masked_props(m, spec_rotl32(h));
        }
        let w0 = (h & m) as usize;
        let w1 = (rotl32(h) & m) as usize;
        proof {
            lemma_mask_wrap_wide(self.num_buckets() as u64, w0 as u64, 1);
            lemma_mask_wrap_wide(self.num_buckets() as u64, w1 as u64, 1);
        }
        let w0b = (((w0 as u64) + 1) & m) as usize;
        let w1b = (((w1 as u64) + 1) & m) as usize;
        (w0, w0b, w1, w1b)
    }

    /// Allocates a table able to hold `capacity` entries: the smallest power
    /// of two, not below one window pair, at least `capacity * 8 / 7`.
    pub fn with_capacity(capacity: usize) -> (t: Self)
        requires
            capacity <= usize::MAX / 16,
        ensures
            t.wf(),
            t@ == Map::<u64, V>::empty(),
            t.items == 0,
            t.num_buckets() >= capacity,
            8 * capacity <= 7 * t.num_buckets(),
            forall|i: int| 0 <= i < t.num_buckets() ==> t.keys@[i] == 0,
    {
        let target = (capacity * 8 + 6) / 7;
        let mut n: usize = 4;
        proof {
            crate::probe::lemma_small_pow2();
        }
        while n < target
            invariant
                4 <= n <= usize::MAX / 4,
                target <= usize::MAX / 8,
                is_pow2(n as u64),
            decreases 2 * target - n,
        {
            proof {
                lemma_pow2_double(n as u64);
            }
            n = n + n;
        }
        let mut keys: Vec<u64> = Vec::new();
        let mut slots: Vec<Option<(u64, V)>> = Vec::new();
        let mut i: usize = 0;
        while i < n
            invariant
                i <= n,
                keys@.len() == i,
                slots@.len() == i,
                forall|j: int| 0 <= j < i ==> keys@[j] == 0,
                forall|j: int| 0 <= j < i ==> slots@[j] is None,
            decreases n - i,
        {
            keys.push(0);
            slots.push(None);
            i = i + 1;
        }
        let mut rng = rng_with_seed(123);
        let seed = rng_u64(&mut rng);
        let t = U64HashSet {
            bucket_mask: n - 1,
            keys,
            slots,
            zero_value: None,
            items: 0,
            seed,
            rng: rng_with_seed(123),
        };
        proof {
            lemma_map_all_open(t.slots@);
        }
        t
    }

    /// Number of entries in the table: the occupied slots plus the side
    /// slot, which equals the number of distinct live keys.
    pub fn len(&self) -> (r: usize)
        requires
            self.wf(),
        ensures
            r as int == count_live(self.slots@) + (if self.zero_value is Some {
                1int
            } else {
                0int
            }),
            r as int == self@.dom().len(),
    {
        proof {
            crate::model::lemma_count_is_dom_len(self.slots@);
            self.lemma_zero_not_in_slots();
            match self.zero_value {
                Some(v) => {
                    assert(self@.dom() =~= table_map(self.slots@).dom().insert(0u64));
                },
                None => {},
            }
        }
        self.items
    }

    /// If none of the four candidate slots of the nonzero key holds it, the
    /// slot map does not contain it.
    proof fn lemma_absent(self, key: u64)
        requires
            self.wf(),
            key != 0,
            forall|l: int| 0 <= l < 4 ==> self.keys@[#[trigger] self.cand(key, l)] != key,
            forall|l: int| 0 <= l < 4 ==> 0 <= #[trigger] self.cand(key, l) < self.num_buckets(),
        ensures
            !table_contains(self.slots@, key),
    {
        if table_contains(self.slots@, key) {
            let i = choose|i: int| live_at(self.slots@, i, key);
            assert(self.slots@[i] is Some);
            assert(self.keys@[i] == key);
            assert(self.in_windows(i, key));
            assert(self.keys@[self.cand(key, 0)] != key);
            assert(self.keys@[self.cand(key, 1)] != key);
            assert(self.keys@[self.cand(key, 2)] != key);
            assert(self.keys@[self.cand(key, 3)] != key);
        }
    }

    /// For a nonzero key the table view agrees with the slot map.
    proof fn lemma_view_nonzero(self, k: u64)
        requires
            k != 0,
        ensures
            self@.contains_key(k) == table_map(self.slots@).contains_key(k),
            table_map(self.slots@).contains_key(k) ==> self@[k] == table_map(self.slots@)[k],
    {
    }

    /// Looks up the current value bound to `key` in its four candidate slots.
    pub fn get(&self, key: &u64) -> (r: Option<&V>)
        requires
            self.wf(),
        ensures
            match r {
                Some(v) => self@.contains_key(*key) && *v == self@[*key],
                None => !self@.contains_key(*key),
            },
    {
        let k = *key;
        if k == 0 {
            proof {
                self.lemma_zero_not_in_slots();
            }
            return self.zero_value.as_ref();
        }
        let (w0, w1, w2, w3) = self.cands(k);
        let cands = [w0, w1, w2, w3];
        let mut l: usize = 0;
        while l < 4
            invariant
                self.wf(),
                k != 0,
                k == *key,
                cands@[0] as int == self.cand(k, 0),
                cands@[1] as int == self.cand(k, 1),
                cands@[2] as int == self.cand(k, 2),
                cands@[3] as int == self.cand(k, 3),
                forall|l2: int| 0 <= l2 < 4 ==> (#[trigger] cands@[l2]) < self.num_buckets(),
                l <= 4,
                forall|l2: int| 0 <= l2 < l ==> self.keys@[#[trigger] self.cand(k, l2)] != k,
            decreases 4 - l,
        {
            let pos = cands[l];
            if self.keys[pos] == k {
                proof {
                    assert(self.slots@[pos as int] is Some);
                    assert(slot_key(self.slots@, pos as int) == k);
                    lemma_contains_at(self.slots@, pos as int, k);
                    self.lemma_view_nonzero(k);
                }
                match &self.slots[pos] {
                    Some(pair) => {
                        return Some(&pair.1);
                    },
                    None => {
                        proof {
                            assert(false);
                        }
                        return None;
                    },
                }
            }
            l = l + 1;
        }
        proof {
            self.lemma_absent(k);
            self.lemma_view_nonzero(k);
        }
        None
    }

    /// Writes `(key, value)` into the empty slot `i`, one of the key's four
    /// candidate slots.
    fn fill_slot(&mut self, i: usize, key: u64, value: V)
        requires
            old(self).wf(),
            i < old(self).num_buckets(),
            old(self).slots@[i as int] is None,
            !table_contains(old(self).slots@, key),
            key != 0,
            old(self).in_windows(i as int, key),
        ensures
            final(self).wf(),
            final(self).seed == old(self).seed,
            final(self).bucket_mask == old(self).bucket_mask,
            final(self).zero_value == old(self).zero_value,
            final(self).rng == old(self).rng,
            final(self).num_buckets() == old(self).num_buckets(),
            final(self)@ == old(self)@.insert(key, value),
            table_map(final(self).slots@) == table_map(old(self).slots@).insert(key, value),
            final(self).items == old(self).items + 1,
            live_at(final(self).slots@, i as int, key),
            slot_val(final(self).slots@, i as int) == value,
            final(self).slots@ == old(self).slots@.update(i as int, Some((key, value))),
    {
        proof {
            lemma_count_le_len(self.slots@);
        }
        let ghost s0 = self.slots@;
        let ghost k0 = self.keys@;
        vec_set(&mut self.keys, i, key);
        vec_set(&mut self.slots, i, Some((key, value)));
        self.items = self.items + 1;
        proof {
            lemma_map_fill(s0, i as int, key, value);
            let n = self.num_buckets();
            assert forall|i2: int|
                0 <= i2 < n implies #[trigger] self.keys@[i2] == (if self.slots@[i2] is Some {
                slot_key(self.slots@, i2)
            } else {
                0u64
            }) by {
                if i2 != i {
                    assert(self.keys@[i2] == k0[i2]);
                    assert(self.slots@[i2] == s0[i2]);
                }
            }
            assert forall|i2: int|
                0 <= i2 < n && #[trigger] self.slots@[i2] is Some implies slot_key(self.slots@, i2)
                != 0 && self.in_windows(i2, slot_key(self.slots@, i2)) by {
                if i2 != i {
                    assert(self.slots@[i2] == s0[i2]);
                    assert(slot_key(self.slots@, i2) == slot_key(s0, i2));
                }
            }
            match self.zero_value {
                Some(zv) => {
                    assert(self@ =~= old(self)@.insert(key, value));
                },
                None => {},
            }
        }
    }

    /// Overwrites the value of the occupied slot `i`, which holds `key`.
    fn update_slot(&mut self, i: usize, key: u64, value: V)
        requires
            old(self).wf(),
            key != 0,
            live_at(old(self).slots@, i as int, key),
        ensures
            final(self).wf(),
            final(self).seed == old(self).seed,
            final(self).bucket_mask == old(self).bucket_mask,
            final(self).zero_value == old(self).zero_value,
            final(self).num_buckets() == old(self).num_buckets(),
            final(self)@ == old(self)@.insert(key, value),
            old(self)@.contains_key(key),
            final(self).items == old(self).items,
            live_at(final(self).slots@, i as int, key),
            slot_val(final(self).slots@, i as int) == value,
    {
        proof {
            lemma_contains_at(self.slots@, i as int, key);
            self.lemma_view_nonzero(key);
        }
        let ghost s0 = self.slots@;
        vec_set(&mut self.slots, i, Some((key, value)));
        proof {
            lemma_map_update_value(s0, i as int, key, value);
            let n = self.num_buckets();
            assert forall|i2: int|
                0 <= i2 < n implies #[trigger] self.keys@[i2] == (if self.slots@[i2] is Some {
                slot_key(self.slots@, i2)
            } else {
                0u64
            }) by {
                if i2 != i {
                    assert(self.slots@[i2] == s0[i2]);
                } else {
                    assert(slot_key(self.slots@, i2) == slot_key(s0, i2));
                }
            }
            assert forall|i2: int|
                0 <= i2 < n && #[trigger] self.slots@[i2] is Some implies slot_key(self.slots@, i2)
                != 0 && self.in_windows(i2, slot_key(self.slots@, i2)) by {
                assert(slot_key(self.slots@, i2) == slot_key(s0, i2));
                if i2 != i {
                    assert(self.slots@[i2] == s0[i2]);
                }
                assert(old(self).slots@[i2] is Some);
            }
            match self.zero_value {
                Some(zv) => {
                    assert(self@ =~= old(self)@.insert(key, value));
                },
                None => {},
            }
        }
    }

    /// Looks for an empty slot among the four candidates of `k` and fills it
    /// with `(k, v)`.
    fn try_place(&mut self, k: u64, v: V) -> (r: Option<usize>)
        requires
            old(self).wf(),
            k != 0,
            !table_contains(old(self).slots@, k),
        ensures
            final(self).wf(),
            final(self).seed == old(self).seed,
            final(self).bucket_mask == old(self).bucket_mask,
            final(self).zero_value == old(self).zero_value,
            final(self).rng == old(self).rng,
            final(self).num_buckets() == old(self).num_buckets(),
            match r {
                Some(i) => {
                    &&& table_map(final(self).slots@) == table_map(old(self).slots@).insert(k, v)
                    &&& final(self)@ == old(self)@.insert(k, v)
                    &&& final(self).items == old(self).items + 1
                    &&& i < final(self).num_buckets()
                    &&& live_at(final(self).slots@, i as int, k)
                    &&& slot_val(final(self).slots@, i as int) == v
                    &&& final(self).slots@ == old(self).slots@.update(i as int, Some((k, v)))
                    &&& old(self).slots@[i as int] is None
                },
                None => {
                    &&& *final(self) == *old(self)
                    &&& forall|l: int|
                        0 <= l < 4 ==> final(self).keys@[#[trigger] final(self).cand(k, l)] != 0
                },
            },
    {
        let (w0, w1, w2, w3) = self.cands(k);
        if self.keys[w0] == 0 {
            proof {
                if self.slots@[w0 as int] is Some {
                    assert(slot_key(self.slots@, w0 as int) != 0);
                }
            }
            self.fill_slot(w0, k, v);
            return Some(w0);
        }
        if self.keys[w1] == 0 {
            proof {
                if self.slots@[w1 as int] is Some {
                    assert(slot_key(self.slots@, w1 as int) != 0);
                }
            }
            self.fill_slot(w1, k, v);
            return Some(w1);
        }
        if self.keys[w2] == 0 {
            proof {
                if self.slots@[w2 as int] is Some {
                    assert(slot_key(self.slots@, w2 as int) != 0);
                }
            }
            self.fill_slot(w2, k, v);
            return Some(w2);
        }
        if self.keys[w3] == 0 {
            proof {
                if self.slots@[w3 as int] is Some {
                    assert(slot_key(self.slots@, w3 as int) != 0);
                }
            }
            self.fill_slot(w3, k, v);
            return Some(w3);
        }
        None
    }

    /// Inserts `key` bound to `value`, overwriting the value if the key is
    /// already present. A fresh key with no empty candidate slot displaces a
    /// pseudo-randomly chosen occupant and re-places it, walking for at most
    /// one step per table slot; a walk that exhausts its budget is unwound,
    /// the table is left unchanged, and `None` is returned.
    pub fn insert(&mut self, key: u64, value: V) -> (r: Option<(bool, usize)>)
        requires
            old(self).wf(),
        ensures
            final(self).wf(),
            final(self).seed == old(self).seed,
            final(self).bucket_mask == old(self).bucket_mask,
            final(self).num_buckets() == old(self).num_buckets(),
            match r {
                Some(t) => {
                    &&& final(self)@ == old(self)@.insert(key, value)
                    &&& t.0 == !old(self)@.contains_key(key)
                    &&& final(self).items as int == old(self).items + (if t.0 {
                        1int
                    } else {
                        0int
                    })
                    &&& (key != 0 ==> t.1 < final(self).num_buckets() && live_at(
                        final(self).slots@,
                        t.1 as int,
                        key,
                    ) && slot_val(final(self).slots@, t.1 as int) == value)
                    &&& (key == 0 ==> t.1 == usize::MAX && final(self).slots@ == old(self).slots@
                        && final(self).keys@ == old(self).keys@ && final(self).zero_value == Some(
                        value,
                    ))
                },
                None => {
                    &&& final(self)@ == old(self)@
                    &&& final(self).items == old(self).items
                    &&& !old(self)@.contains_key(key)
                    &&& key != 0
                    &&& final(self).keys@ == old(self).keys@
                    &&& final(self).slots@ == old(self).slots@
                    &&& final(self).zero_value == old(self).zero_value
                },
            },
            old(self)@.contains_key(key) ==> r is Some && !(r->0).0,
            key == 0 ==> r is Some,
            (!old(self)@.contains_key(key) && key != 0 && (exists|l: int|
                0 <= l < 4 && old(self).keys@[#[trigger] old(self).cand(key, l)] == 0)) ==> r
                is Some,
    {
        if key == 0 {
            proof {
                self.lemma_zero_not_in_slots();
            }
            let inserted = self.zero_value.is_none();
            if inserted {
                proof {
                    lemma_count_le_len(self.slots@);
                }
                self.items = self.items + 1;
            }
            self.zero_value = Some(value);
            proof {
                match old(self).zero_value {
                    Some(w) => {
                        assert(self@ =~= old(self)@.insert(0u64, value));
                    },
                    None => {},
                }
            }
            return Some((inserted, usize::MAX));
        }
        let (w0, w1, w2, w3) = self.cands(key);
        let cands = [w0, w1, w2, w3];
        let mut l: usize = 0;
        while l < 4
            invariant
                *self == *old(self),
                self.wf(),
                key != 0,
                cands@[0] as int == self.cand(key, 0),
                cands@[1] as int == self.cand(key, 1),
                cands@[2] as int == self.cand(key, 2),
                cands@[3] as int == self.cand(key, 3),
                forall|l2: int| 0 <= l2 < 4 ==> (#[trigger] cands@[l2]) < self.num_buckets(),
                l <= 4,
                forall|l2: int| 0 <= l2 < l ==> self.keys@[#[trigger] self.cand(key, l2)] != key,
            decreases 4 - l,
        {
            let pos = cands[l];
            if self.keys[pos] == key {
                proof {
                    assert(self.slots@[pos as int] is Some);
                    assert(slot_key(self.slots@, pos as int) == key);
                    lemma_contains_at(self.slots@, pos as int, key);
                    self.lemma_view_nonzero(key);
                }
                self.update_slot(pos, key, value);
                return Some((false, pos));
            }
            l = l + 1;
        }
        proof {
            self.lemma_absent(key);
            self.lemma_view_nonzero(key);
        }
        self.insert_walk(key, value)
    }

    /// Places a fresh nonzero key by a bounded random walk of displacements,
    /// unwinding every displacement if the budget runs out.
    fn insert_walk(&mut self, key: u64, value: V) -> (r: Option<(bool, usize)>)
        requires
            old(self).wf(),
            key != 0,
            !table_contains(old(self).slots@, key),
        ensures
            final(self).wf(),
            final(self).seed == old(self).seed,
            final(self).bucket_mask == old(self).bucket_mask,
            final(self).num_buckets() == old(self).num_buckets(),
            match r {
                Some(t) => {
                    &&& t.0
                    &&& final(self)@ == old(self)@.insert(key, value)
                    &&& final(self).items as int == old(self).items + 1
                    &&& t.1 < final(self).num_buckets() && live_at(
                        final(self).slots@,
                        t.1 as int,
                        key,
                    ) && slot_val(final(self).slots@, t.1 as int) == value
                },
                None => {
                    &&& final(self)@ == old(self)@
                    &&& final(self).items == old(self).items
                    &&& final(self).keys@ == old(self).keys@
                    &&& final(self).slots@ == old(self).slots@
                    &&& final(self).zero_value == old(self).zero_value
                },
            },
            (exists|l: int|
                0 <= l < 4 && old(self).keys@[#[trigger] old(self).cand(key, l)] == 0) ==> r
                is Some,
    {
        // A free candidate slot, if any, takes the key without displacement.
        match self.try_place(key, value) {
            Some(i) => {
                return Some((true, i));
            },
            None => {},
        }
        proof {
            assert(forall|l: int|
                0 <= l < 4 ==> old(self).keys@[#[trigger] old(self).cand(key, l)] != 0);
        }
        let budget = self.bucket_mask + 1;
        let mut hand_k = key;
        let mut hand_v = value;
        let mut key_slot: usize = 0;
        let mut log: Vec<(usize, u64, Option<(u64, V)>)> = Vec::new();
        let ghost orig_keys = self.keys@;
        let ghost orig_slots = self.slots@;
        let ghost m0 = table_map(old(self).slots@);
        let ghost mut snaps: Seq<(Seq<u64>, Seq<Option<(u64, V)>>)> = seq![
            (self.keys@, self.slots@),
        ];
        let mut steps: usize = 0;
        loop
            invariant_except_break
                self.wf(),
                self.seed == old(self).seed,
                self.bucket_mask == old(self).bucket_mask,
                self.zero_value == old(self).zero_value,
                self.num_buckets() == old(self).num_buckets(),
                self.items == old(self).items,
                key != 0,
                hand_k != 0,
                !table_contains(self.slots@, hand_k),
                hand_k != key ==> key_slot < self.num_buckets() && live_at(
                    self.slots@,
                    key_slot as int,
                    key,
                ) && slot_val(self.slots@, key_slot as int) == value,
                hand_k == key ==> hand_v == value,
                table_map(self.slots@).insert(hand_k, hand_v) == m0.insert(key, value),
                m0 == table_map(old(self).slots@),
                !m0.contains_key(key),
                orig_keys == old(self).keys@,
                orig_slots == old(self).slots@,
                budget == self.num_buckets(),
                steps <= budget,
                steps == log.len(),
                snaps.len() == log.len() + 1,
                snaps[0] == (orig_keys, orig_slots),
                (self.keys@, self.slots@) == snaps[snaps.len() - 1],
                forall|q: int|
                    0 <= q < log.len() ==> (#[trigger] log@[q]).0 < self.num_buckets()
                        && snaps[q].0 == snaps[q + 1].0.update(log@[q].0 as int, log@[q].1)
                        && snaps[q].1 == snaps[q + 1].1.update(log@[q].0 as int, log@[q].2),
            ensures
                self.seed == old(self).seed,
                self.bucket_mask == old(self).bucket_mask,
                self.zero_value == old(self).zero_value,
                self.num_buckets() == old(self).num_buckets(),
                self.items == old(self).items,
                self.keys@.len() == self.num_buckets(),
                self.slots@.len() == self.num_buckets(),
                snaps.len() == log.len() + 1,
                snaps[0] == (old(self).keys@, old(self).slots@),
                (self.keys@, self.slots@) == snaps[snaps.len() - 1],
                forall|q: int|
                    0 <= q < log.len() ==> (#[trigger] log@[q]).0 < self.num_buckets()
                        && snaps[q].0 == snaps[q + 1].0.update(log@[q].0 as int, log@[q].1)
                        && snaps[q].1 == snaps[q + 1].1.update(log@[q].0 as int, log@[q].2),
            decreases budget - steps,
        {
            let ghost s_pre = self.slots@;
            match self.try_place(hand_k, hand_v) {
                Some(i) => {
                    proof {
                        assert(table_map(self.slots@) =~= m0.insert(key, value));
                        match self.zero_value {
                            Some(zv) => {
                                assert(self@ =~~= old(self)@.insert(key, value));
                            },
                            None => {
                                assert(self@ =~~= old(self)@.insert(key, value));
                            },
                        }
                    }
                    if hand_k == key {
                        return Some((true, i));
                    }
                    proof {
                        assert(s_pre[key_slot as int] is Some);
                        assert(key_slot != i);
                        assert(self.slots@[key_slot as int] == s_pre[key_slot as int]);
                        assert(live_at(self.slots@, key_slot as int, key));
                    }
                    return Some((true, key_slot));
                },
                None => {},
            }
            if steps >= budget {
                break;
            }
            // Evict a pseudo-randomly chosen occupant of one of the hand
            // key's candidate slots, and carry that occupant onwards.
            let (w0, w1, w2, w3) = self.cands(hand_k);
            let choice = rng_usize(&mut self.rng) % 4;
            let pos = if choice == 0 {
                w0
            } else if choice == 1 {
                w1
            } else if choice == 2 {
                w2
            } else {
                w3
            };
            let evicted_key = self.keys[pos];
            let evicted_slot = self.slots[pos];
            let (ek, ev) = match evicted_slot {
                Some(pair) => pair,
                None => {
                    proof {
                        assert(self.keys@[pos as int] == 0);
                        assert(false);
                    }
                    return None;
                },
            };
            proof {
                assert(self.keys@[pos as int] != 0);
                assert(self.slots@[pos as int] is Some);
                assert(ek == slot_key(self.slots@, pos as int));
                assert(live_at(self.slots@, pos as int, ek));
                lemma_contains_at(self.slots@, pos as int, ek);
                assert(ek != hand_k);
            }
            let ghost s1 = self.slots@;
            let ghost k1 = self.keys@;
            let ghost log0 = log@;
            let ghost snaps0 = snaps;
            log.push((pos, evicted_key, evicted_slot));
            vec_set(&mut self.keys, pos, hand_k);
            vec_set(&mut self.slots, pos, Some((hand_k, hand_v)));
            proof {
                lemma_map_clear(s1, pos as int, ek);
                let mid = s1.update(pos as int, None);
                assert(self.slots@ =~= mid.update(pos as int, Some((hand_k, hand_v))));
                assert(!table_contains(mid, hand_k)) by {
                    if table_contains(mid, hand_k) {
                        let w = choose|w: int| live_at(mid, w, hand_k);
                        assert(live_at(s1, w, hand_k));
                    }
                }
                lemma_map_fill(mid, pos as int, hand_k, hand_v);
                assert(table_map(self.slots@) == table_map(s1).remove(ek).insert(hand_k, hand_v));
                let n = self.num_buckets();
                assert forall|i2: int|
                    0 <= i2 < n implies #[trigger] self.keys@[i2] == (if self.slots@[i2] is Some {
                    slot_key(self.slots@, i2)
                } else {
                    0u64
                }) by {
                    if i2 != pos {
                        assert(self.keys@[i2] == k1[i2]);
                        assert(self.slots@[i2] == s1[i2]);
                    }
                }
                assert forall|i2: int|
                    0 <= i2 < n && #[trigger] self.slots@[i2] is Some implies slot_key(
                    self.slots@,
                    i2,
                ) != 0 && self.in_windows(i2, slot_key(self.slots@, i2)) by {
                    if i2 != pos {
                        assert(self.slots@[i2] == s1[i2]);
                        assert(slot_key(self.slots@, i2) == slot_key(s1, i2));
                    } else {
                        assert(slot_key(self.slots@, i2) == hand_k);
                    }
                }
                // The displaced occupant keeps its binding from the running
                // map, so handing it onwards preserves the walk's ledger.
                assert(table_map(s1).contains_key(ek) && table_map(s1)[ek] == ev) by {
                    lemma_contains_at(s1, pos as int, ek);
                }
                assert(table_map(self.slots@).insert(ek, ev) =~= m0.insert(key, value)) by {
                    assert(table_map(s1).insert(hand_k, hand_v) == m0.insert(key, value));
                }
                assert(!table_contains(self.slots@, ek)) by {
                    if table_contains(self.slots@, ek) {
                        let w = choose|w: int| live_at(self.slots@, w, ek);
                        assert(table_map(self.slots@).contains_key(ek)) by {
                            lemma_contains_at(self.slots@, w, ek);
                        }
                        assert(table_map(self.slots@) == table_map(s1).remove(ek).insert(
                            hand_k,
                            hand_v,
                        ));
                    }
                }
                snaps = snaps0.push((self.keys@, self.slots@));
                assert forall|q: int|
                    0 <= q < log@.len() implies (#[trigger] log@[q]).0 < self.num_buckets()
                        && snaps[q].0 == snaps[q + 1].0.update(log@[q].0 as int, log@[q].1)
                        && snaps[q].1 == snaps[q + 1].1.update(log@[q].0 as int, log@[q].2) by {
                    if q < log0.len() {
                        assert(log@[q] == log0[q]);
                        assert(snaps[q] == snaps0[q]);
                        assert(snaps[q + 1] == snaps0[q + 1]);
                    } else {
                        assert(log@[q] == (pos, evicted_key, evicted_slot));
                        assert(snaps[q] == (k1, s1));
                        assert(snaps[q + 1] == (self.keys@, self.slots@));
                        assert(k1 =~= self.keys@.update(pos as int, evicted_key));
                        assert(s1 =~= self.slots@.update(pos as int, evicted_slot));
                    }
                }
            }
            if hand_k == key {
                key_slot = pos;
            }
            proof {
                if ek != key {
                    if hand_k != key {
                        assert(s1[key_slot as int] is Some);
                        assert(slot_key(s1, key_slot as int) == key);
                        assert(key_slot != pos);
                        assert(self.slots@[key_slot as int] == s1[key_slot as int]);
                    }
                }
            }
            hand_k = ek;
            hand_v = ev;
            steps = steps + 1;
        }
        // The walk ran out of budget with an entry still in hand: unwind the
        // recorded displacements, restoring the table exactly.
        let mut k = log.len();
        proof {
            assert(k as int + 1 == snaps.len());
        }
        while k > 0
            invariant
                k <= log.len(),
                snaps.len() == log.len() + 1,
                snaps[0] == (old(self).keys@, old(self).slots@),
                (self.keys@, self.slots@) == snaps[k as int],
                self.keys@.len() == self.num_buckets(),
                self.slots@.len() == self.num_buckets(),
                self.seed == old(self).seed,
                self.bucket_mask == old(self).bucket_mask,
                self.zero_value == old(self).zero_value,
                self.num_buckets() == old(self).num_buckets(),
                self.items == old(self).items,
                old(self).keys@.len() == old(self).num_buckets(),
                old(self).slots@.len() == old(self).num_buckets(),
                forall|q: int|
                    0 <= q < log.len() ==> (#[trigger] log@[q]).0 < self.num_buckets()
                        && snaps[q].0 == snaps[q + 1].0.update(log@[q].0 as int, log@[q].1)
                        && snaps[q].1 == snaps[q + 1].1.update(log@[q].0 as int, log@[q].2),
            decreases k,
        {
            k = k - 1;
            let entry = log[k];
            proof {
                assert(snaps[k as int].0 == snaps[k as int + 1].0.update(
                    entry.0 as int,
                    entry.1,
                ));
            }
            vec_set(&mut self.keys, entry.0, entry.1);
            vec_set(&mut self.slots, entry.0, entry.2);
            proof {
                assert(self.keys@ == snaps[k as int].0);
                assert(self.slots@ == snaps[k as int].1);
            }
        }
        proof {
            assert(self.keys@ == old(self).keys@);
            assert(self.slots@ == old(self).slots@);
            assert forall|i2: int|
                0 <= i2 < self.num_buckets() && #[trigger] self.slots@[i2] is Some implies
                slot_key(self.slots@, i2) != 0 && self.in_windows(
                i2,
                slot_key(self.slots@, i2),
            ) by {
                assert(old(self).slots@[i2] is Some);
                assert(old(self).in_windows(i2, slot_key(old(self).slots@, i2)));
            }
        }
        None
    }

    /// Inserts a key and immediately erases it again when it was newly
    /// installed; an already-present key only has its value overwritten. The
    /// entry count is unchanged either way. Returns false, leaving the table
    /// unchanged, when the displacement walk could not place the key.
    pub fn insert_and_erase(&mut self, key: u64, value: V) -> (r: bool)
        requires
            old(self).wf(),
        ensures
            final(self).wf(),
            final(self).seed == old(self).seed,
            final(self).bucket_mask == old(self).bucket_mask,
            final(self).num_buckets() == old(self).num_buckets(),
            final(self).items == old(self).items,
            old(self)@.contains_key(key) ==> r && final(self)@ == old(self)@.insert(key, value),
            !old(self)@.contains_key(key) ==> final(self)@ == old(self)@,
    {
        let ghost m0 = self@;
        match self.insert(key, value) {
            Some((inserted, idx)) => {
                if inserted {
                    if key == 0 {
                        proof {
                            self.lemma_zero_not_in_slots();
                            assert(old(self).zero_value is None) by {
                                if old(self).zero_value is Some {
                                    assert(m0.contains_key(0u64));
                                }
                            }
                        }
                        self.zero_value = None;
                        self.items = self.items - 1;
                        proof {
                            assert(self@ == table_map(self.slots@));
                            assert(table_map(self.slots@) =~= m0);
                        }
                    } else {
                        let ghost mid = self@;
                        let ghost s1 = self.slots@;
                        let ghost k1 = self.keys@;
                        proof {
                            assert(live_at(s1, idx as int, key));
                            lemma_map_clear(s1, idx as int, key);
                        }
                        vec_set(&mut self.keys, idx, 0);
                        vec_set(&mut self.slots, idx, None);
                        self.items = self.items - 1;
                        proof {
                            let n = self.num_buckets();
                            assert forall|j: int|
                                0 <= j < n implies #[trigger] self.keys@[j] == (
                            if self.slots@[j] is Some {
                                slot_key(self.slots@, j)
                            } else {
                                0u64
                            }) by {
                                if j != idx {
                                    assert(self.keys@[j] == k1[j]);
                                    assert(self.slots@[j] == s1[j]);
                                }
                            }
                            assert forall|j: int|
                                0 <= j < n && #[trigger] self.slots@[j] is Some implies slot_key(
                                self.slots@,
                                j,
                            ) != 0 && self.in_windows(j, slot_key(self.slots@, j)) by {
                                if j != idx {
                                    assert(self.slots@[j] == s1[j]);
                                    assert(slot_key(self.slots@, j) == slot_key(s1, j));
                                }
                            }
                            assert(!m0.contains_key(key));
                            assert(mid == m0.insert(key, value));
                            assert(table_map(self.slots@) == table_map(s1).remove(key));
                            assert forall|k2: u64| #[trigger]
                                self@.dom().contains(k2) implies m0.dom().contains(k2) by {
                                assert(k2 != key);
                                assert(mid.dom().contains(k2));
                            }
                            assert forall|k2: u64| #[trigger]
                                m0.dom().contains(k2) implies self@.dom().contains(k2) by {
                                assert(k2 != key);
                                assert(mid.dom().contains(k2));
                            }
                            assert forall|k2: u64| #[trigger]
                                m0.dom().contains(k2) implies self@[k2] == m0[k2] by {
                                assert(k2 != key);
                                assert(self@[k2] == mid[k2]);
                                assert(mid[k2] == m0[k2]);
                            }
                            assert(self@ =~= m0);
                        }
                    }
                }
                true
            },
            None => false,
        }
    }
}

} // verus!
