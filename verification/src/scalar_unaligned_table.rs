//! A dense scalar table for 64-bit keys: no metadata plane, just the keys
//! themselves, probed one slot at a time with linear probing. Key zero is the
//! empty sentinel, bound through a separate side slot. Entries are never
//! erased, so an empty slot always terminates a probe soundly. The table is
//! allocated at twice the usual size to keep linear probe runs short.

use vstd::prelude::*;

use crate::model::{
    slot_key, slot_val, slots_distinct, live_at, table_contains, table_map, count_live,
    lemma_contains_at, lemma_map_update_value, lemma_map_fill, lemma_map_all_open,
    lemma_count_le_len, vec_set,
};
use crate::probe::{is_pow2, lemma_pow2_double, lemma_masked_props, lemma_mask_wrap_wide};
use crate::rng::{rng_with_seed, rng_u64};
use crate::u64_fold_hash_fast::{spec_fold_hash, fold_hash_fast};

verus! {

/// The slot visited at step `j` of a linear probe starting at `p` in a table
/// of `n` slots.
pub open spec fn lin_pos(p: int, j: int, n: int) -> int {
    if p + j < n {
        p + j
    } else {
        p + j - n
    }
}

pub struct U64HashSet<V: Copy> {
    /// One less than the number of slots.
    pub bucket_mask: usize,
    /// The keys, one per slot; zero marks an empty slot.
    pub keys: Vec<u64>,
    /// The entries, one per slot.
    pub slots: Vec<Option<(u64, V)>>,
    /// The value bound to key zero, which cannot use a slot.
    pub zero_value: Option<V>,
    /// Number of entries, the zero key's included.
    pub items: usize,
    /// Seed of the hash mixer.
    pub seed: u64,
}

impl<V: Copy> View for U64HashSet<V> {
    type V = Map<u64, V>;

    /// The table denotes the map from occupied-slot keys to their values,
    /// with the side slot supplying key zero's binding.
    open spec fn view(&self) -> Map<u64, V> {
        match self.zero_value {
            Some(v) => table_map(self.slots@).insert(0u64, v),
            None => table_map(self.slots@),
        }
    }
}

impl<V: Copy> U64HashSet<V> {
    /// Number of slots.
    pub open spec fn num_buckets(self) -> int {
        self.bucket_mask as int + 1
    }

    /// The hash of a key under this table's seed.
    pub open spec fn hash_of(self, k: u64) -> u64 {
        spec_fold_hash(k, self.seed)
    }

    /// The start of the key's probe run.
    pub open spec fn start_of(self, k: u64) -> int {
        (self.hash_of(k) & (self.bucket_mask as u64)) as int
    }

    /// Slot `i` is where a lookup of key `k` finds it: it lies on `k`'s
    /// probe run within one lap of the table, and no earlier slot of the run
    /// is empty.
    pub open spec fn reachable(self, i: int, k: u64) -> bool {
        exists|j: int|
            0 <= j <= self.bucket_mask && #[trigger] lin_pos(
                self.start_of(k),
                j,
                self.num_buckets(),
            ) == i && (forall|j2: int|
                0 <= j2 < j ==> self.keys@[#[trigger] lin_pos(
                    self.start_of(k),
                    j2,
                    self.num_buckets(),
                )] != 0)
    }

    /// Well-formedness: a power-of-two slot count; the key array shadows the
    /// entries, with zero marking the empty slots; occupied slots hold
    /// distinct nonzero keys reachable along their probe runs; `items` counts
    /// the entries, the side slot's included.
    pub open spec fn wf(self) -> bool {
        let n = self.num_buckets();
        &&& self.slots@.len() == n
        &&& self.keys@.len() == n
        &&& 1 <= n <= usize::MAX / 4
        &&& is_pow2(n as u64)
        &&& slots_distinct(self.slots@)
        &&& self.items as int == count_live(self.slots@) + (if self.zero_value is Some {
            1int
        } else {
            0int
        })
        &&& forall|i: int|
            0 <= i < n ==> #[trigger] self.keys@[i] == (if self.slots@[i] is Some {
                slot_key(self.slots@, i)
            } else {
                0u64
            })
        &&& forall|i: int|
            0 <= i < n && #[trigger] self.slots@[i] is Some ==> slot_key(self.slots@, i) != 0
                && self.reachable(i, slot_key(self.slots@, i))
    }

    /// Key zero never occupies a slot, so the slot map never contains it.
    proof fn lemma_zero_not_in_slots(self)
        requires
            self.wf(),
        ensures
            !table_contains(self.slots@, 0u64),
            !table_map(self.slots@).contains_key(0u64),
    {
        if table_contains(self.slots@, 0u64) {
            let i = choose|i: int| live_at(self.slots@, i, 0u64);
            assert(self.slots@[i] is Some);
        }
    }

    /// Allocates a table able to hold `capacity` entries: the smallest power
    /// of two at least `capacity * 8 / 7`, doubled once to keep probe runs
    /// short.
    pub fn with_capacity(capacity: usize) -> (t: Self)
        requires
            capacity <= usize::MAX / 32,
        ensures
            t.wf(),
            t@ == Map::<u64, V>::empty(),
            t.items == 0,
            t.num_buckets() >= capacity,
            8 * capacity <= 7 * t.num_buckets(),
            forall|i: int| 0 <= i < t.num_buckets() ==> t.keys@[i] == 0,
    {
        let target = (capacity * 8 + 6) / 7;
        let mut n: usize = 1;
        proof {
            crate::probe::lemma_small_pow2();
        }
        while n < target
            invariant
                1 <= n <= usize::MAX / 8,
                target <= usize::MAX / 16,
                is_pow2(n as u64),
            decreases 2 * target - n,
        {
            proof {
                lemma_pow2_double(n as u64);
            }
            n = n + n;
        }
        proof {
            lemma_pow2_double(n as u64);
        }
        let n = n + n;
        let mut keys: Vec<u64> = Vec::new();
        let mut slots: Vec<Option<(u64, V)>> = Vec::new();
        let mut i: usize = 0;
        while i < n
            invariant
                i <= n,
                keys@.len() == i,
                slots@.len() == i,
                forall|j: int| 0 <= j < i ==> keys@[j] == 0,
                forall|j: int| 0 <= j < i ==> slots@[j] is None,
            decreases n - i,
        {
            keys.push(0);
            slots.push(None);
            i = i + 1;
        }
        let mut rng = rng_with_seed(123);
        let seed = rng_u64(&mut rng);
        let t = U64HashSet { bucket_mask: n - 1, keys, slots, zero_value: None, items: 0, seed };
        proof {
            lemma_map_all_open(t.slots@);
        }
        t
    }

    /// Number of entries in the table: the occupied slots plus the side
    /// slot, which equals the number of distinct live keys.
    pub fn len(&self) -> (r: usize)
        requires
            self.wf(),
        ensures
            r as int == count_live(self.slots@) + (if self.zero_value is Some {
                1int
            } else {
                0int
            }),
            r as int == self@.dom().len(),
    {
        proof {
            crate::model::lemma_count_is_dom_len(self.slots@);
            self.lemma_zero_not_in_slots();
            match self.zero_value {
                Some(v) => {
                    assert(self@.dom() =~= table_map(self.slots@).dom().insert(0u64));
                },
                None => {},
            }
        }
        self.items
    }

    /// A probe of the nonzero key `key` that saw neither the key nor a zero
    /// in the first `j` slots of its run, and either a zero or the end of
    /// the lap at step `j`, proves the key absent.
    proof fn lemma_absent(self, key: u64, j: int, hole: bool)
        requires
            self.wf(),
            key != 0,
            0 <= j,
            forall|j2: int|
                0 <= j2 < j ==> self.keys@[#[trigger] lin_pos(
                    self.start_of(key),
                    j2,
                    self.num_buckets(),
                )] != key && self.keys@[lin_pos(self.start_of(key), j2, self.num_buckets())] != 0,
            hole ==> j <= self.bucket_mask && self.keys@[lin_pos(
                self.start_of(key),
                j,
                self.num_buckets(),
            )] == 0,
            !hole ==> j > self.bucket_mask,
        ensures
            !table_contains(self.slots@, key),
    {
        let p = self.start_of(key);
        let n = self.num_buckets();
        if table_contains(self.slots@, key) {
            let i = choose|i: int| live_at(self.slots@, i, key);
            assert(self.slots@[i] is Some);
            assert(self.keys@[i] == key);
            assert(self.reachable(i, key));
            let jk = choose|jk: int|
                0 <= jk <= self.bucket_mask && #[trigger] lin_pos(p, jk, n) == i && (forall|
                    j2: int,
                |
                    0 <= j2 < jk ==> self.keys@[#[trigger] lin_pos(p, j2, n)] != 0);
            if jk < j {
                assert(self.keys@[lin_pos(p, jk, n)] != key);
            } else if hole {
                if jk == j {
                    assert(self.keys@[lin_pos(p, jk, n)] == 0);
                } else {
                    assert(self.keys@[lin_pos(p, j, n)] != 0);
                }
            }
        }
    }

    /// Inserts `key` bound to `value`, overwriting the value if the key is
    /// already present. On success returns whether the key was newly
    /// installed and the slot index now holding it (the largest machine word
    /// for the zero key). Returns `None`, leaving the table unchanged, when
    /// a full lap of the table finds no room.
    pub fn insert(&mut self, key: u64, value: V) -> (r: Option<(bool, usize)>)
        requires
            old(self).wf(),
        ensures
            final(self).wf(),
            final(self).seed == old(self).seed,
            final(self).bucket_mask == old(self).bucket_mask,
            final(self).num_buckets() == old(self).num_buckets(),
            match r {
                Some(t) => {
                    &&& final(self)@ == old(self)@.insert(key, value)
                    &&& t.0 == !old(self)@.contains_key(key)
                    &&& final(self).items as int == old(self).items + (if t.0 {
                        1int
                    } else {
                        0int
                    })
                    &&& (key == 0 ==> t.1 == usize::MAX && final(self).zero_value == Some(value)
                        && final(self).slots@ == old(self).slots@ && final(self).keys@ == old(
                        self,
                    ).keys@)
                    &&& (key != 0 ==> t.1 < final(self).num_buckets() && live_at(
                        final(self).slots@,
                        t.1 as int,
                        key,
                    ) && slot_val(final(self).slots@, t.1 as int) == value)
                },
                None => {
                    &&& final(self)@ == old(self)@
                    &&& final(self).items == old(self).items
                    &&& !old(self)@.contains_key(key)
                    &&& key != 0
                    &&& final(self).keys@ == old(self).keys@
                    &&& final(self).slots@ == old(self).slots@
                    &&& final(self).zero_value == old(self).zero_value
                    &&& forall|j: int|
                        0 <= j <= old(self).bucket_mask ==> old(self).keys@[#[trigger] lin_pos(
                            old(self).start_of(key),
                            j,
                            old(self).num_buckets(),
                        )] != 0
                },
            },
            old(self)@.contains_key(key) ==> r is Some && !(r->0).0,
            key == 0 ==> r is Some,
    {
        if key == 0 {
            proof {
                self.lemma_zero_not_in_slots();
            }
            let inserted = self.zero_value.is_none();
            if inserted {
                proof {
                    lemma_count_le_len(self.slots@);
                }
                self.items = self.items + 1;
            }
            self.zero_value = Some(value);
            proof {
                Self::lemma_reachable_stable(*old(self), *self);
                match old(self).zero_value {
                    Some(w) => {
                        assert(self@ =~= old(self)@.insert(0u64, value));
                    },
                    None => {},
                }
            }
            return Some((inserted, usize::MAX));
        }
        let h = fold_hash_fast(key, self.seed);
        let m64 = self.bucket_mask as u64;
        proof {
            lemma_masked_props(m64, h);
        }
        let start = (h & m64) as usize;
        let mut j: usize = 0;
        loop
            invariant
                *self == *old(self),
                self.wf(),
                key != 0,
                h == self.hash_of(key),
                m64 == self.bucket_mask as u64,
                start as int == self.start_of(key),
                start <= self.bucket_mask,
                j <= self.bucket_mask,
                forall|j2: int|
                    0 <= j2 < j ==> self.keys@[#[trigger] lin_pos(
                        start as int,
                        j2,
                        self.num_buckets(),
                    )] != key && self.keys@[lin_pos(start as int, j2, self.num_buckets())] != 0,
            decreases self.bucket_mask - j,
        {
            proof {
                lemma_mask_wrap_wide(self.num_buckets() as u64, start as u64, j as u64);
            }
            let pos = (((start as u64) + (j as u64)) & m64) as usize;
            let k_here = self.keys[pos];
            if k_here == key {
                proof {
                    assert(self.slots@[pos as int] is Some);
                    assert(slot_key(self.slots@, pos as int) == key);
                }
                self.update_slot(pos, key, value);
                return Some((false, pos));
            }
            if k_here == 0 {
                proof {
                    self.lemma_absent(key, j as int, true);
                    self.lemma_zero_not_in_slots();
                    if self.slots@[pos as int] is Some {
                        assert(slot_key(self.slots@, pos as int) != 0);
                    }
                }
                self.fill_slot(pos, key, value, Ghost(j as int));
                return Some((true, pos));
            }
            if j >= self.bucket_mask {
                proof {
                    self.lemma_absent(key, j as int + 1, false);
                    self.lemma_view_nonzero(key);
                }
                return None;
            }
            j = j + 1;
        }
    }

    /// For a nonzero key the table view agrees with the slot map.
    proof fn lemma_view_nonzero(self, k: u64)
        requires
            k != 0,
        ensures
            self@.contains_key(k) == table_map(self.slots@).contains_key(k),
            table_map(self.slots@).contains_key(k) ==> self@[k] == table_map(self.slots@)[k],
    {
    }

    /// Reachability only depends on the keys, the seed and the geometry, so
    /// it survives changes to the side slot and the entry count.
    proof fn lemma_reachable_stable(pre: Self, post: Self)
        requires
            pre.wf(),
            post.keys@ == pre.keys@,
            post.slots@ == pre.slots@,
            post.seed == pre.seed,
            post.bucket_mask == pre.bucket_mask,
        ensures
            forall|i2: int|
                0 <= i2 < post.num_buckets() && #[trigger] post.slots@[i2] is Some ==> slot_key(
                    post.slots@,
                    i2,
                ) != 0 && post.reachable(i2, slot_key(post.slots@, i2)),
    {
        assert forall|i2: int|
            0 <= i2 < post.num_buckets() && #[trigger] post.slots@[i2] is Some implies slot_key(
            post.slots@,
            i2,
        ) != 0 && post.reachable(i2, slot_key(post.slots@, i2)) by {
            let k2 = slot_key(post.slots@, i2);
            assert(pre.slots@[i2] is Some);
            assert(pre.reachable(i2, k2));
            let n = pre.num_buckets();
            let jk = choose|jk: int|
                0 <= jk <= pre.bucket_mask && #[trigger] lin_pos(pre.start_of(k2), jk, n) == i2 && (
                forall|j2: int|
                    0 <= j2 < jk ==> pre.keys@[#[trigger] lin_pos(pre.start_of(k2), j2, n)] != 0);
            assert(lin_pos(post.start_of(k2), jk, post.num_buckets()) == i2);
            assert(forall|j2: int|
                0 <= j2 < jk ==> post.keys@[#[trigger] lin_pos(
                    post.start_of(k2),
                    j2,
                    post.num_buckets(),
                )] != 0);
            assert(post.reachable(i2, k2));
        }
    }

    /// Writes `(key, value)` into the empty slot `i`, reached at step `j` of
    /// the key's probe run with no empty slot earlier in the run.
    fn fill_slot(&mut self, i: usize, key: u64, value: V, Ghost(j): Ghost<int>)
        requires
            old(self).wf(),
            i < old(self).num_buckets(),
            old(self).slots@[i as int] is None,
            !table_contains(old(self).slots@, key),
            key != 0,
            0 <= j <= old(self).bucket_mask,
            lin_pos(old(self).start_of(key), j, old(self).num_buckets()) == i as int,
            forall|j2: int|
                0 <= j2 < j ==> old(self).keys@[#[trigger] lin_pos(
                    old(self).start_of(key),
                    j2,
                    old(self).num_buckets(),
                )] != 0,
        ensures
            final(self).wf(),
            final(self).seed == old(self).seed,
            final(self).bucket_mask == old(self).bucket_mask,
            final(self).zero_value == old(self).zero_value,
            final(self).num_buckets() == old(self).num_buckets(),
            final(self)@ == old(self)@.insert(key, value),
            final(self).items == old(self).items + 1,
            live_at(final(self).slots@, i as int, key),
            slot_val(final(self).slots@, i as int) == value,
    {
        proof {
            lemma_count_le_len(self.slots@);
        }
        let ghost s0 = self.slots@;
        let ghost k0 = self.keys@;
        vec_set(&mut self.keys, i, key);
        vec_set(&mut self.slots, i, Some((key, value)));
        self.items = self.items + 1;
        proof {
            lemma_map_fill(s0, i as int, key, value);
            let n = self.num_buckets();
            assert forall|i2: int|
                0 <= i2 < n implies #[trigger] self.keys@[i2] == (if self.slots@[i2] is Some {
                slot_key(self.slots@, i2)
            } else {
                0u64
            }) by {
                if i2 != i {
                    assert(self.keys@[i2] == k0[i2]);
                    assert(self.slots@[i2] == s0[i2]);
                }
            }
            assert forall|i2: int|
                0 <= i2 < n && #[trigger] self.slots@[i2] is Some implies slot_key(self.slots@, i2)
                != 0 && self.reachable(i2, slot_key(self.slots@, i2)) by {
                let k2 = slot_key(self.slots@, i2);
                let p2 = self.start_of(k2);
                if i2 != i {
                    assert(self.slots@[i2] == s0[i2]);
                    assert(slot_key(self.slots@, i2) == slot_key(s0, i2));
                    assert(old(self).reachable(i2, k2));
                    let jk = choose|jk: int|
                        0 <= jk <= old(self).bucket_mask && #[trigger] lin_pos(p2, jk, n) == i2 && (
                        forall|j2: int| 0 <= j2 < jk ==> k0[#[trigger] lin_pos(p2, j2, n)] != 0);
                    assert forall|j2: int| 0 <= j2 < jk implies self.keys@[#[trigger] lin_pos(
                        p2,
                        j2,
                        n,
                    )] != 0 by {
                        assert(k0[lin_pos(p2, j2, n)] != 0);
                        if lin_pos(p2, j2, n) != i {
                            assert(self.keys@[lin_pos(p2, j2, n)] == k0[lin_pos(p2, j2, n)]);
                        }
                    }
                    assert(self.reachable(i2, k2));
                } else {
                    assert forall|j2: int| 0 <= j2 < j implies self.keys@[#[trigger] lin_pos(
                        p2,
                        j2,
                        n,
                    )] != 0 by {
                        assert(k0[lin_pos(p2, j2, n)] != 0);
                        if lin_pos(p2, j2, n) != i {
                            assert(self.keys@[lin_pos(p2, j2, n)] == k0[lin_pos(p2, j2, n)]);
                        }
                    }
                    assert(lin_pos(p2, j, n) == i2);
                    assert(self.reachable(i2, k2));
                }
            }
            match self.zero_value {
                Some(zv) => {
                    assert(self@ =~= old(self)@.insert(key, value));
                },
                None => {},
            }
        }
    }

    /// Overwrites the value of the occupied slot `i`, which holds `key`.
    fn update_slot(&mut self, i: usize, key: u64, value: V)
        requires
            old(self).wf(),
            key != 0,
            live_at(old(self).slots@, i as int, key),
        ensures
            final(self).wf(),
            final(self).seed == old(self).seed,
            final(self).bucket_mask == old(self).bucket_mask,
            final(self).zero_value == old(self).zero_value,
            final(self).num_buckets() == old(self).num_buckets(),
            final(self)@ == old(self)@.insert(key, value),
            old(self)@.contains_key(key),
            final(self).items == old(self).items,
            live_at(final(self).slots@, i as int, key),
            slot_val(final(self).slots@, i as int) == value,
    {
        proof {
            lemma_contains_at(self.slots@, i as int, key);
            self.lemma_view_nonzero(key);
        }
        let ghost s0 = self.slots@;
        vec_set(&mut self.slots, i, Some((key, value)));
        proof {
            lemma_map_update_value(s0, i as int, key, value);
            let n = self.num_buckets();
            assert forall|i2: int|
                0 <= i2 < n implies #[trigger] self.keys@[i2] == (if self.slots@[i2] is Some {
                slot_key(self.slots@, i2)
            } else {
                0u64
            }) by {
                if i2 != i {
                    assert(self.slots@[i2] == s0[i2]);
                } else {
                    assert(slot_key(self.slots@, i2) == slot_key(s0, i2));
                }
            }
            assert forall|i2: int|
                0 <= i2 < n && #[trigger] self.slots@[i2] is Some implies slot_key(self.slots@, i2)
                != 0 && self.reachable(i2, slot_key(self.slots@, i2)) by {
                assert(slot_key(self.slots@, i2) == slot_key(s0, i2));
                if i2 != i {
                    assert(self.slots@[i2] == s0[i2]);
                }
                let k2 = slot_key(self.slots@, i2);
                assert(old(self).slots@[i2] is Some);
                assert(old(self).reachable(i2, k2));
                let p2 = self.start_of(k2);
                let jk = choose|jk: int|
                    0 <= jk <= old(self).bucket_mask && #[trigger] lin_pos(
                        old(self).start_of(k2),
                        jk,
                        old(self).num_buckets(),
                    ) == i2 && (forall|j2: int|
                        0 <= j2 < jk ==> old(self).keys@[#[trigger] lin_pos(
                            old(self).start_of(k2),
                            j2,
                            old(self).num_buckets(),
                        )] != 0);
                assert(lin_pos(p2, jk, n) == i2);
                assert(forall|j2: int|
                    0 <= j2 < jk ==> self.keys@[#[trigger] lin_pos(p2, j2, n)] != 0);
                assert(self.reachable(i2, k2));
            }
            match self.zero_value {
                Some(zv) => {
                    assert(self@ =~= old(self)@.insert(key, value));
                },
                None => {},
            }
        }
    }

    /// Looks up the current value bound to `key`, walking its probe run until
    /// a match or an empty slot.
    pub fn get(&self, key: &u64) -> (r: Option<&V>)
        requires
            self.wf(),
        ensures
            match r {
                Some(v) => self@.contains_key(*key) && *v == self@[*key],
                None => !self@.contains_key(*key),
            },
    {
        let k = *key;
        if k == 0 {
            proof {
                self.lemma_zero_not_in_slots();
            }
            return self.zero_value.as_ref();
        }
        let h = fold_hash_fast(k, self.seed);
        let m64 = self.bucket_mask as u64;
        proof {
            lemma_masked_props(m64, h);
        }
        let start = (h & m64) as usize;
        let mut j: usize = 0;
        loop
            invariant
                self.wf(),
                k != 0,
                k == *key,
                h == self.hash_of(k),
                m64 == self.bucket_mask as u64,
                start as int == self.start_of(k),
                start <= self.bucket_mask,
                j <= self.bucket_mask,
                forall|j2: int|
                    0 <= j2 < j ==> self.keys@[#[trigger] lin_pos(
                        start as int,
                        j2,
                        self.num_buckets(),
                    )] != k && self.keys@[lin_pos(start as int, j2, self.num_buckets())] != 0,
            decreases self.bucket_mask - j,
        {
            proof {
                lemma_mask_wrap_wide(self.num_buckets() as u64, start as u64, j as u64);
            }
            let pos = (((start as u64) + (j as u64)) & m64) as usize;
            let k_here = self.keys[pos];
            if k_here == k {
                proof {
                    assert(self.slots@[pos as int] is Some);
                    assert(slot_key(self.slots@, pos as int) == k);
                    lemma_contains_at(self.slots@, pos as int, k);
                    self.lemma_view_nonzero(k);
                }
                match &self.slots[pos] {
                    Some(pair) => {
                        return Some(&pair.1);
                    },
                    None => {
                        proof {
                            assert(false);
                        }
                        return None;
                    },
                }
            }
            if k_here == 0 {
                proof {
                    self.lemma_absent(k, j as int, true);
                    self.lemma_view_nonzero(k);
                }
                return None;
            }
            if j >= self.bucket_mask {
                proof {
                    self.lemma_absent(k, j as int + 1, false);
                    self.lemma_view_nonzero(k);
                }
                return None;
            }
            j = j + 1;
        }
    }
}

} // verus!
