//! A cuckoo hash table over two group-aligned candidate windows per key,
//! derived from the two halves of the hash, with a balancing twist: when both
//! windows have room, the insert may prefer the second window if its free
//! slot sits near the window's end, spreading load between the windows.
//!
//! Displacement is a pseudo-random walk rather than a breadth-first search:
//! a random occupant of the colliding window is evicted and re-placed in its
//! other window, for a bounded number of steps. Every eviction is recorded,
//! and a walk that exhausts its budget is unwound step by step, leaving the
//! table exactly as it was.

use vstd::prelude::*;

use crate::control::{
    tag_is_full, spec_tag_of_hash, tag_of_hash, Group, TAG_EMPTY, GROUP_WIDTH,
};
use crate::model::{
    slot_key, slot_val, slots_distinct, live_at, table_contains, table_map, count_live,
    lemma_contains_at, lemma_map_update_value, lemma_map_fill, lemma_map_clear,
    lemma_map_all_open, lemma_count_le_len, vec_set,
};
use crate::probe::{is_pow2, spec_rotl32, rotl32, lemma_pow2_double, lemma_aligned_window};
use crate::rng::{rng_with_seed, rng_u64, rng_usize};
use crate::u64_fold_hash_fast::{spec_fold_hash, fold_hash_fast};

verus! {

/// Position `i` lies in the window of eight slots starting at `p`.
pub open spec fn in_win(p: int, i: int) -> bool {
    p <= i < p + 8
}

pub struct HashTable<V: Copy> {
    /// One less than the number of slots.
    pub bucket_mask: usize,
    /// Number of slots minus the group width; masking with it yields a
    /// group-aligned window start.
    pub aligned_bucket_mask: usize,
    /// One metadata tag per slot.
    pub tags: Vec<u8>,
    /// The slots themselves.
    pub slots: Vec<Option<(u64, V)>>,
    /// Number of occupied slots.
    pub items: usize,
    /// Seed of the hash mixer.
    pub seed: u64,
    /// Source of eviction choices during displacement walks.
    pub rng: fastrand::Rng,
}

impl<V: Copy> View for HashTable<V> {
    type V = Map<u64, V>;

    /// The table denotes the map from occupied-slot keys to their values.
    open spec fn view(&self) -> Map<u64, V> {
        table_map(self.slots@)
    }
}

impl<V: Copy> HashTable<V> {
    /// Number of slots.
    pub open spec fn num_buckets(self) -> int {
        self.slots@.len() as int
    }

    /// The hash of a key under this table's seed.
    pub open spec fn hash_of(self, k: u64) -> u64 {
        spec_fold_hash(k, self.seed)
    }

    /// The tag a key stores.
    pub open spec fn tag_of(self, k: u64) -> u8 {
        spec_tag_of_hash(self.hash_of(k))
    }

    /// Start of the key's first candidate window.
    pub open spec fn pos0_of(self, k: u64) -> int {
        (self.hash_of(k) & (self.aligned_bucket_mask as u64)) as int
    }

    /// Start of the key's second candidate window.
    pub open spec fn pos1_of(self, k: u64) -> int {
        (spec_rotl32(self.hash_of(k)) & (self.aligned_bucket_mask as u64)) as int
    }

    /// Position `i` lies in one of the key's two candidate windows.
    pub open spec fn in_windows(self, i: int, k: u64) -> bool {
        in_win(self.pos0_of(k), i) || in_win(self.pos1_of(k), i)
    }

    /// Window starting at `p` holds at least one EMPTY tag.
    pub open spec fn window_has_empty(self, p: int) -> bool {
        exists|j: int| 0 <= j < 8 && #[trigger] self.tags@[p + j] == TAG_EMPTY
    }

    /// Well-formedness: the geometry fields describe a power-of-two table of
    /// at least one group; tags and slots agree; occupied slots hold distinct
    /// keys, carry their key's fingerprint, and sit in one of their key's two
    /// candidate windows; `items` counts the occupied slots.
    pub open spec fn wf(self) -> bool {
        let n = self.num_buckets();
        &&& self.tags@.len() == n
        &&& 8 <= n <= usize::MAX / 4
        &&& is_pow2(n as u64)
        &&& self.bucket_mask as int == n - 1
        &&& self.aligned_bucket_mask as int == n - 8
        &&& slots_distinct(self.slots@)
        &&& self.items as int == count_live(self.slots@) as int
        &&& forall|i: int|
            0 <= i < n ==> (tag_is_full(#[trigger] self.tags@[i]) <==> self.slots@[i] is Some)
        &&& forall|i: int|
            0 <= i < n && #[trigger] self.slots@[i] is Some ==> self.tags@[i] == self.tag_of(
                slot_key(self.slots@, i),
            ) && self.in_windows(i, slot_key(self.slots@, i))
    }

    /// Both candidate windows of a key are group-aligned and inside the
    /// table.
    pub proof fn lemma_windows_in_range(self, k: u64)
        requires
            self.wf(),
        ensures
            0 <= self.pos0_of(k) <= self.num_buckets() - 8,
            0 <= self.pos1_of(k) <= self.num_buckets() - 8,
            self.pos0_of(k) % 8 == 0,
            self.pos1_of(k) % 8 == 0,
    {
        lemma_aligned_window(self.num_buckets() as u64, self.hash_of(k));
        lemma_aligned_window(self.num_buckets() as u64, spec_rotl32(self.hash_of(k)));
    }

    /// Computes the hash, tag, and the two candidate window starts of a key.
    fn probe_positions(&self, key: u64) -> (r: (u64, u8, usize, usize))
        requires
            self.wf(),
        ensures
            r.0 == self.hash_of(key),
            r.1 == self.tag_of(key),
            r.2 as int == self.pos0_of(key),
            r.3 as int == self.pos1_of(key),
            r.2 + 8 <= self.num_buckets(),
            r.3 + 8 <= self.num_buckets(),
            r.2 as int % 8 == 0,
            r.3 as int % 8 == 0,
    {
        let h = fold_hash_fast(key, self.seed);
        let t = tag_of_hash(h);
        let m = self.aligned_bucket_mask as u64;
        proof {
            lemma_aligned_window(self.num_buckets() as u64, h);
            lemma_aligned_window(self.num_buckets() as u64, spec_rotl32(h));
        }
        let p0 = (h & m) as usize;
        let p1 = (rotl32(h) & m) as usize;
        (h, t, p0, p1)
    }

    /// Scans the window at `pos` for an occupied slot holding `key` whose tag
    /// equals `tag`.
    fn find_in_window(&self, pos: usize, tag: u8, key: u64) -> (r: Option<usize>)
        requires
            self.wf(),
            pos + 8 <= self.num_buckets(),
        ensures
            match r {
                Some(i) => pos <= i < pos + 8 && live_at(self.slots@, i as int, key),
                None => forall|j: int|
                    #![trigger self.slots@[pos + j]]
                    0 <= j < 8 ==> !(self.slots@[pos + j] is Some && slot_key(self.slots@, pos + j)
                        == key && self.tags@[pos + j] == tag),
            },
    {
        let g = Group::load(&self.tags, pos);
        let m = g.match_tag(tag);
        let mut j: usize = 0;
        while j < 8
            invariant
                self.wf(),
                pos + 8 <= self.num_buckets(),
                j <= 8,
                forall|j2: int| 0 <= j2 < 8 ==> (m.has(j2) <==> self.tags@[pos + j2] == tag),
                forall|j2: int|
                    #![trigger self.slots@[pos + j2]]
                    0 <= j2 < j ==> !(self.slots@[pos + j2] is Some && slot_key(
                        self.slots@,
                        pos + j2,
                    ) == key && self.tags@[pos + j2] == tag),
            decreases 8 - j,
        {
            if m.test(j) {
                match self.slots[pos + j] {
                    Some(pair) => {
                        if pair.0 == key {
                            return Some(pos + j);
                        }
                    },
                    None => {},
                }
            }
            j = j + 1;
        }
        None
    }

    /// Scans the window at `pos` for an EMPTY slot, returning the lowest.
    fn find_empty_in_window(&self, pos: usize) -> (r: Option<usize>)
        requires
            self.wf(),
            pos + 8 <= self.num_buckets(),
        ensures
            match r {
                Some(i) => pos <= i < pos + 8 && self.tags@[i as int] == TAG_EMPTY
                    && self.slots@[i as int] is None,
                None => forall|j: int|
                    0 <= j < 8 ==> #[trigger] self.tags@[pos + j] != TAG_EMPTY,
            },
    {
        let g = Group::load(&self.tags, pos);
        let m = g.match_empty();
        match m.lowest_set_bit() {
            Some(j) => {
                proof {
                    assert(self.tags@[pos + j] == TAG_EMPTY);
                    crate::control::lemma_special_tags();
                }
                Some(pos + j)
            },
            None => {
                proof {
                    assert forall|j: int| 0 <= j < 8 implies #[trigger] self.tags@[pos + j]
                        != TAG_EMPTY by {
                        assert(!m.has(j));
                    }
                }
                None
            },
        }
    }

    /// If no slot in either candidate window of `key` holds it with the right
    /// tag, the table does not contain `key`.
    proof fn lemma_absent(self, key: u64)
        requires
            self.wf(),
            0 <= self.pos0_of(key) <= self.num_buckets() - 8,
            0 <= self.pos1_of(key) <= self.num_buckets() - 8,
            forall|j: int|
                #![trigger self.slots@[self.pos0_of(key) + j]]
                0 <= j < 8 ==> !(self.slots@[self.pos0_of(key) + j] is Some && slot_key(
                    self.slots@,
                    self.pos0_of(key) + j,
                ) == key && self.tags@[self.pos0_of(key) + j] == self.tag_of(key)),
            forall|j: int|
                #![trigger self.slots@[self.pos1_of(key) + j]]
                0 <= j < 8 ==> !(self.slots@[self.pos1_of(key) + j] is Some && slot_key(
                    self.slots@,
                    self.pos1_of(key) + j,
                ) == key && self.tags@[self.pos1_of(key) + j] == self.tag_of(key)),
        ensures
            !table_contains(self.slots@, key),
            !self@.contains_key(key),
    {
        if table_contains(self.slots@, key) {
            let i = choose|i: int| live_at(self.slots@, i, key);
            assert(self.slots@[i] is Some);
            assert(self.in_windows(i, key));
            if in_win(self.pos0_of(key), i) {
                let j = i - self.pos0_of(key);
                assert(!(self.slots@[self.pos0_of(key) + j] is Some && slot_key(
                    self.slots@,
                    self.pos0_of(key) + j,
                ) == key && self.tags@[self.pos0_of(key) + j] == self.tag_of(key)));
            } else {
                let j = i - self.pos1_of(key);
                assert(!(self.slots@[self.pos1_of(key) + j] is Some && slot_key(
                    self.slots@,
                    self.pos1_of(key) + j,
                ) == key && self.tags@[self.pos1_of(key) + j] == self.tag_of(key)));
            }
        }
    }

    /// Allocates a table able to hold `capacity` entries at a load factor of
    /// at most seven eighths: the number of slots is the smallest power of
    /// two, not below one group, that is at least `capacity * 8 / 7`.
    pub fn with_capacity(capacity: usize) -> (t: Self)
        requires
            capacity <= usize::MAX / 16,
        ensures
            t.wf(),
            t@ == Map::<u64, V>::empty(),
            t.items == 0,
            t.num_buckets() >= capacity,
            8 * capacity <= 7 * t.num_buckets(),
            forall|i: int| 0 <= i < t.num_buckets() ==> t.tags@[i] == TAG_EMPTY,
    {
        let target = (capacity * 8 + 6) / 7;
        let mut n: usize = GROUP_WIDTH;
        proof {
            crate::probe::lemma_small_pow2();
        }
        while n < target
            invariant
                8 <= n <= usize::MAX / 4,
                target <= usize::MAX / 8,
                is_pow2(n as u64),
            decreases 2 * target - n,
        {
            proof {
                lemma_pow2_double(n as u64);
            }
            n = n + n;
        }
        let mut tags: Vec<u8> = Vec::new();
        let mut slots: Vec<Option<(u64, V)>> = Vec::new();
        let mut i: usize = 0;
        while i < n
            invariant
                i <= n,
                tags@.len() == i,
                slots@.len() == i,
                forall|j: int| 0 <= j < i ==> tags@[j] == TAG_EMPTY,
                forall|j: int| 0 <= j < i ==> slots@[j] is None,
            decreases n - i,
        {
            tags.push(TAG_EMPTY);
            slots.push(None);
            i = i + 1;
        }
        let mut rng = rng_with_seed(123);
        let seed = rng_u64(&mut rng);
        let t = HashTable {
            bucket_mask: n - 1,
            aligned_bucket_mask: n - GROUP_WIDTH,
            tags,
            slots,
            items: 0,
            seed,
            rng: rng_with_seed(123),
        };
        proof {
            lemma_map_all_open(t.slots@);
            assert(forall|i2: int| 0 <= i2 < n ==> !tag_is_full(#[trigger] t.tags@[i2])) by {
                crate::control::lemma_special_tags();
            }
        }
        t
    }

    /// Number of entries in the table: the occupied-slot count, which equals
    /// the number of distinct live keys.
    pub fn len(&self) -> (r: usize)
        requires
            self.wf(),
        ensures
            r as int == count_live(self.slots@) as int,
            r as int == self@.dom().len(),
    {
        proof {
            crate::model::lemma_count_is_dom_len(self.slots@);
        }
        self.items
    }

    /// Looks up the current value bound to `key`. Both candidate windows are
    /// probed unconditionally.
    pub fn get(&self, key: &u64) -> (r: Option<&V>)
        requires
            self.wf(),
        ensures
            match r {
                Some(v) => self@.contains_key(*key) && *v == self@[*key],
                None => !self@.contains_key(*key),
            },
    {
        let k = *key;
        let (_h, t, p0, p1) = self.probe_positions(k);
        if let Some(i) = self.find_in_window(p0, t, k) {
            proof {
                lemma_contains_at(self.slots@, i as int, k);
            }
            match &self.slots[i] {
                Some(pair) => Some(&pair.1),
                None => None,
            }
        } else if let Some(i) = self.find_in_window(p1, t, k) {
            proof {
                lemma_contains_at(self.slots@, i as int, k);
            }
            match &self.slots[i] {
                Some(pair) => Some(&pair.1),
                None => None,
            }
        } else {
            proof {
                self.lemma_absent(k);
            }
            None
        }
    }

    /// Writes `(key, value)` with tag `tag` into the EMPTY slot `i`.
    fn fill_slot(&mut self, i: usize, key: u64, value: V, tag: u8)
        requires
            old(self).wf(),
            i < old(self).num_buckets(),
            old(self).tags@[i as int] == TAG_EMPTY,
            !table_contains(old(self).slots@, key),
            tag == old(self).tag_of(key),
            old(self).in_windows(i as int, key),
        ensures
            final(self).wf(),
            final(self).seed == old(self).seed,
            final(self).bucket_mask == old(self).bucket_mask,
            final(self).aligned_bucket_mask == old(self).aligned_bucket_mask,
            final(self).num_buckets() == old(self).num_buckets(),
            final(self)@ == old(self)@.insert(key, value),
            final(self).items == old(self).items + 1,
            final(self).slots@ == old(self).slots@.update(i as int, Some((key, value))),
            live_at(final(self).slots@, i as int, key),
            slot_val(final(self).slots@, i as int) == value,
    {
        proof {
            crate::control::lemma_special_tags();
            lemma_count_le_len(self.slots@);
            crate::control::lemma_tag_of_hash_is_full(self.hash_of(key));
        }
        let ghost s0 = self.slots@;
        let ghost t0 = self.tags@;
        vec_set(&mut self.tags, i, tag);
        vec_set(&mut self.slots, i, Some((key, value)));
        self.items = self.items + 1;
        proof {
            lemma_map_fill(s0, i as int, key, value);
            let n = self.num_buckets();
            assert forall|j: int|
                0 <= j < n implies (tag_is_full(#[trigger] self.tags@[j])
                <==> self.slots@[j] is Some) by {
                if j != i {
                    assert(self.tags@[j] == t0[j]);
                    assert(self.slots@[j] == s0[j]);
                }
            }
            assert forall|j: int|
                0 <= j < n && #[trigger] self.slots@[j] is Some implies self.tags@[j]
                == self.tag_of(slot_key(self.slots@, j)) && self.in_windows(
                j,
                slot_key(self.slots@, j),
            ) by {
                if j != i {
                    assert(self.tags@[j] == t0[j]);
                    assert(self.slots@[j] == s0[j]);
                    assert(slot_key(self.slots@, j) == slot_key(s0, j));
                }
            }
        }
    }

    /// Overwrites the value of the occupied slot `i`, which holds `key`.
    fn update_slot(&mut self, i: usize, key: u64, value: V)
        requires
            old(self).wf(),
            live_at(old(self).slots@, i as int, key),
        ensures
            final(self).wf(),
            final(self).seed == old(self).seed,
            final(self).bucket_mask == old(self).bucket_mask,
            final(self).aligned_bucket_mask == old(self).aligned_bucket_mask,
            final(self).num_buckets() == old(self).num_buckets(),
            final(self)@ == old(self)@.insert(key, value),
            old(self)@.contains_key(key),
            final(self).items == old(self).items,
            live_at(final(self).slots@, i as int, key),
            slot_val(final(self).slots@, i as int) == value,
    {
        proof {
            lemma_contains_at(self.slots@, i as int, key);
        }
        let ghost s0 = self.slots@;
        vec_set(&mut self.slots, i, Some((key, value)));
        proof {
            lemma_map_update_value(s0, i as int, key, value);
            let n = self.num_buckets();
            assert forall|j: int|
                0 <= j < n implies (tag_is_full(#[trigger] self.tags@[j])
                <==> self.slots@[j] is Some) by {
                if j != i {
                    assert(self.slots@[j] == s0[j]);
                }
            }
            assert forall|j: int|
                0 <= j < n && #[trigger] self.slots@[j] is Some implies self.tags@[j]
                == self.tag_of(slot_key(self.slots@, j)) && self.in_windows(
                j,
                slot_key(self.slots@, j),
            ) by {
                assert(slot_key(self.slots@, j) == slot_key(s0, j));
                if j != i {
                    assert(self.slots@[j] == s0[j]);
                }
            }
        }
    }

    /// Inserts `key` bound to `value`, overwriting the value if the key is
    /// already present. A fresh key goes into an EMPTY slot of one of its two
    /// windows — preferring the second window when its free slot lies near
    /// the window's end — and otherwise displaces pseudo-randomly chosen
    /// occupants for a bounded number of steps. A walk that exhausts its
    /// budget is unwound and `None` is returned with the table unchanged.
    pub fn insert(&mut self, key: u64, value: V) -> (r: Option<(bool, usize)>)
        requires
            old(self).wf(),
        ensures
            final(self).wf(),
            final(self).seed == old(self).seed,
            final(self).bucket_mask == old(self).bucket_mask,
            final(self).aligned_bucket_mask == old(self).aligned_bucket_mask,
            final(self).num_buckets() == old(self).num_buckets(),
            match r {
                Some(t) => {
                    &&& final(self)@ == old(self)@.insert(key, value)
                    &&& t.0 == !old(self)@.contains_key(key)
                    &&& t.1 < final(self).num_buckets() && live_at(
                        final(self).slots@,
                        t.1 as int,
                        key,
                    ) && slot_val(final(self).slots@, t.1 as int) == value
                    &&& final(self).items as int == old(self).items + (if t.0 {
                        1int
                    } else {
                        0int
                    })
                },
                None => {
                    &&& final(self)@ == old(self)@
                    &&& final(self).items == old(self).items
                    &&& !old(self)@.contains_key(key)
                    &&& final(self).tags@ == old(self).tags@
                    &&& final(self).slots@ == old(self).slots@
                },
            },
            old(self)@.contains_key(key) ==> r is Some && !(r->0).0,
            (!old(self)@.contains_key(key) && (old(self).window_has_empty(old(self).pos0_of(key))
                || old(self).window_has_empty(old(self).pos1_of(key)))) ==> r is Some,
    {
        let (_h, t, p0, p1) = self.probe_positions(key);
        if let Some(i) = self.find_in_window(p0, t, key) {
            self.update_slot(i, key, value);
            return Some((false, i));
        }
        if let Some(i) = self.find_in_window(p1, t, key) {
            self.update_slot(i, key, value);
            return Some((false, i));
        }
        proof {
            self.lemma_absent(key);
        }
        // Balanced placement: prefer the second window when its free slot
        // lies in the last couple of lanes and the first window's free slot
        // is no earlier.
        let g0 = Group::load(&self.tags, p0);
        let g1 = Group::load(&self.tags, p1);
        let m0e = g0.match_empty();
        let m1e = g1.match_empty();
        let e0 = m0e.trailing_zeros();
        let e1 = m1e.trailing_zeros();
        if e1 < 8 && e1 > GROUP_WIDTH - 3 && e1 < e0 {
            proof {
                assert(self.tags@[p1 + e1] == TAG_EMPTY);
                crate::control::lemma_special_tags();
            }
            self.fill_slot(p1 + e1, key, value, t);
            return Some((true, p1 + e1));
        }
        if e0 < 8 {
            proof {
                assert(self.tags@[p0 + e0] == TAG_EMPTY);
                crate::control::lemma_special_tags();
            }
            self.fill_slot(p0 + e0, key, value, t);
            return Some((true, p0 + e0));
        }
        if e1 < 8 {
            proof {
                assert(self.tags@[p1 + e1] == TAG_EMPTY);
                crate::control::lemma_special_tags();
            }
            self.fill_slot(p1 + e1, key, value, t);
            return Some((true, p1 + e1));
        }
        proof {
            assert forall|j: int| 0 <= j < 8 implies #[trigger] self.tags@[p0 + j]
                != TAG_EMPTY by {
                assert(!m0e.has(j));
            }
            assert forall|j: int| 0 <= j < 8 implies #[trigger] self.tags@[p1 + j]
                != TAG_EMPTY by {
                assert(!m1e.has(j));
            }
        }
        self.insert_walk(key, value, t, p1)
    }

    /// Places a fresh key by a bounded random walk of displacements over its
    /// candidate windows, unwinding every displacement if the budget runs
    /// out.
    fn insert_walk(&mut self, key: u64, value: V, tag: u8, start: usize) -> (r: Option<
        (bool, usize),
    >)
        requires
            old(self).wf(),
            !table_contains(old(self).slots@, key),
            tag == old(self).tag_of(key),
            start as int == old(self).pos1_of(key),
            start + 8 <= old(self).num_buckets(),
        ensures
            final(self).wf(),
            final(self).seed == old(self).seed,
            final(self).bucket_mask == old(self).bucket_mask,
            final(self).aligned_bucket_mask == old(self).aligned_bucket_mask,
            final(self).num_buckets() == old(self).num_buckets(),
            match r {
                Some(t2) => {
                    &&& t2.0
                    &&& final(self)@ == old(self)@.insert(key, value)
                    &&& t2.1 < final(self).num_buckets() && live_at(
                        final(self).slots@,
                        t2.1 as int,
                        key,
                    ) && slot_val(final(self).slots@, t2.1 as int) == value
                    &&& final(self).items as int == old(self).items + 1
                },
                None => {
                    &&& final(self)@ == old(self)@
                    &&& final(self).items == old(self).items
                    &&& final(self).tags@ == old(self).tags@
                    &&& final(self).slots@ == old(self).slots@
                },
            },
    {
        let budget = self.bucket_mask + 1;
        let mut hand_k = key;
        let mut hand_v = value;
        let mut hand_t = tag;
        let mut pos = start;
        let mut key_slot: usize = 0;
        let mut log: Vec<(usize, u8, Option<(u64, V)>)> = Vec::new();
        let ghost m0 = table_map(old(self).slots@);
        let ghost mut snaps: Seq<(Seq<u8>, Seq<Option<(u64, V)>>)> = seq![
            (self.tags@, self.slots@),
        ];
        let mut steps: usize = 0;
        loop
            invariant_except_break
                self.wf(),
                self.seed == old(self).seed,
                self.bucket_mask == old(self).bucket_mask,
                self.aligned_bucket_mask == old(self).aligned_bucket_mask,
                self.num_buckets() == old(self).num_buckets(),
                self.items == old(self).items,
                hand_t == self.tag_of(hand_k),
                !table_contains(self.slots@, hand_k),
                hand_k != key ==> key_slot < self.num_buckets() && live_at(
                    self.slots@,
                    key_slot as int,
                    key,
                ) && slot_val(self.slots@, key_slot as int) == value,
                hand_k == key ==> hand_v == value,
                pos as int == self.pos0_of(hand_k) || pos as int == self.pos1_of(hand_k),
                pos + 8 <= self.num_buckets(),
                table_map(self.slots@).insert(hand_k, hand_v) == m0.insert(key, value),
                m0 == table_map(old(self).slots@),
                !m0.contains_key(key),
                budget == self.num_buckets(),
                steps <= budget,
                steps == log.len(),
                snaps.len() == log.len() + 1,
                snaps[0] == (old(self).tags@, old(self).slots@),
                (self.tags@, self.slots@) == snaps[snaps.len() - 1],
                forall|q: int|
                    0 <= q < log.len() ==> (#[trigger] log@[q]).0 < self.num_buckets()
                        && snaps[q].0 == snaps[q + 1].0.update(log@[q].0 as int, log@[q].1)
                        && snaps[q].1 == snaps[q + 1].1.update(log@[q].0 as int, log@[q].2),
            ensures
                self.seed == old(self).seed,
                self.bucket_mask == old(self).bucket_mask,
                self.aligned_bucket_mask == old(self).aligned_bucket_mask,
                self.num_buckets() == old(self).num_buckets(),
                self.items == old(self).items,
                self.tags@.len() == self.num_buckets(),
                self.slots@.len() == self.num_buckets(),
                snaps.len() == log.len() + 1,
                snaps[0] == (old(self).tags@, old(self).slots@),
                (self.tags@, self.slots@) == snaps[snaps.len() - 1],
                forall|q: int|
                    0 <= q < log.len() ==> (#[trigger] log@[q]).0 < self.num_buckets()
                        && snaps[q].0 == snaps[q + 1].0.update(log@[q].0 as int, log@[q].1)
                        && snaps[q].1 == snaps[q + 1].1.update(log@[q].0 as int, log@[q].2),
            decreases budget - steps,
        {
            match self.find_empty_in_window(pos) {
                Some(i) => {
                    let ghost s_pre = self.slots@;
                    self.fill_slot(i, hand_k, hand_v, hand_t);
                    proof {
                        assert(table_map(self.slots@) =~= m0.insert(key, value));
                        assert(self@ =~= old(self)@.insert(key, value));
                    }
                    if hand_k == key {
                        return Some((true, i));
                    }
                    proof {
                        assert(s_pre[key_slot as int] is Some);
                        assert(key_slot != i);
                        assert(self.slots@[key_slot as int] == s_pre[key_slot as int]);
                        assert(live_at(self.slots@, key_slot as int, key));
                    }
                    return Some((true, key_slot));
                },
                None => {},
            }
            if steps >= budget {
                break ;
            }
            // Evict a pseudo-randomly chosen occupant of the colliding
            // window and carry it onwards to its other window.
            let lane = rng_usize(&mut self.rng) % 8;
            let idx = pos + lane;
            let (ek, ev) = match self.slots[idx] {
                Some(pair) => pair,
                None => {
                    break ;
                },
            };
            let et = self.tags[idx];
            proof {
                assert(self.slots@[idx as int] is Some);
                assert(ek == slot_key(self.slots@, idx as int));
                assert(live_at(self.slots@, idx as int, ek));
                lemma_contains_at(self.slots@, idx as int, ek);
                assert(ek != hand_k);
                assert(et == self.tag_of(ek));
            }
            let ghost s1 = self.slots@;
            let ghost t1 = self.tags@;
            let ghost log0 = log@;
            let ghost snaps0 = snaps;
            log.push((idx, et, self.slots[idx]));
            vec_set(&mut self.tags, idx, hand_t);
            vec_set(&mut self.slots, idx, Some((hand_k, hand_v)));
            proof {
                lemma_map_clear(s1, idx as int, ek);
                let mid = s1.update(idx as int, None);
                assert(self.slots@ =~= mid.update(idx as int, Some((hand_k, hand_v))));
                assert(!table_contains(mid, hand_k)) by {
                    if table_contains(mid, hand_k) {
                        let w = choose|w: int| live_at(mid, w, hand_k);
                        assert(live_at(s1, w, hand_k));
                    }
                }
                lemma_map_fill(mid, idx as int, hand_k, hand_v);
                assert(table_map(self.slots@) == table_map(s1).remove(ek).insert(hand_k, hand_v));
                let n = self.num_buckets();
                assert forall|j: int|
                    0 <= j < n implies (tag_is_full(#[trigger] self.tags@[j])
                    <==> self.slots@[j] is Some) by {
                    if j != idx {
                        assert(self.tags@[j] == t1[j]);
                        assert(self.slots@[j] == s1[j]);
                    } else {
                        crate::control::lemma_tag_of_hash_is_full(self.hash_of(hand_k));
                    }
                }
                assert forall|j: int|
                    0 <= j < n && #[trigger] self.slots@[j] is Some implies self.tags@[j]
                    == self.tag_of(slot_key(self.slots@, j)) && self.in_windows(
                    j,
                    slot_key(self.slots@, j),
                ) by {
                    if j != idx {
                        assert(self.tags@[j] == t1[j]);
                        assert(self.slots@[j] == s1[j]);
                        assert(slot_key(self.slots@, j) == slot_key(s1, j));
                    } else {
                        assert(slot_key(self.slots@, j) == hand_k);
                        assert(self.tags@[j] == hand_t);
                    }
                }
                assert(table_map(s1).contains_key(ek) && table_map(s1)[ek] == ev) by {
                    lemma_contains_at(s1, idx as int, ek);
                }
                assert(table_map(self.slots@).insert(ek, ev) =~= m0.insert(key, value)) by {
                    assert(table_map(s1).insert(hand_k, hand_v) == m0.insert(key, value));
                }
                assert(!table_contains(self.slots@, ek)) by {
                    if table_contains(self.slots@, ek) {
                        let w = choose|w: int| live_at(self.slots@, w, ek);
                        assert(table_map(self.slots@).contains_key(ek)) by {
                            lemma_contains_at(self.slots@, w, ek);
                        }
                        assert(table_map(self.slots@) == table_map(s1).remove(ek).insert(
                            hand_k,
                            hand_v,
                        ));
                    }
                }
                snaps = snaps0.push((self.tags@, self.slots@));
                assert forall|q: int|
                    0 <= q < log@.len() implies (#[trigger] log@[q]).0 < self.num_buckets()
                        && snaps[q].0 == snaps[q + 1].0.update(log@[q].0 as int, log@[q].1)
                        && snaps[q].1 == snaps[q + 1].1.update(log@[q].0 as int, log@[q].2) by {
                    if q < log0.len() {
                        assert(log@[q] == log0[q]);
                        assert(snaps[q] == snaps0[q]);
                        assert(snaps[q + 1] == snaps0[q + 1]);
                    } else {
                        assert(log@[q] == (idx, et, s1[idx as int]));
                        assert(snaps[q] == (t1, s1));
                        assert(snaps[q + 1] == (self.tags@, self.slots@));
                        assert(t1 =~= self.tags@.update(idx as int, et));
                        assert(s1 =~= self.slots@.update(idx as int, s1[idx as int]));
                    }
                }
            }
            if hand_k == key {
                key_slot = idx;
            }
            proof {
                if ek != key {
                    if hand_k != key {
                        assert(s1[key_slot as int] is Some);
                        assert(slot_key(s1, key_slot as int) == key);
                        assert(key_slot != idx);
                        assert(self.slots@[key_slot as int] == s1[key_slot as int]);
                    }
                }
            }
            // The displaced occupant moves on to its other window.
            let (_eh, _et2, ep0, ep1) = self.probe_positions(ek);
            if ep0 == pos {
                pos = ep1;
            } else {
                pos = ep0;
            }
            hand_k = ek;
            hand_v = ev;
            hand_t = et;
            steps = steps + 1;
        }
        // The walk ran out of budget with an entry still in hand: unwind the
        // recorded displacements, restoring the table exactly.
        let mut k = log.len();
        while k > 0
            invariant
                k <= log.len(),
                snaps.len() == log.len() + 1,
                snaps[0] == (old(self).tags@, old(self).slots@),
                (self.tags@, self.slots@) == snaps[k as int],
                self.tags@.len() == self.num_buckets(),
                self.slots@.len() == self.num_buckets(),
                self.seed == old(self).seed,
                self.bucket_mask == old(self).bucket_mask,
                self.aligned_bucket_mask == old(self).aligned_bucket_mask,
                self.num_buckets() == old(self).num_buckets(),
                self.items == old(self).items,
                old(self).tags@.len() == old(self).num_buckets(),
                old(self).slots@.len() == old(self).num_buckets(),
                forall|q: int|
                    0 <= q < log.len() ==> (#[trigger] log@[q]).0 < self.num_buckets()
                        && snaps[q].0 == snaps[q + 1].0.update(log@[q].0 as int, log@[q].1)
                        && snaps[q].1 == snaps[q + 1].1.update(log@[q].0 as int, log@[q].2),
            decreases k,
        {
            k = k - 1;
            let entry = log[k];
            proof {
                assert(snaps[k as int].0 == snaps[k as int + 1].0.update(
                    entry.0 as int,
                    entry.1,
                ));
            }
            vec_set(&mut self.tags, entry.0, entry.1);
            vec_set(&mut self.slots, entry.0, entry.2);
            proof {
                assert(self.tags@ == snaps[k as int].0);
                assert(self.slots@ == snaps[k as int].1);
            }
        }
        proof {
            assert(self.tags@ == old(self).tags@);
            assert(self.slots@ == old(self).slots@);
            assert forall|i2: int|
                0 <= i2 < self.num_buckets() && #[trigger] self.slots@[i2] is Some implies
                self.tags@[i2] == self.tag_of(slot_key(self.slots@, i2)) && self.in_windows(
                i2,
                slot_key(self.slots@, i2),
            ) by {
                assert(old(self).slots@[i2] is Some);
                assert(old(self).in_windows(i2, slot_key(old(self).slots@, i2)));
            }
        }
        None
    }

    /// Clears the occupied slot at `index`, removing its key from the table.
    /// Cuckoo lookups probe both candidate windows of a key unconditionally,
    /// so the slot can always be reopened as EMPTY; no tombstone is needed.
    pub fn erase_index(&mut self, index: usize)
        requires
            old(self).wf(),
            index < old(self).num_buckets(),
            old(self).slots@[index as int] is Some,
        ensures
            final(self).wf(),
            final(self).seed == old(self).seed,
            final(self).bucket_mask == old(self).bucket_mask,
            final(self).aligned_bucket_mask == old(self).aligned_bucket_mask,
            final(self).num_buckets() == old(self).num_buckets(),
            final(self)@ == old(self)@.remove(slot_key(old(self).slots@, index as int)),
            !final(self)@.contains_key(slot_key(old(self).slots@, index as int)),
            final(self).items + 1 == old(self).items,
            final(self).tags@ == old(self).tags@.update(index as int, TAG_EMPTY),
            final(self).slots@ == old(self).slots@.update(index as int, None),
    {
        let ghost s0 = self.slots@;
        let ghost t0 = self.tags@;
        let ghost k = slot_key(s0, index as int);
        vec_set(&mut self.tags, index, TAG_EMPTY);
        vec_set(&mut self.slots, index, None);
        proof {
            lemma_map_clear(s0, index as int, k);
            crate::control::lemma_special_tags();
        }
        self.items = self.items - 1;
        proof {
            let n = self.num_buckets();
            assert forall|j: int|
                0 <= j < n implies (tag_is_full(#[trigger] self.tags@[j])
                <==> self.slots@[j] is Some) by {
                if j != index {
                    assert(self.tags@[j] == t0[j]);
                    assert(self.slots@[j] == s0[j]);
                }
            }
            assert forall|j: int|
                0 <= j < n && #[trigger] self.slots@[j] is Some implies self.tags@[j]
                == self.tag_of(slot_key(self.slots@, j)) && self.in_windows(
                j,
                slot_key(self.slots@, j),
            ) by {
                if j != index {
                    assert(self.tags@[j] == t0[j]);
                    assert(self.slots@[j] == s0[j]);
                    assert(slot_key(self.slots@, j) == slot_key(s0, j));
                }
            }
            assert(table_map(self.slots@).dom() =~= table_map(s0).remove(k).dom());
        }
    }

    /// Inserts a key and immediately erases it again when it was newly
    /// installed; an already-present key only has its value overwritten. The
    /// entry count is unchanged either way. Returns false, leaving the table
    /// unchanged, when the displacement walk could not place the key.
    pub fn insert_and_erase(&mut self, key: u64, value: V) -> (r: bool)
        requires
            old(self).wf(),
        ensures
            final(self).wf(),
            final(self).seed == old(self).seed,
            final(self).bucket_mask == old(self).bucket_mask,
            final(self).num_buckets() == old(self).num_buckets(),
            final(self).items == old(self).items,
            old(self)@.contains_key(key) ==> r && final(self)@ == old(self)@.insert(key, value),
            !old(self)@.contains_key(key) ==> final(self)@ == old(self)@,
    {
        let ghost m0 = self@;
        match self.insert(key, value) {
            Some((inserted, index)) => {
                if inserted {
                    proof {
                        assert(live_at(self.slots@, index as int, key));
                    }
                    self.erase_index(index);
                    proof {
                        assert(self@ =~= m0);
                    }
                }
                true
            },
            None => false,
        }
    }
}

} // verus!
