//! Cuckoo hashing over buckets of four keys compared directly, with no
//! metadata tags: the key itself is the tag, and key zero is reserved as the
//! empty-lane sentinel. The value bound to key zero lives in a separate side
//! slot. Each key has two candidate buckets — the hash masked to a bucket
//! index, and the hash XORed with its own half-word rotation, masked the same
//! way — paired by an XOR involution that the displacement search recovers by
//! rehashing an occupant's key.

use vstd::prelude::*;

use crate::control64::{search, BUCKET_SIZE};
use crate::model::{
    slot_key, slot_val, slots_distinct, live_at, table_contains, table_map, count_live,
    lemma_contains_at, lemma_map_update_value, lemma_map_fill, lemma_map_clear, lemma_map_move,
    lemma_map_all_open, lemma_count_le_len, vec_set,
};
use crate::probe::{
    is_pow2, spec_rotl32, rotl32, lemma_pow2_double, lemma_below_mask_fixed, lemma_masked_props,
    lemma_window_xor_mask, lemma_xor_and_distribute, lemma_xor_cancel,
};
use crate::rng::{rng_with_seed, rng_u64};
use crate::u64_fold_hash_fast::{spec_fold_hash, fold_hash_fast};

verus! {

/// Upper bound on the number of displacement-search nodes examined: two
/// complete trees of fan-out four, explored to depth three.
pub const BFS_MAX_LEN: usize = 2 * (1 + 4 + 4 * 4 + 4 * 4 * 4);

/// One node of the displacement search: a candidate bucket, the queue index
/// of the node it was reached from, and the lane of the occupant whose
/// eviction leads here.
struct BfsNode {
    pos: usize,
    parent: usize,
    offset: usize,
}

pub struct HashTable<V: Copy> {
    /// One less than the number of buckets.
    pub bucket_mask: usize,
    /// Four keys per bucket, flattened; zero marks an empty lane.
    pub keys: Vec<u64>,
    /// The entries, one per key lane.
    pub slots: Vec<Option<(u64, V)>>,
    /// The value bound to key zero, which cannot use a key lane.
    pub zero_value: Option<V>,
    /// Number of entries, the zero key's included.
    pub items: usize,
    /// Seed of the hash mixer.
    pub seed: u64,
}

impl<V: Copy> View for HashTable<V> {
    type V = Map<u64, V>;

    /// The table denotes the map from occupied-lane keys to their values,
    /// with the side slot supplying key zero's binding.
    open spec fn view(&self) -> Map<u64, V> {
        match self.zero_value {
            Some(v) => table_map(self.slots@).insert(0u64, v),
            None => table_map(self.slots@),
        }
    }
}

impl<V: Copy> HashTable<V> {
    /// Number of buckets.
    pub open spec fn num_buckets(self) -> int {
        self.bucket_mask as int + 1
    }

    /// Number of key lanes.
    pub open spec fn num_lanes(self) -> int {
        self.slots@.len() as int
    }

    /// The hash of a key under this table's seed.
    pub open spec fn hash_of(self, k: u64) -> u64 {
        spec_fold_hash(k, self.seed)
    }

    /// The key's first candidate bucket.
    pub open spec fn pos0_of(self, k: u64) -> int {
        (self.hash_of(k) & (self.bucket_mask as u64)) as int
    }

    /// The key's second candidate bucket.
    pub open spec fn pos1_of(self, k: u64) -> int {
        ((self.hash_of(k) ^ spec_rotl32(self.hash_of(k))) & (self.bucket_mask as u64)) as int
    }

    /// Lane `i` lies in one of the key's two candidate buckets.
    pub open spec fn in_windows(self, i: int, k: u64) -> bool {
        i / 4 == self.pos0_of(k) || i / 4 == self.pos1_of(k)
    }

    /// Bucket `b` has an empty lane.
    pub open spec fn bucket_has_empty(self, b: int) -> bool {
        exists|j: int| 0 <= j < 4 && #[trigger] self.keys@[4 * b + j] == 0
    }

    /// Well-formedness: a power-of-two number of four-lane buckets; the key
    /// array shadows the entries, with zero marking the open lanes; occupied
    /// lanes hold distinct nonzero keys sitting in one of their two candidate
    /// buckets; `items` counts the entries, the side slot's included.
    pub open spec fn wf(self) -> bool {
        let nb = self.num_buckets();
        &&& self.slots@.len() == 4 * nb
        &&& self.keys@.len() == 4 * nb
        &&& 1 <= nb <= usize::MAX / 8
        &&& is_pow2(nb as u64)
        &&& slots_distinct(self.slots@)
        &&& self.items as int == count_live(self.slots@) + (if self.zero_value is Some {
            1int
        } else {
            0int
        })
        &&& forall|i: int|
            0 <= i < 4 * nb ==> #[trigger] self.keys@[i] == (if self.slots@[i] is Some {
                slot_key(self.slots@, i)
            } else {
                0u64
            })
        &&& forall|i: int|
            0 <= i < 4 * nb && #[trigger] self.slots@[i] is Some ==> slot_key(self.slots@, i) != 0
                && self.in_windows(i, slot_key(self.slots@, i))
    }

    /// Key zero never occupies a lane, so the lane map never contains it.
    proof fn lemma_zero_not_in_lanes(self)
        requires
            self.wf(),
        ensures
            !table_contains(self.slots@, 0u64),
            !table_map(self.slots@).contains_key(0u64),
    {
        if table_contains(self.slots@, 0u64) {
            let i = choose|i: int| live_at(self.slots@, i, 0u64);
            assert(self.slots@[i] is Some);
        }
    }

    /// The two candidate buckets of a key are a pair under XOR with the
    /// masked rotation of its hash: applying it to either one yields the
    /// other, and both are bucket indices inside the table.
    pub proof fn lemma_window_pair(self, k: u64)
        requires
            self.wf(),
        ensures
            0 <= self.pos0_of(k) <= self.bucket_mask,
            0 <= self.pos1_of(k) <= self.bucket_mask,
            self.pos1_of(k) == ((self.pos0_of(k) as u64) ^ (spec_rotl32(self.hash_of(k)) & (
            self.bucket_mask as u64))) as int,
            self.pos0_of(k) == ((self.pos1_of(k) as u64) ^ (spec_rotl32(self.hash_of(k)) & (
            self.bucket_mask as u64))) as int,
    {
        let m = self.bucket_mask as u64;
        let h = self.hash_of(k);
        let s = spec_rotl32(h);
        lemma_masked_props(m, h);
        lemma_masked_props(m, h ^ s);
        lemma_masked_props(m, s);
        lemma_xor_and_distribute(h, s, m);
        lemma_xor_cancel(h & m, s & m);
    }

    /// Computes the hash and the two candidate buckets of a key.
    fn probe_positions(&self, key: u64) -> (r: (u64, usize, usize))
        requires
            self.wf(),
        ensures
            r.0 == self.hash_of(key),
            r.1 as int == self.pos0_of(key),
            r.2 as int == self.pos1_of(key),
            r.1 <= self.bucket_mask,
            r.2 <= self.bucket_mask,
    {
        let h = fold_hash_fast(key, self.seed);
        let m = self.bucket_mask as u64;
        proof {
            self.lemma_window_pair(key);
        }
        let p0 = (h & m) as usize;
        let p1 = ((h ^ rotl32(h)) & m) as usize;
        (h, p0, p1)
    }

    /// Loads the four keys of bucket `b`.
    fn load_bucket(&self, b: usize) -> (arr: [u64; BUCKET_SIZE])
        requires
            self.wf(),
            b <= self.bucket_mask,
        ensures
            forall|j: int| 0 <= j < 4 ==> arr@[j] == self.keys@[4 * b + j],
    {
        let base = 4 * b;
        [self.keys[base], self.keys[base + 1], self.keys[base + 2], self.keys[base + 3]]
    }

    /// Scans bucket `b` for a lane holding the nonzero key `key`.
    fn find_in_bucket(&self, b: usize, key: u64) -> (r: Option<usize>)
        requires
            self.wf(),
            b <= self.bucket_mask,
            key != 0,
        ensures
            match r {
                Some(i) => 4 * b <= i < 4 * b + 4 && live_at(self.slots@, i as int, key),
                None => forall|j: int| 0 <= j < 4 ==> #[trigger] self.keys@[4 * b + j] != key,
            },
    {
        let arr = self.load_bucket(b);
        match search(key, arr) {
            Some(lane) => {
                let i = 4 * b + lane;
                proof {
                    assert(self.keys@[i as int] == key);
                    assert(self.slots@[i as int] is Some);
                    assert(slot_key(self.slots@, i as int) == key);
                }
                Some(i)
            },
            None => {
                proof {
                    assert forall|j: int| 0 <= j < 4 implies #[trigger] self.keys@[4 * b + j]
                        != key by {
                        assert(arr@[j] != key);
                    }
                }
                None
            },
        }
    }

    /// Scans bucket `b` for an empty lane, returning the first.
    fn find_empty_in_bucket(&self, b: usize) -> (r: Option<usize>)
        requires
            self.wf(),
            b <= self.bucket_mask,
        ensures
            match r {
                Some(i) => 4 * b <= i < 4 * b + 4 && self.keys@[i as int] == 0
                    && self.slots@[i as int] is None,
                None => !self.bucket_has_empty(b as int),
            },
    {
        let arr = self.load_bucket(b);
        match search(0, arr) {
            Some(lane) => {
                let i = 4 * b + lane;
                proof {
                    assert(self.keys@[i as int] == 0);
                    if self.slots@[i as int] is Some {
                        assert(slot_key(self.slots@, i as int) != 0);
                    }
                }
                Some(i)
            },
            None => {
                proof {
                    assert forall|j: int| 0 <= j < 4 implies #[trigger] self.keys@[4 * b + j]
                        != 0 by {
                        assert(arr@[j] != 0);
                    }
                }
                None
            },
        }
    }

    /// If neither candidate bucket of the nonzero key holds it, the lane map
    /// does not contain it.
    proof fn lemma_absent(self, key: u64)
        requires
            self.wf(),
            key != 0,
            forall|j: int| 0 <= j < 4 ==> #[trigger] self.keys@[4 * self.pos0_of(key) + j] != key,
            forall|j: int| 0 <= j < 4 ==> #[trigger] self.keys@[4 * self.pos1_of(key) + j] != key,
        ensures
            !table_contains(self.slots@, key),
    {
        if table_contains(self.slots@, key) {
            let i = choose|i: int| live_at(self.slots@, i, key);
            assert(self.slots@[i] is Some);
            assert(self.in_windows(i, key));
            assert(self.keys@[i] == key);
            if i / 4 == self.pos0_of(key) {
                let j = i - 4 * self.pos0_of(key);
                assert(self.keys@[4 * self.pos0_of(key) + j] != key);
            } else {
                let j = i - 4 * self.pos1_of(key);
                assert(self.keys@[4 * self.pos1_of(key) + j] != key);
            }
        }
    }

    /// Allocates a table able to hold `capacity` entries at a load factor of
    /// at most seven eighths: the smallest power-of-two number of four-lane
    /// buckets offering at least `capacity * 8 / 7` lanes.
    pub fn with_capacity(capacity: usize) -> (t: Self)
        requires
            capacity <= usize::MAX / 16,
        ensures
            t.wf(),
            t@ == Map::<u64, V>::empty(),
            t.items == 0,
            t.num_lanes() >= capacity,
            8 * capacity <= 7 * t.num_lanes(),
            forall|i: int| 0 <= i < t.num_lanes() ==> t.keys@[i] == 0,
    {
        let target = (capacity * 8 + 6) / 7;
        let mut nb: usize = 1;
        proof {
            crate::probe::lemma_small_pow2();
        }
        while 4 * nb < target
            invariant
                1 <= nb <= usize::MAX / 8,
                target <= usize::MAX / 8,
                is_pow2(nb as u64),
            decreases 2 * target - nb,
    {
            proof {
                lemma_pow2_double(nb as u64);
            }
            nb = nb + nb;
        }
        let n = 4 * nb;
        let mut keys: Vec<u64> = Vec::new();
        let mut slots: Vec<Option<(u64, V)>> = Vec::new();
        let mut i: usize = 0;
        while i < n
            invariant
                i <= n,
                keys@.len() == i,
                slots@.len() == i,
                forall|j: int| 0 <= j < i ==> keys@[j] == 0,
                forall|j: int| 0 <= j < i ==> slots@[j] is None,
            decreases n - i,
        {
            keys.push(0);
            slots.push(None);
            i = i + 1;
        }
        let mut rng = rng_with_seed(123);
        let seed = rng_u64(&mut rng);
        let t = HashTable { bucket_mask: nb - 1, keys, slots, zero_value: None, items: 0, seed };
        proof {
            lemma_map_all_open(t.slots@);
        }
        t
    }

    /// Number of entries in the table: the occupied lanes plus the side
    /// slot, which equals the number of distinct live keys.
    pub fn len(&self) -> (r: usize)
        requires
            self.wf(),
        ensures
            r as int == count_live(self.slots@) + (if self.zero_value is Some {
                1int
            } else {
                0int
            }),
            r as int == self@.dom().len(),
    {
        proof {
            crate::model::lemma_count_is_dom_len(self.slots@);
            self.lemma_zero_not_in_lanes();
            match self.zero_value {
                Some(v) => {
                    assert(self@.dom() =~= table_map(self.slots@).dom().insert(0u64));
                },
                None => {},
            }
        }
        self.items
    }

    /// Looks up the current value bound to `key`.
    pub fn get(&self, key: &u64) -> (r: Option<&V>)
        requires
            self.wf(),
        ensures
            match r {
                Some(v) => self@.contains_key(*key) && *v == self@[*key],
                None => !self@.contains_key(*key),
            },
    {
        let k = *key;
        if k == 0 {
            proof {
                self.lemma_zero_not_in_lanes();
            }
            return self.zero_value.as_ref();
        }
        let (_h, p0, p1) = self.probe_positions(k);
        if let Some(i) = self.find_in_bucket(p0, k) {
            proof {
                lemma_contains_at(self.slots@, i as int, k);
            }
            match &self.slots[i] {
                Some(pair) => Some(&pair.1),
                None => None,
            }
        } else if let Some(i) = self.find_in_bucket(p1, k) {
            proof {
                lemma_contains_at(self.slots@, i as int, k);
            }
            match &self.slots[i] {
                Some(pair) => Some(&pair.1),
                None => None,
            }
        } else {
            proof {
                self.lemma_absent(k);
            }
            None
        }
    }

    /// Writes `(key, value)` into the empty lane `i` of one of the key's
    /// candidate buckets.
    fn fill_slot(&mut self, i: usize, key: u64, value: V)
        requires
            old(self).wf(),
            i < old(self).num_lanes(),
            old(self).slots@[i as int] is None,
            !table_contains(old(self).slots@, key),
            key != 0,
            old(self).in_windows(i as int, key),
        ensures
            final(self).wf(),
            final(self).seed == old(self).seed,
            final(self).bucket_mask == old(self).bucket_mask,
            final(self).zero_value == old(self).zero_value,
            final(self).num_lanes() == old(self).num_lanes(),
            final(self)@ == old(self)@.insert(key, value),
            final(self).items == old(self).items + 1,
            final(self).slots@ == old(self).slots@.update(i as int, Some((key, value))),
            final(self).keys@ == old(self).keys@.update(i as int, key),
            live_at(final(self).slots@, i as int, key),
            slot_val(final(self).slots@, i as int) == value,
    {
        proof {
            lemma_count_le_len(self.slots@);
        }
        let ghost s0 = self.slots@;
        let ghost k0 = self.keys@;
        vec_set(&mut self.keys, i, key);
        vec_set(&mut self.slots, i, Some((key, value)));
        self.items = self.items + 1;
        proof {
            lemma_map_fill(s0, i as int, key, value);
            let n = self.num_lanes();
            assert forall|j: int|
                0 <= j < n implies #[trigger] self.keys@[j] == (if self.slots@[j] is Some {
                slot_key(self.slots@, j)
            } else {
                0u64
            }) by {
                if j != i {
                    assert(self.keys@[j] == k0[j]);
                    assert(self.slots@[j] == s0[j]);
                }
            }
            assert forall|j: int|
                0 <= j < n && #[trigger] self.slots@[j] is Some implies slot_key(self.slots@, j)
                != 0 && self.in_windows(j, slot_key(self.slots@, j)) by {
                if j != i {
                    assert(self.slots@[j] == s0[j]);
                    assert(slot_key(self.slots@, j) == slot_key(s0, j));
                }
            }
            match self.zero_value {
                Some(zv) => {
                    assert(self@ =~= old(self)@.insert(key, value));
                },
                None => {},
            }
        }
    }

    /// Overwrites the value of the occupied lane `i`, which holds `key`.
    fn update_slot(&mut self, i: usize, key: u64, value: V)
        requires
            old(self).wf(),
            key != 0,
            live_at(old(self).slots@, i as int, key),
        ensures
            final(self).wf(),
            final(self).seed == old(self).seed,
            final(self).bucket_mask == old(self).bucket_mask,
            final(self).zero_value == old(self).zero_value,
            final(self).num_lanes() == old(self).num_lanes(),
            final(self)@ == old(self)@.insert(key, value),
            old(self)@.contains_key(key),
            final(self).items == old(self).items,
            live_at(final(self).slots@, i as int, key),
            slot_val(final(self).slots@, i as int) == value,
    {
        proof {
            lemma_contains_at(self.slots@, i as int, key);
        }
        let ghost s0 = self.slots@;
        vec_set(&mut self.slots, i, Some((key, value)));
        proof {
            lemma_map_update_value(s0, i as int, key, value);
            let n = self.num_lanes();
            assert forall|j: int|
                0 <= j < n implies #[trigger] self.keys@[j] == (if self.slots@[j] is Some {
                slot_key(self.slots@, j)
            } else {
                0u64
            }) by {
                if j != i {
                    assert(self.slots@[j] == s0[j]);
                } else {
                    assert(slot_key(self.slots@, j) == slot_key(s0, j));
                }
            }
            assert forall|j: int|
                0 <= j < n && #[trigger] self.slots@[j] is Some implies slot_key(self.slots@, j)
                != 0 && self.in_windows(j, slot_key(self.slots@, j)) by {
                assert(slot_key(self.slots@, j) == slot_key(s0, j));
                if j != i {
                    assert(self.slots@[j] == s0[j]);
                }
            }
            match self.zero_value {
                Some(zv) => {
                    assert(self@ =~= old(self)@.insert(key, value));
                },
                None => {},
            }
        }
    }

    /// Inserts `key` bound to `value`, overwriting the value if the key is
    /// already present. On success returns whether the key was newly
    /// installed and a bucket/lane locator (both components are the largest
    /// machine word for the zero key, which lives in the side slot). Returns
    /// `None`, leaving the table unchanged, when the displacement search
    /// cannot place the key.
    pub fn insert(&mut self, key: u64, value: V) -> (r: Option<(bool, (usize, usize))>)
        requires
            old(self).wf(),
        ensures
            final(self).wf(),
            final(self).seed == old(self).seed,
            final(self).bucket_mask == old(self).bucket_mask,
            final(self).num_lanes() == old(self).num_lanes(),
            match r {
                Some(t) => {
                    &&& final(self)@ == old(self)@.insert(key, value)
                    &&& t.0 == !old(self)@.contains_key(key)
                    &&& final(self).items as int == old(self).items + (if t.0 {
                        1int
                    } else {
                        0int
                    })
                    &&& (key != 0 ==> t.1.0 <= final(self).bucket_mask && t.1.1 < 4 && live_at(
                        final(self).slots@,
                        4 * t.1.0 + t.1.1,
                        key,
                    ) && slot_val(final(self).slots@, 4 * t.1.0 + t.1.1) == value)
                    &&& (key == 0 ==> t.1 == (usize::MAX, usize::MAX) && final(self).zero_value
                        == Some(value) && final(self).slots@ == old(self).slots@
                        && final(self).keys@ == old(self).keys@)
                },
                None => {
                    &&& final(self)@ == old(self)@
                    &&& final(self).items == old(self).items
                    &&& !old(self)@.contains_key(key)
                    &&& key != 0
                },
            },
            old(self)@.contains_key(key) ==> r is Some && !(r->0).0,
            key == 0 ==> r is Some,
            (!old(self)@.contains_key(key) && key != 0 && (old(self).bucket_has_empty(
                old(self).pos0_of(key),
            ) || old(self).bucket_has_empty(old(self).pos1_of(key)))) ==> r is Some,
    {
        if key == 0 {
            proof {
                self.lemma_zero_not_in_lanes();
            }
            let inserted = self.zero_value.is_none();
            if inserted {
                proof {
                    lemma_count_le_len(self.slots@);
                }
                self.items = self.items + 1;
            }
            self.zero_value = Some(value);
            proof {
                match old(self).zero_value {
                    Some(w) => {
                        assert(self@ =~= old(self)@.insert(0u64, value));
                    },
                    None => {},
                }
            }
            return Some((inserted, (usize::MAX, usize::MAX)));
        }
        let (_h, p0, p1) = self.probe_positions(key);
        if let Some(i) = self.find_in_bucket(p0, key) {
            self.update_slot(i, key, value);
            return Some((false, (p0, i - 4 * p0)));
        }
        if let Some(i) = self.find_in_bucket(p1, key) {
            self.update_slot(i, key, value);
            return Some((false, (p1, i - 4 * p1)));
        }
        proof {
            self.lemma_absent(key);
            self.lemma_zero_not_in_lanes();
        }
        if let Some(i) = self.find_empty_in_bucket(p0) {
            self.fill_slot(i, key, value);
            return Some((true, (p0, i - 4 * p0)));
        }
        if let Some(i) = self.find_empty_in_bucket(p1) {
            self.fill_slot(i, key, value);
            return Some((true, (p1, i - 4 * p1)));
        }
        self.insert_displace(key, value, p0, p1)
    }

    /// Validity of one displacement-search node.
    spec fn node_ok(self, queue: Seq<BfsNode>, q: int) -> bool {
        &&& 0 <= queue[q].pos <= self.bucket_mask
        &&& (q >= 2 ==> queue[q].parent < q && queue[q].offset < 4)
    }

    /// Places a nonzero `key` by breadth-first displacement over buckets.
    fn insert_displace(&mut self, key: u64, value: V, pos0: usize, pos1: usize) -> (r: Option<
        (bool, (usize, usize)),
    >)
        requires
            old(self).wf(),
            key != 0,
            !table_contains(old(self).slots@, key),
            pos0 as int == old(self).pos0_of(key),
            pos1 as int == old(self).pos1_of(key),
            pos0 <= old(self).bucket_mask,
            pos1 <= old(self).bucket_mask,
        ensures
            final(self).wf(),
            final(self).seed == old(self).seed,
            final(self).bucket_mask == old(self).bucket_mask,
            final(self).num_lanes() == old(self).num_lanes(),
            match r {
                Some(t) => {
                    &&& t.0
                    &&& final(self)@ == old(self)@.insert(key, value)
                    &&& final(self).items as int == old(self).items + 1
                    &&& t.1.0 <= final(self).bucket_mask && t.1.1 < 4 && live_at(
                        final(self).slots@,
                        4 * t.1.0 + t.1.1,
                        key,
                    ) && slot_val(final(self).slots@, 4 * t.1.0 + t.1.1) == value
                },
                None => {
                    &&& final(self)@ == old(self)@
                    &&& final(self).items == old(self).items
                },
            },
    {
        let mut queue: Vec<BfsNode> = Vec::new();
        queue.push(BfsNode { pos: pos0, parent: 0, offset: 0 });
        queue.push(BfsNode { pos: pos1, parent: 0, offset: 0 });
        let m64 = self.bucket_mask as u64;
        let mut read: usize = 0;
        let mut found: Option<(usize, usize)> = None;
        while read < BFS_MAX_LEN && read < queue.len() && found.is_none()
            invariant
                *self == *old(self),
                self.wf(),
                key != 0,
                m64 == self.bucket_mask as u64,
                queue.len() >= 2,
                queue@[0].pos == pos0,
                queue@[1].pos == pos1,
                pos0 as int == self.pos0_of(key),
                pos1 as int == self.pos1_of(key),
                pos0 <= self.bucket_mask,
                pos1 <= self.bucket_mask,
                read <= BFS_MAX_LEN,
                queue.len() <= 2 + 4 * read,
                forall|q: int| 0 <= q < queue.len() ==> #[trigger] self.node_ok(queue@, q),
                match found {
                    Some(f) => f.0 < queue.len() && f.1 < self.num_lanes()
                        && f.1 / 4 == queue@[f.0 as int].pos as int
                        && self.slots@[f.1 as int] is None,
                    None => true,
                },
            decreases BFS_MAX_LEN - read,
        {
            let pos = queue[read].pos;
            proof {
                assert(self.node_ok(queue@, read as int));
            }
            match self.find_empty_in_bucket(pos) {
                Some(leaf) => {
                    found = Some((read, leaf));
                    read = read + 1;
                },
                None => {
                    let mut off: usize = 0;
                    while off < 4
                        invariant
                            *self == *old(self),
                            self.wf(),
                            m64 == self.bucket_mask as u64,
                            off <= 4,
                            read < queue.len(),
                            queue.len() >= 2,
                            queue@[0].pos == pos0,
                            queue@[1].pos == pos1,
                            pos as int == queue@[read as int].pos as int,
                            pos <= self.bucket_mask,
                            queue.len() <= 2 + 4 * read + off,
                            read < BFS_MAX_LEN,
                            forall|q: int| 0 <= q < queue.len() ==> #[trigger] self.node_ok(
                                queue@,
                                q,
                            ),
                        decreases 4 - off,
                    {
                        let ws = 4 * pos + off;
                        match self.slots[ws] {
                            Some(pair) => {
                                let rehash = fold_hash_fast(pair.0, self.seed);
                                proof {
                                    lemma_masked_props(m64, spec_rotl32(rehash));
                                }
                                proof {
                                    lemma_below_mask_fixed(
                                        self.num_buckets() as u64,
                                        pos as u64,
                                    );
                                    lemma_window_xor_mask(m64, pos as u64, spec_rotl32(rehash));
                                }
                                let child = ((pos as u64) ^ (rotl32(rehash) & m64)) as usize;
                                let ghost q0 = queue@;
                                queue.push(BfsNode { pos: child, parent: read, offset: off });
                                proof {
                                    assert forall|q: int|
                                        0 <= q < queue.len() implies #[trigger] self.node_ok(
                                        queue@,
                                        q,
                                    ) by {
                                        if q < q0.len() {
                                            assert(queue@[q] == q0[q]);
                                            assert(self.node_ok(q0, q));
                                        }
                                    }
                                }
                            },
                            None => {},
                        }
                        off = off + 1;
                    }
                    read = read + 1;
                },
            }
        }
        let (node0, leaf) = match found {
            Some(f) => f,
            None => {
                return None;
            },
        };
        let mut cur = leaf;
        let mut node = node0;
        let ghost s_orig = self.slots@;
        while node >= 2
            invariant
                self.wf(),
                self.seed == old(self).seed,
                self.bucket_mask == old(self).bucket_mask,
                self.num_lanes() == old(self).num_lanes(),
                self.items == old(self).items,
                self.zero_value == old(self).zero_value,
                m64 == self.bucket_mask as u64,
                key != 0,
                table_map(self.slots@) == table_map(s_orig),
                s_orig == old(self).slots@,
                !table_contains(self.slots@, key),
                node < queue.len(),
                queue.len() >= 2,
                queue@[0].pos == pos0,
                queue@[1].pos == pos1,
                pos0 as int == self.pos0_of(key),
                pos1 as int == self.pos1_of(key),
                forall|q: int| 0 <= q < queue.len() ==> #[trigger] self.node_ok(queue@, q),
                cur < self.num_lanes(),
                self.slots@[cur as int] is None,
                cur as int / 4 == queue@[node as int].pos as int,
            decreases node,
        {
            let ghost pre = *self;
            proof {
                assert(self.node_ok(queue@, node as int));
            }
            let parent_node = queue[node].parent;
            let offset = queue[node].offset;
            let npos = queue[node].pos;
            proof {
                assert(self.node_ok(queue@, parent_node as int));
            }
            let ppos = queue[parent_node].pos;
            let pslot = 4 * ppos + offset;
            let pair = match self.slots[pslot] {
                Some(pair) => pair,
                None => {
                    return None;
                },
            };
            let rehash = fold_hash_fast(pair.0, self.seed);
            proof {
                lemma_masked_props(m64, rehash);
                lemma_masked_props(m64, rehash ^ spec_rotl32(rehash));
            }
            let alt0 = (rehash & m64) as usize;
            let alt1 = ((rehash ^ rotl32(rehash)) & m64) as usize;
            if npos != alt0 && npos != alt1 {
                return None;
            }
            proof {
                assert(cur != pslot);
                assert(live_at(self.slots@, pslot as int, pair.0));
                assert(self.in_windows(cur as int, pair.0));
            }
            let ghost s1 = self.slots@;
            let ghost k1 = self.keys@;
            vec_set(&mut self.slots, pslot, None);
            vec_set(&mut self.slots, cur, Some(pair));
            vec_set(&mut self.keys, cur, pair.0);
            vec_set(&mut self.keys, pslot, 0);
            proof {
                lemma_map_move(s1, pslot as int, cur as int);
                assert(self.slots@ =~= s1.update(pslot as int, None).update(
                    cur as int,
                    s1[pslot as int],
                ));
                let n = self.num_lanes();
                assert forall|j: int|
                    0 <= j < n implies #[trigger] self.keys@[j] == (if self.slots@[j] is Some {
                    slot_key(self.slots@, j)
                } else {
                    0u64
                }) by {
                    if j != cur && j != pslot {
                        assert(self.keys@[j] == k1[j]);
                        assert(self.slots@[j] == s1[j]);
                    }
                }
                assert forall|j: int|
                    0 <= j < n && #[trigger] self.slots@[j] is Some implies slot_key(
                    self.slots@,
                    j,
                ) != 0 && self.in_windows(j, slot_key(self.slots@, j)) by {
                    if j != cur && j != pslot {
                        assert(self.slots@[j] == s1[j]);
                        assert(slot_key(self.slots@, j) == slot_key(s1, j));
                    } else if j == cur {
                        assert(slot_key(self.slots@, j) == pair.0);
                    }
                }
                assert(!table_contains(self.slots@, key)) by {
                    if table_contains(self.slots@, key) {
                        let w = choose|w: int| live_at(self.slots@, w, key);
                        assert(table_map(self.slots@).contains_key(key)) by {
                            lemma_contains_at(self.slots@, w, key);
                        }
                    }
                }
                assert forall|q: int| 0 <= q < queue.len() implies #[trigger] self.node_ok(
                    queue@,
                    q,
                ) by {
                    assert(pre.node_ok(queue@, q));
                }
            }
            cur = pslot;
            node = parent_node;
        }
        proof {
            assert(node == 0 || node == 1);
            assert(self.in_windows(cur as int, key));
            assert(!table_contains(self.slots@, key));
        }
        let ghost s2 = self.slots@;
        let ghost pre_fill = *self;
        let b = cur / 4;
        let lane = cur % 4;
        self.fill_slot(cur, key, value);
        proof {
            assert(table_map(s2) == table_map(s_orig));
            assert(pre_fill@ == old(self)@);
            assert(self@ == old(self)@.insert(key, value));
        }
        Some((true, (b, lane)))
    }

    /// Inserts a key and immediately erases it again when it was newly
    /// installed; an already-present key only has its value overwritten. The
    /// entry count is unchanged either way. Returns false, leaving the table
    /// unchanged, when the transient insertion could not place the key.
    pub fn insert_and_erase(&mut self, key: u64, value: V) -> (r: bool)
        requires
            old(self).wf(),
        ensures
            final(self).wf(),
            final(self).seed == old(self).seed,
            final(self).bucket_mask == old(self).bucket_mask,
            final(self).num_lanes() == old(self).num_lanes(),
            final(self).items == old(self).items,
            old(self)@.contains_key(key) ==> r && final(self)@ == old(self)@.insert(key, value),
            !old(self)@.contains_key(key) ==> final(self)@ == old(self)@,
    {
        let ghost m0 = self@;
        match self.insert(key, value) {
            Some((inserted, (b, lane))) => {
                if inserted {
                    if key == 0 {
                        proof {
                            self.lemma_zero_not_in_lanes();
                            assert(old(self).zero_value is None) by {
                                if old(self).zero_value is Some {
                                    assert(m0.contains_key(0u64));
                                }
                            }
                        }
                        self.zero_value = None;
                        self.items = self.items - 1;
                        proof {
                            assert(self.slots@ == old(self).slots@);
                            assert(self@ == table_map(self.slots@));
                            assert(m0 == table_map(old(self).slots@));
                            assert(self@ == m0);
                        }
                    } else {
                        let idx = 4 * b + lane;
                        let ghost mid = self@;
                        let ghost s1 = self.slots@;
                        let ghost k1 = self.keys@;
                        proof {
                            assert(live_at(s1, idx as int, key));
                            lemma_map_clear(s1, idx as int, key);
                        }
                        vec_set(&mut self.keys, idx, 0);
                        vec_set(&mut self.slots, idx, None);
                        self.items = self.items - 1;
                        proof {
                            let n = self.num_lanes();
                            assert forall|j: int|
                                0 <= j < n implies #[trigger] self.keys@[j] == (
                            if self.slots@[j] is Some {
                                slot_key(self.slots@, j)
                            } else {
                                0u64
                            }) by {
                                if j != idx {
                                    assert(self.keys@[j] == k1[j]);
                                    assert(self.slots@[j] == s1[j]);
                                }
                            }
                            assert forall|j: int|
                                0 <= j < n && #[trigger] self.slots@[j] is Some implies slot_key(
                                self.slots@,
                                j,
                            ) != 0 && self.in_windows(j, slot_key(self.slots@, j)) by {
                                if j != idx {
                                    assert(self.slots@[j] == s1[j]);
                                    assert(slot_key(self.slots@, j) == slot_key(s1, j));
                                }
                            }
                            assert(!m0.contains_key(key));
                            assert(mid == m0.insert(key, value));
                            assert(table_map(self.slots@) == table_map(s1).remove(key));
                            assert forall|k2: u64| #[trigger]
                                self@.dom().contains(k2) implies m0.dom().contains(k2) by {
                                assert(k2 != key);
                                assert(mid.dom().contains(k2));
                            }
                            assert forall|k2: u64| #[trigger]
                                m0.dom().contains(k2) implies self@.dom().contains(k2) by {
                                assert(k2 != key);
                                assert(mid.dom().contains(k2));
                            }
                            assert forall|k2: u64| #[trigger]
                                m0.dom().contains(k2) implies self@[k2] == m0[k2] by {
                                assert(k2 != key);
                                assert(self@[k2] == mid[k2]);
                                assert(mid[k2] == m0[k2]);
                            }
                            assert(self@ =~= m0);
                        }
                    }
                }
                true
            },
            None => false,
        }
    }
}

} // verus!
