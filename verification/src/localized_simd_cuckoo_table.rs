//! Cuckoo hashing over co-located buckets: each bucket packs seven key/value
//! slots together with an eight-byte tag lane, so one load yields both the
//! fingerprints and the candidate keys. The eighth tag is a fixed DELETED
//! sentinel, which can never match a FULL fingerprint and so blocks false
//! matches on the unused lane.
//!
//! Buckets are indexed like the group-aligned cuckoo table's windows: the
//! partner bucket of an occupant is recovered from its tag alone, by XORing
//! the bucket index with the masked scramble of the tag.

use vstd::prelude::*;

use crate::control::{
    tag_is_full, is_full_tag, spec_tag_of_hash, spec_scramble_tag, tag_of_hash, scramble_tag,
    Group, TAG_EMPTY, TAG_DELETED,
};
use crate::model::{
    slot_key, slot_val, slots_distinct, live_at, table_contains, table_map, count_live,
    lemma_contains_at, lemma_map_update_value, lemma_map_fill, lemma_map_clear, lemma_map_move,
    lemma_map_all_open, lemma_count_le_len, vec_set,
};
use crate::probe::{
    is_pow2, lemma_pow2_double, lemma_below_mask_fixed, lemma_masked_props, lemma_window_xor_mask,
    lemma_xor_and_distribute, lemma_xor_cancel,
};
use crate::rng::{rng_with_seed, rng_u64};
use crate::u64_fold_hash_fast::{spec_fold_hash, fold_hash_fast};

verus! {

/// Number of usable key/value slots per bucket; the eighth tag lane is the
/// fixed sentinel.
pub const BUCKET_SIZE: usize = 7;

/// Upper bound on the number of displacement-search nodes examined: two
/// complete trees of fan-out seven, explored to depth three.
pub const BFS_MAX_LEN: usize = 2 * (1 + 7 + 7 * 7 + 7 * 7 * 7);

/// One node of the displacement search: a candidate bucket, the queue index
/// of the node it was reached from, and the lane of the occupant whose
/// eviction leads here.
struct BfsNode {
    pos: usize,
    parent: usize,
    offset: usize,
}

pub struct HashTable<V: Copy> {
    /// One less than the number of buckets.
    pub bucket_mask: usize,
    /// Eight tags per bucket: seven fingerprints and the sentinel.
    pub tags: Vec<u8>,
    /// Eight slots per bucket; the eighth is never occupied.
    pub slots: Vec<Option<(u64, V)>>,
    /// Number of occupied slots.
    pub items: usize,
    /// Seed of the hash mixer.
    pub seed: u64,
}

impl<V: Copy> View for HashTable<V> {
    type V = Map<u64, V>;

    /// The table denotes the map from occupied-slot keys to their values.
    open spec fn view(&self) -> Map<u64, V> {
        table_map(self.slots@)
    }
}

impl<V: Copy> HashTable<V> {
    /// Number of buckets.
    pub open spec fn num_buckets(self) -> int {
        self.bucket_mask as int + 1
    }

    /// Number of slots (eight per bucket, sentinels included).
    pub open spec fn num_slots(self) -> int {
        self.slots@.len() as int
    }

    /// The hash of a key under this table's seed.
    pub open spec fn hash_of(self, k: u64) -> u64 {
        spec_fold_hash(k, self.seed)
    }

    /// The tag a key stores.
    pub open spec fn tag_of(self, k: u64) -> u8 {
        spec_tag_of_hash(self.hash_of(k))
    }

    /// The key's first candidate bucket.
    pub open spec fn pos0_of(self, k: u64) -> int {
        (self.hash_of(k) & (self.bucket_mask as u64)) as int
    }

    /// The key's second candidate bucket.
    pub open spec fn pos1_of(self, k: u64) -> int {
        ((self.hash_of(k) ^ spec_scramble_tag(self.tag_of(k))) & (self.bucket_mask as u64)) as int
    }

    /// Slot `i` lies in one of the key's two candidate buckets.
    pub open spec fn in_windows(self, i: int, k: u64) -> bool {
        i / 8 == self.pos0_of(k) || i / 8 == self.pos1_of(k)
    }

    /// Bucket `b` has an EMPTY tag.
    pub open spec fn bucket_has_empty(self, b: int) -> bool {
        exists|j: int| 0 <= j < 8 && #[trigger] self.tags@[8 * b + j] == TAG_EMPTY
    }

    /// Well-formedness: a power-of-two number of eight-lane buckets whose
    /// last lane holds the DELETED sentinel and never an entry; tags and
    /// slots agree; occupied slots hold distinct keys, carry their key's
    /// fingerprint, and sit in one of their key's two candidate buckets;
    /// `items` counts the occupied slots.
    pub open spec fn wf(self) -> bool {
        let nb = self.num_buckets();
        &&& self.slots@.len() == 8 * nb
        &&& self.tags@.len() == 8 * nb
        &&& 1 <= nb <= usize::MAX / 16
        &&& is_pow2(nb as u64)
        &&& slots_distinct(self.slots@)
        &&& self.items as int == count_live(self.slots@) as int
        &&& forall|b: int| 0 <= b < nb ==> #[trigger] self.tags@[8 * b + 7] == TAG_DELETED
        &&& forall|i: int|
            0 <= i < 8 * nb ==> (tag_is_full(#[trigger] self.tags@[i]) <==> self.slots@[i] is Some)
        &&& forall|i: int|
            0 <= i < 8 * nb && #[trigger] self.slots@[i] is Some ==> self.tags@[i] == self.tag_of(
                slot_key(self.slots@, i),
            ) && self.in_windows(i, slot_key(self.slots@, i))
    }

    /// The two candidate buckets of a key are a pair under XOR with the
    /// masked scramble of the key's tag.
    pub proof fn lemma_window_pair(self, k: u64)
        requires
            self.wf(),
        ensures
            0 <= self.pos0_of(k) <= self.bucket_mask,
            0 <= self.pos1_of(k) <= self.bucket_mask,
            self.pos1_of(k) == ((self.pos0_of(k) as u64) ^ (spec_scramble_tag(self.tag_of(k)) & (
            self.bucket_mask as u64))) as int,
            self.pos0_of(k) == ((self.pos1_of(k) as u64) ^ (spec_scramble_tag(self.tag_of(k)) & (
            self.bucket_mask as u64))) as int,
    {
        let m = self.bucket_mask as u64;
        let h = self.hash_of(k);
        let s = spec_scramble_tag(self.tag_of(k));
        lemma_masked_props(m, h);
        lemma_masked_props(m, h ^ s);
        lemma_masked_props(m, s);
        lemma_xor_and_distribute(h, s, m);
        lemma_xor_cancel(h & m, s & m);
    }

    /// Computes the hash, tag, and the two candidate buckets of a key.
    fn probe_positions(&self, key: u64) -> (r: (u64, u8, usize, usize))
        requires
            self.wf(),
        ensures
            r.0 == self.hash_of(key),
            r.1 == self.tag_of(key),
            r.2 as int == self.pos0_of(key),
            r.3 as int == self.pos1_of(key),
            r.2 <= self.bucket_mask,
            r.3 <= self.bucket_mask,
    {
        let h = fold_hash_fast(key, self.seed);
        let t = tag_of_hash(h);
        let s = scramble_tag(t);
        let m = self.bucket_mask as u64;
        proof {
            self.lemma_window_pair(key);
        }
        let p0 = (h & m) as usize;
        let p1 = ((h ^ s) & m) as usize;
        (h, t, p0, p1)
    }

    /// Scans bucket `b` for an occupied slot holding `key` whose tag equals
    /// `tag`.
    fn find_in_bucket(&self, b: usize, tag: u8, key: u64) -> (r: Option<usize>)
        requires
            self.wf(),
            b <= self.bucket_mask,
        ensures
            match r {
                Some(i) => 8 * b <= i < 8 * b + 8 && live_at(self.slots@, i as int, key),
                None => forall|j: int|
                    #![trigger self.slots@[8 * b + j]]
                    0 <= j < 8 ==> !(self.slots@[8 * b + j] is Some && slot_key(
                        self.slots@,
                        8 * b + j,
                    ) == key && self.tags@[8 * b + j] == tag),
            },
    {
        let base = 8 * b;
        let g = Group::load(&self.tags, base);
        let m = g.match_tag(tag);
        let mut j: usize = 0;
        while j < 8
            invariant
                self.wf(),
                b <= self.bucket_mask,
                base == 8 * b,
                j <= 8,
                forall|j2: int| 0 <= j2 < 8 ==> (m.has(j2) <==> self.tags@[base + j2] == tag),
                forall|j2: int|
                    #![trigger self.slots@[8 * b + j2]]
                    0 <= j2 < j ==> !(self.slots@[8 * b + j2] is Some && slot_key(
                        self.slots@,
                        8 * b + j2,
                    ) == key && self.tags@[8 * b + j2] == tag),
            decreases 8 - j,
        {
            if m.test(j) {
                match self.slots[base + j] {
                    Some(pair) => {
                        if pair.0 == key {
                            return Some(base + j);
                        }
                    },
                    None => {},
                }
            }
            j = j + 1;
        }
        None
    }

    /// Scans bucket `b` for an EMPTY tag, returning the lowest lane's slot.
    /// The sentinel lane is DELETED, so the result is always a usable lane.
    fn find_empty_in_bucket(&self, b: usize) -> (r: Option<usize>)
        requires
            self.wf(),
            b <= self.bucket_mask,
        ensures
            match r {
                Some(i) => 8 * b <= i < 8 * b + 8 && self.tags@[i as int] == TAG_EMPTY
                    && self.slots@[i as int] is None,
                None => !self.bucket_has_empty(b as int),
            },
    {
        let base = 8 * b;
        let g = Group::load(&self.tags, base);
        let m = g.match_empty();
        match m.lowest_set_bit() {
            Some(j) => {
                proof {
                    assert(self.tags@[base + j] == TAG_EMPTY);
                    crate::control::lemma_special_tags();
                }
                Some(base + j)
            },
            None => {
                proof {
                    assert forall|j: int| 0 <= j < 8 implies #[trigger] self.tags@[8 * b + j]
                        != TAG_EMPTY by {
                        assert(!m.has(j));
                    }
                }
                None
            },
        }
    }

    /// If neither candidate bucket of `key` holds it with the right tag, the
    /// table does not contain `key`.
    proof fn lemma_absent(self, key: u64)
        requires
            self.wf(),
            0 <= self.pos0_of(key) <= self.bucket_mask,
            0 <= self.pos1_of(key) <= self.bucket_mask,
            forall|j: int|
                #![trigger self.slots@[8 * self.pos0_of(key) + j]]
                0 <= j < 8 ==> !(self.slots@[8 * self.pos0_of(key) + j] is Some && slot_key(
                    self.slots@,
                    8 * self.pos0_of(key) + j,
                ) == key && self.tags@[8 * self.pos0_of(key) + j] == self.tag_of(key)),
            forall|j: int|
                #![trigger self.slots@[8 * self.pos1_of(key) + j]]
                0 <= j < 8 ==> !(self.slots@[8 * self.pos1_of(key) + j] is Some && slot_key(
                    self.slots@,
                    8 * self.pos1_of(key) + j,
                ) == key && self.tags@[8 * self.pos1_of(key) + j] == self.tag_of(key)),
        ensures
            !table_contains(self.slots@, key),
            !self@.contains_key(key),
    {
        if table_contains(self.slots@, key) {
            let i = choose|i: int| live_at(self.slots@, i, key);
            assert(self.slots@[i] is Some);
            assert(self.in_windows(i, key));
            if i / 8 == self.pos0_of(key) {
                let j = i - 8 * self.pos0_of(key);
                assert(!(self.slots@[8 * self.pos0_of(key) + j] is Some && slot_key(
                    self.slots@,
                    8 * self.pos0_of(key) + j,
                ) == key && self.tags@[8 * self.pos0_of(key) + j] == self.tag_of(key)));
            } else {
                let j = i - 8 * self.pos1_of(key);
                assert(!(self.slots@[8 * self.pos1_of(key) + j] is Some && slot_key(
                    self.slots@,
                    8 * self.pos1_of(key) + j,
                ) == key && self.tags@[8 * self.pos1_of(key) + j] == self.tag_of(key)));
            }
        }
    }

    /// Allocates a table able to hold `capacity` entries at a load factor of
    /// at most seven eighths of the raw lanes: the smallest power-of-two
    /// number of buckets offering at least `capacity * 8 / 7` lanes.
    pub fn with_capacity(capacity: usize) -> (t: Self)
        requires
            capacity <= usize::MAX / 32,
        ensures
            t.wf(),
            t@ == Map::<u64, V>::empty(),
            t.items == 0,
            8 * capacity <= 7 * t.num_slots(),
            forall|i: int|
                0 <= i < t.num_slots() ==> t.tags@[i] == (if i % 8 == 7 {
                    TAG_DELETED
                } else {
                    TAG_EMPTY
                }),
    {
        let target = (capacity * 8 + 6) / 7;
        let mut nb: usize = 1;
        proof {
            crate::probe::lemma_small_pow2();
        }
        while 8 * nb < target
            invariant
                1 <= nb <= usize::MAX / 16,
                target <= usize::MAX / 16,
                is_pow2(nb as u64),
            decreases 2 * target - nb,
        {
            proof {
                lemma_pow2_double(nb as u64);
            }
            nb = nb + nb;
        }
        let n = 8 * nb;
        let mut tags: Vec<u8> = Vec::new();
        let mut slots: Vec<Option<(u64, V)>> = Vec::new();
        let mut i: usize = 0;
        while i < n
            invariant
                i <= n,
                n == 8 * nb,
                tags@.len() == i,
                slots@.len() == i,
                forall|j: int|
                    0 <= j < i ==> #[trigger] tags@[j] == (if j % 8 == 7 {
                        TAG_DELETED
                    } else {
                        TAG_EMPTY
                    }),
                forall|j: int| 0 <= j < i ==> slots@[j] is None,
            decreases n - i,
        {
            if i % 8 == 7 {
                tags.push(TAG_DELETED);
            } else {
                tags.push(TAG_EMPTY);
            }
            slots.push(None);
            i = i + 1;
        }
        let mut rng = rng_with_seed(123);
        let seed = rng_u64(&mut rng);
        let t = HashTable { bucket_mask: nb - 1, tags, slots, items: 0, seed };
        proof {
            lemma_map_all_open(t.slots@);
            crate::control::lemma_special_tags();
            assert forall|b: int| 0 <= b < nb implies #[trigger] t.tags@[8 * b + 7]
                == TAG_DELETED by {
                assert((8 * b + 7) % 8 == 7) by (nonlinear_arith);
            }
            assert forall|i2: int|
                0 <= i2 < 8 * nb implies (tag_is_full(#[trigger] t.tags@[i2])
                <==> t.slots@[i2] is Some) by {
                assert(t.tags@[i2] == TAG_EMPTY || t.tags@[i2] == TAG_DELETED);
            }
        }
        t
    }

    /// Number of entries in the table: the occupied-slot count, which equals
    /// the number of distinct live keys.
    pub fn len(&self) -> (r: usize)
        requires
            self.wf(),
        ensures
            r as int == count_live(self.slots@) as int,
            r as int == self@.dom().len(),
    {
        proof {
            crate::model::lemma_count_is_dom_len(self.slots@);
        }
        self.items
    }

    /// Looks up the current value bound to `key`. Both candidate buckets are
    /// probed unconditionally.
    pub fn get(&self, key: &u64) -> (r: Option<&V>)
        requires
            self.wf(),
        ensures
            match r {
                Some(v) => self@.contains_key(*key) && *v == self@[*key],
                None => !self@.contains_key(*key),
            },
    {
        let k = *key;
        let (_h, t, p0, p1) = self.probe_positions(k);
        if let Some(i) = self.find_in_bucket(p0, t, k) {
            proof {
                lemma_contains_at(self.slots@, i as int, k);
            }
            match &self.slots[i] {
                Some(pair) => Some(&pair.1),
                None => None,
            }
        } else if let Some(i) = self.find_in_bucket(p1, t, k) {
            proof {
                lemma_contains_at(self.slots@, i as int, k);
            }
            match &self.slots[i] {
                Some(pair) => Some(&pair.1),
                None => None,
            }
        } else {
            proof {
                self.lemma_absent(k);
            }
            None
        }
    }

    /// Writes `(key, value)` with tag `tag` into the EMPTY slot `i`.
    fn fill_slot(&mut self, i: usize, key: u64, value: V, tag: u8)
        requires
            old(self).wf(),
            i < old(self).num_slots(),
            old(self).tags@[i as int] == TAG_EMPTY,
            !table_contains(old(self).slots@, key),
            tag == old(self).tag_of(key),
            old(self).in_windows(i as int, key),
        ensures
            final(self).wf(),
            final(self).seed == old(self).seed,
            final(self).bucket_mask == old(self).bucket_mask,
            final(self).num_slots() == old(self).num_slots(),
            final(self)@ == old(self)@.insert(key, value),
            final(self).items == old(self).items + 1,
            live_at(final(self).slots@, i as int, key),
            slot_val(final(self).slots@, i as int) == value,
    {
        proof {
            crate::control::lemma_special_tags();
            lemma_count_le_len(self.slots@);
            crate::control::lemma_tag_of_hash_is_full(self.hash_of(key));
        }
        let ghost s0 = self.slots@;
        let ghost t0 = self.tags@;
        vec_set(&mut self.tags, i, tag);
        vec_set(&mut self.slots, i, Some((key, value)));
        self.items = self.items + 1;
        proof {
            lemma_map_fill(s0, i as int, key, value);
            let nb = self.num_buckets();
            assert forall|b: int| 0 <= b < nb implies #[trigger] self.tags@[8 * b + 7]
                == TAG_DELETED by {
                assert(t0[8 * b + 7] == TAG_DELETED);
                assert(8 * b + 7 != i);
            }
            assert forall|j: int|
                0 <= j < 8 * nb implies (tag_is_full(#[trigger] self.tags@[j])
                <==> self.slots@[j] is Some) by {
                if j != i {
                    assert(self.tags@[j] == t0[j]);
                    assert(self.slots@[j] == s0[j]);
                }
            }
            assert forall|j: int|
                0 <= j < 8 * nb && #[trigger] self.slots@[j] is Some implies self.tags@[j]
                == self.tag_of(slot_key(self.slots@, j)) && self.in_windows(
                j,
                slot_key(self.slots@, j),
            ) by {
                if j != i {
                    assert(self.tags@[j] == t0[j]);
                    assert(self.slots@[j] == s0[j]);
                    assert(slot_key(self.slots@, j) == slot_key(s0, j));
                }
            }
        }
    }

    /// Overwrites the value of the occupied slot `i`, which holds `key`.
    fn update_slot(&mut self, i: usize, key: u64, value: V)
        requires
            old(self).wf(),
            live_at(old(self).slots@, i as int, key),
        ensures
            final(self).wf(),
            final(self).seed == old(self).seed,
            final(self).bucket_mask == old(self).bucket_mask,
            final(self).num_slots() == old(self).num_slots(),
            final(self)@ == old(self)@.insert(key, value),
            old(self)@.contains_key(key),
            final(self).items == old(self).items,
            live_at(final(self).slots@, i as int, key),
            slot_val(final(self).slots@, i as int) == value,
    {
        proof {
            lemma_contains_at(self.slots@, i as int, key);
        }
        let ghost s0 = self.slots@;
        vec_set(&mut self.slots, i, Some((key, value)));
        proof {
            lemma_map_update_value(s0, i as int, key, value);
            let nb = self.num_buckets();
            assert forall|j: int|
                0 <= j < 8 * nb implies (tag_is_full(#[trigger] self.tags@[j])
                <==> self.slots@[j] is Some) by {
                if j != i {
                    assert(self.slots@[j] == s0[j]);
                }
            }
            assert forall|j: int|
                0 <= j < 8 * nb && #[trigger] self.slots@[j] is Some implies self.tags@[j]
                == self.tag_of(slot_key(self.slots@, j)) && self.in_windows(
                j,
                slot_key(self.slots@, j),
            ) by {
                assert(slot_key(self.slots@, j) == slot_key(s0, j));
                if j != i {
                    assert(self.slots@[j] == s0[j]);
                }
            }
        }
    }

    /// Inserts `key` bound to `value`, overwriting the value if the key is
    /// already present. On success returns whether the key was newly
    /// installed and a bucket/lane locator. Returns `None`, leaving the
    /// table unchanged, when the displacement search cannot place the key.
    pub fn insert(&mut self, key: u64, value: V) -> (r: Option<(bool, (usize, usize))>)
        requires
            old(self).wf(),
        ensures
            final(self).wf(),
            final(self).seed == old(self).seed,
            final(self).bucket_mask == old(self).bucket_mask,
            final(self).num_slots() == old(self).num_slots(),
            match r {
                Some(t) => {
                    &&& final(self)@ == old(self)@.insert(key, value)
                    &&& t.0 == !old(self)@.contains_key(key)
                    &&& final(self).items as int == old(self).items + (if t.0 {
                        1int
                    } else {
                        0int
                    })
                    &&& t.1.0 <= final(self).bucket_mask && t.1.1 < 8 && live_at(
                        final(self).slots@,
                        8 * t.1.0 + t.1.1,
                        key,
                    ) && slot_val(final(self).slots@, 8 * t.1.0 + t.1.1) == value
                },
                None => {
                    &&& final(self)@ == old(self)@
                    &&& final(self).items == old(self).items
                    &&& !old(self)@.contains_key(key)
                },
            },
            old(self)@.contains_key(key) ==> r is Some && !(r->0).0,
            (!old(self)@.contains_key(key) && (old(self).bucket_has_empty(old(self).pos0_of(key))
                || old(self).bucket_has_empty(old(self).pos1_of(key)))) ==> r is Some,
    {
        let (_h, t, p0, p1) = self.probe_positions(key);
        if let Some(i) = self.find_in_bucket(p0, t, key) {
            self.update_slot(i, key, value);
            return Some((false, (p0, i - 8 * p0)));
        }
        if let Some(i) = self.find_in_bucket(p1, t, key) {
            self.update_slot(i, key, value);
            return Some((false, (p1, i - 8 * p1)));
        }
        proof {
            self.lemma_absent(key);
        }
        if let Some(i) = self.find_empty_in_bucket(p0) {
            self.fill_slot(i, key, value, t);
            return Some((true, (p0, i - 8 * p0)));
        }
        if let Some(i) = self.find_empty_in_bucket(p1) {
            self.fill_slot(i, key, value, t);
            return Some((true, (p1, i - 8 * p1)));
        }
        self.insert_displace(key, value, t, p0, p1)
    }

    /// Validity of one displacement-search node.
    spec fn node_ok(self, queue: Seq<BfsNode>, q: int) -> bool {
        &&& 0 <= queue[q].pos <= self.bucket_mask
        &&& (q >= 2 ==> queue[q].parent < q && queue[q].offset < 8)
    }

    /// Places `key` by breadth-first displacement over buckets, deriving the
    /// partner bucket of each occupant from its tag alone.
    fn insert_displace(&mut self, key: u64, value: V, tag: u8, pos0: usize, pos1: usize) -> (r:
        Option<(bool, (usize, usize))>)
        requires
            old(self).wf(),
            !table_contains(old(self).slots@, key),
            tag == old(self).tag_of(key),
            pos0 as int == old(self).pos0_of(key),
            pos1 as int == old(self).pos1_of(key),
            pos0 <= old(self).bucket_mask,
            pos1 <= old(self).bucket_mask,
        ensures
            final(self).wf(),
            final(self).seed == old(self).seed,
            final(self).bucket_mask == old(self).bucket_mask,
            final(self).num_slots() == old(self).num_slots(),
            match r {
                Some(t) => {
                    &&& t.0
                    &&& final(self)@ == old(self)@.insert(key, value)
                    &&& final(self).items as int == old(self).items + 1
                    &&& t.1.0 <= final(self).bucket_mask && t.1.1 < 8 && live_at(
                        final(self).slots@,
                        8 * t.1.0 + t.1.1,
                        key,
                    ) && slot_val(final(self).slots@, 8 * t.1.0 + t.1.1) == value
                },
                None => {
                    &&& final(self)@ == old(self)@
                    &&& final(self).items == old(self).items
                },
            },
    {
        let mut queue: Vec<BfsNode> = Vec::new();
        queue.push(BfsNode { pos: pos0, parent: 0, offset: 0 });
        queue.push(BfsNode { pos: pos1, parent: 0, offset: 0 });
        let m64 = self.bucket_mask as u64;
        let mut read: usize = 0;
        let mut found: Option<(usize, usize)> = None;
        while read < BFS_MAX_LEN && read < queue.len() && found.is_none()
            invariant
                *self == *old(self),
                self.wf(),
                tag == self.tag_of(key),
                m64 == self.bucket_mask as u64,
                queue.len() >= 2,
                queue@[0].pos == pos0,
                queue@[1].pos == pos1,
                pos0 as int == self.pos0_of(key),
                pos1 as int == self.pos1_of(key),
                pos0 <= self.bucket_mask,
                pos1 <= self.bucket_mask,
                read <= BFS_MAX_LEN,
                queue.len() <= 2 + 8 * read,
                forall|q: int| 0 <= q < queue.len() ==> #[trigger] self.node_ok(queue@, q),
                match found {
                    Some(f) => f.0 < queue.len() && f.1 < self.num_slots() && f.1 as int / 8
                        == queue@[f.0 as int].pos as int && self.tags@[f.1 as int] == TAG_EMPTY
                        && self.slots@[f.1 as int] is None,
                    None => true,
                },
            decreases BFS_MAX_LEN - read,
        {
            let pos = queue[read].pos;
            proof {
                assert(self.node_ok(queue@, read as int));
            }
            match self.find_empty_in_bucket(pos) {
                Some(leaf) => {
                    proof {
                        crate::control::lemma_special_tags();
                        assert(leaf as int / 8 == pos as int) by (nonlinear_arith)
                            requires
                                8 * (pos as int) <= leaf as int,
                                (leaf as int) < 8 * (pos as int) + 8,
                        ;
                    }
                    found = Some((read, leaf));
                    read = read + 1;
                },
                None => {
                    let mut off: usize = 0;
                    while off < 8
                        invariant
                            *self == *old(self),
                            self.wf(),
                            m64 == self.bucket_mask as u64,
                            off <= 8,
                            read < queue.len(),
                            queue.len() >= 2,
                            queue@[0].pos == pos0,
                            queue@[1].pos == pos1,
                            pos as int == queue@[read as int].pos as int,
                            pos <= self.bucket_mask,
                            queue.len() <= 2 + 8 * read + off,
                            read < BFS_MAX_LEN,
                            forall|q: int| 0 <= q < queue.len() ==> #[trigger] self.node_ok(
                                queue@,
                                q,
                            ),
                        decreases 8 - off,
                    {
                        let t_occ = self.tags[8 * pos + off];
                        if is_full_tag(t_occ) {
                            let s = scramble_tag(t_occ);
                            proof {
                                lemma_below_mask_fixed(
                                    (self.bucket_mask + 1) as u64,
                                    pos as u64,
                                );
                                lemma_window_xor_mask(m64, pos as u64, spec_scramble_tag(t_occ));
                            }
                            let child = ((pos as u64) ^ (s & m64)) as usize;
                            let ghost q0 = queue@;
                            queue.push(BfsNode { pos: child, parent: read, offset: off });
                            proof {
                                assert forall|q: int|
                                    0 <= q < queue.len() implies #[trigger] self.node_ok(
                                    queue@,
                                    q,
                                ) by {
                                    if q < q0.len() {
                                        assert(queue@[q] == q0[q]);
                                        assert(self.node_ok(q0, q));
                                    }
                                }
                            }
                        }
                        off = off + 1;
                    }
                    read = read + 1;
                },
            }
        }
        let (node0, leaf) = match found {
            Some(f) => f,
            None => {
                return None;
            },
        };
        let mut cur = leaf;
        let mut node = node0;
        let ghost s_orig = self.slots@;
        while node >= 2
            invariant
                self.wf(),
                self.seed == old(self).seed,
                self.bucket_mask == old(self).bucket_mask,
                self.num_slots() == old(self).num_slots(),
                self.items == old(self).items,
                m64 == self.bucket_mask as u64,
                tag == self.tag_of(key),
                table_map(self.slots@) == table_map(s_orig),
                s_orig == old(self).slots@,
                !table_contains(self.slots@, key),
                node < queue.len(),
                queue.len() >= 2,
                queue@[0].pos == pos0,
                queue@[1].pos == pos1,
                pos0 as int == self.pos0_of(key),
                pos1 as int == self.pos1_of(key),
                forall|q: int| 0 <= q < queue.len() ==> #[trigger] self.node_ok(queue@, q),
                cur < self.num_slots(),
                self.tags@[cur as int] == TAG_EMPTY,
                self.slots@[cur as int] is None,
                cur as int / 8 == queue@[node as int].pos as int,
            decreases node,
        {
            let ghost pre = *self;
            proof {
                assert(self.node_ok(queue@, node as int));
            }
            let parent_node = queue[node].parent;
            let offset = queue[node].offset;
            let npos = queue[node].pos;
            proof {
                assert(self.node_ok(queue@, parent_node as int));
            }
            let ppos = queue[parent_node].pos;
            let pslot = 8 * ppos + offset;
            let pt = self.tags[pslot];
            if !is_full_tag(pt) {
                return None;
            }
            let s = scramble_tag(pt);
            let child_check = ((ppos as u64) ^ (s & m64)) as usize;
            proof {
                lemma_below_mask_fixed((self.bucket_mask + 1) as u64, ppos as u64);
                lemma_window_xor_mask(m64, ppos as u64, spec_scramble_tag(pt));
            }
            if child_check != npos {
                return None;
            }
            let pair = match self.slots[pslot] {
                Some(pair) => pair,
                None => {
                    proof {
                        assert(tag_is_full(self.tags@[pslot as int]));
                        assert(false);
                    }
                    return None;
                },
            };
            proof {
                crate::control::lemma_special_tags();
                assert(cur != pslot);
                assert(live_at(self.slots@, pslot as int, pair.0));
                assert(self.tags@[pslot as int] == self.tag_of(pair.0));
                assert(pslot as int / 8 == ppos as int) by (nonlinear_arith)
                    requires
                        pslot as int == 8 * (ppos as int) + offset as int,
                        0 <= offset as int,
                        (offset as int) < 8,
                ;
                self.lemma_window_pair(pair.0);
                lemma_xor_cancel(self.pos0_of(pair.0) as u64, s & m64);
                assert(self.in_windows(cur as int, pair.0));
            }
            let ghost s1 = self.slots@;
            let ghost t1 = self.tags@;
            vec_set(&mut self.slots, pslot, None);
            vec_set(&mut self.slots, cur, Some(pair));
            vec_set(&mut self.tags, cur, pt);
            vec_set(&mut self.tags, pslot, TAG_EMPTY);
            proof {
                lemma_map_move(s1, pslot as int, cur as int);
                assert(self.slots@ =~= s1.update(pslot as int, None).update(
                    cur as int,
                    s1[pslot as int],
                ));
                let nb = self.num_buckets();
                assert forall|b: int| 0 <= b < nb implies #[trigger] self.tags@[8 * b + 7]
                    == TAG_DELETED by {
                    assert(t1[8 * b + 7] == TAG_DELETED);
                    assert(8 * b + 7 != cur && 8 * b + 7 != pslot) by {
                        assert(tag_is_full(t1[pslot as int]));
                        assert(t1[cur as int] == TAG_EMPTY);
                        crate::control::lemma_special_tags();
                        assert(TAG_DELETED != TAG_EMPTY);
                    }
                }
                assert forall|j: int|
                    0 <= j < 8 * nb implies (tag_is_full(#[trigger] self.tags@[j])
                    <==> self.slots@[j] is Some) by {
                    if j != cur && j != pslot {
                        assert(self.tags@[j] == t1[j]);
                        assert(self.slots@[j] == s1[j]);
                    }
                }
                assert forall|j: int|
                    0 <= j < 8 * nb && #[trigger] self.slots@[j] is Some implies self.tags@[j]
                    == self.tag_of(slot_key(self.slots@, j)) && self.in_windows(
                    j,
                    slot_key(self.slots@, j),
                ) by {
                    if j != cur && j != pslot {
                        assert(self.tags@[j] == t1[j]);
                        assert(self.slots@[j] == s1[j]);
                        assert(slot_key(self.slots@, j) == slot_key(s1, j));
                    } else if j == cur {
                        assert(slot_key(self.slots@, j) == pair.0);
                        assert(self.tags@[j] == pt);
                    }
                }
                assert(!table_contains(self.slots@, key)) by {
                    if table_contains(self.slots@, key) {
                        let w = choose|w: int| live_at(self.slots@, w, key);
                        assert(table_map(self.slots@).contains_key(key)) by {
                            lemma_contains_at(self.slots@, w, key);
                        }
                    }
                }
                assert forall|q: int| 0 <= q < queue.len() implies #[trigger] self.node_ok(
                    queue@,
                    q,
                ) by {
                    assert(pre.node_ok(queue@, q));
                }
            }
            cur = pslot;
            node = parent_node;
        }
        proof {
            assert(node == 0 || node == 1);
            assert(self.in_windows(cur as int, key));
            assert(!table_contains(self.slots@, key));
        }
        let ghost s2 = self.slots@;
        let ghost pre_fill = *self;
        let b = cur / 8;
        let lane = cur % 8;
        self.fill_slot(cur, key, value, tag);
        proof {
            assert(table_map(s2) == table_map(s_orig));
            assert(pre_fill@ == old(self)@);
            assert(self@ == old(self)@.insert(key, value));
        }
        Some((true, (b, lane)))
    }

    /// Inserts a key and immediately erases it again when it was newly
    /// installed; an already-present key only has its value overwritten. The
    /// entry count is unchanged either way. Returns false, leaving the table
    /// unchanged, when the transient insertion could not place the key.
    pub fn insert_and_erase(&mut self, key: u64, value: V) -> (r: bool)
        requires
            old(self).wf(),
        ensures
            final(self).wf(),
            final(self).seed == old(self).seed,
            final(self).bucket_mask == old(self).bucket_mask,
            final(self).num_slots() == old(self).num_slots(),
            final(self).items == old(self).items,
            old(self)@.contains_key(key) ==> r && final(self)@ == old(self)@.insert(key, value),
            !old(self)@.contains_key(key) ==> final(self)@ == old(self)@,
    {
        let ghost m0 = self@;
        match self.insert(key, value) {
            Some((inserted, (b, lane))) => {
                if inserted {
                    let idx = 8 * b + lane;
                    let ghost s1 = self.slots@;
                    let ghost t1 = self.tags@;
                    proof {
                        assert(live_at(s1, idx as int, key));
                        lemma_map_clear(s1, idx as int, key);
                        crate::control::lemma_special_tags();
                    }
                    vec_set(&mut self.tags, idx, TAG_EMPTY);
                    vec_set(&mut self.slots, idx, None);
                    self.items = self.items - 1;
                    proof {
                        let nb = self.num_buckets();
                        assert forall|b2: int| 0 <= b2 < nb implies #[trigger] self.tags@[8 * b2
                            + 7] == TAG_DELETED by {
                            assert(t1[8 * b2 + 7] == TAG_DELETED);
                            assert(8 * b2 + 7 != idx) by {
                                assert(tag_is_full(t1[idx as int]));
                                crate::control::lemma_special_tags();
                            }
                        }
                        assert forall|j: int|
                            0 <= j < 8 * nb implies (tag_is_full(#[trigger] self.tags@[j])
                            <==> self.slots@[j] is Some) by {
                            if j != idx {
                                assert(self.tags@[j] == t1[j]);
                                assert(self.slots@[j] == s1[j]);
                            }
                        }
                        assert forall|j: int|
                            0 <= j < 8 * nb && #[trigger] self.slots@[j] is Some implies
                            self.tags@[j] == self.tag_of(slot_key(self.slots@, j))
                            && self.in_windows(j, slot_key(self.slots@, j)) by {
                            if j != idx {
                                assert(self.tags@[j] == t1[j]);
                                assert(self.slots@[j] == s1[j]);
                                assert(slot_key(self.slots@, j) == slot_key(s1, j));
                            }
                        }
                        assert(!m0.contains_key(key));
                        assert(self@ =~= m0);
                    }
                }
                true
            },
            None => false,
        }
    }
}

} // verus!
