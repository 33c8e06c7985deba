//! A cuckoo hash table with two group-aligned candidate windows per key and
//! breadth-first-search displacement.
//!
//! Every key has two candidate windows of eight slots. Window zero is the
//! hash masked to a group boundary; window one is the hash XORed with the
//! scramble of the key's own tag, masked the same way. Because XOR is an
//! involution and the scramble depends only on the tag, the partner window of
//! any occupied slot can be recovered from its tag alone, which is what the
//! displacement search relies on.

use vstd::prelude::*;

use crate::control::{
    tag_is_full, is_full_tag, spec_tag_of_hash, spec_scramble_tag, tag_of_hash, scramble_tag,
    Group, TAG_EMPTY, GROUP_WIDTH,
};
use crate::model::{
    slot_key, slot_val, slots_distinct, live_at, table_contains, table_map, count_live,
    lemma_contains_at, lemma_map_update_value, lemma_map_fill, lemma_map_clear, lemma_map_move,
    lemma_map_all_open, lemma_count_le_len, vec_set,
};
use crate::probe::{
    is_pow2, lemma_pow2_double, lemma_aligned_window, lemma_window_xor, lemma_xor_and_distribute,
    lemma_xor_cancel, lemma_block_unique,
};
use crate::rng::{rng_with_seed, rng_u64};
use crate::u64_fold_hash_fast::{spec_fold_hash, fold_hash_fast};

verus! {

/// Upper bound on the number of displacement-search nodes examined: two
/// complete trees of fan-out eight, explored to depth three.
pub const BFS_MAX_LEN: usize = 2 * (1 + 8 + 8 * 8 + 8 * 8 * 8);

/// One node of the displacement search: a candidate window, the queue index
/// of the node it was reached from, and the lane of the occupant whose
/// eviction leads here.
struct BfsNode {
    pos: usize,
    parent: usize,
    offset: usize,
}

pub struct HashTable<V: Copy> {
    /// One less than the number of slots.
    pub bucket_mask: usize,
    /// Number of slots minus the group width; masking with it yields a
    /// group-aligned window start.
    pub aligned_bucket_mask: usize,
    /// One metadata tag per slot.
    pub tags: Vec<u8>,
    /// The slots themselves.
    pub slots: Vec<Option<(u64, V)>>,
    /// Number of occupied slots.
    pub items: usize,
    /// Seed of the hash mixer.
    pub seed: u64,
}

/// Position `i` lies in the window of eight slots starting at `p`.
pub open spec fn in_win(p: int, i: int) -> bool {
    p <= i < p + 8
}

impl<V: Copy> View for HashTable<V> {
    type V = Map<u64, V>;

    /// The table denotes the map from occupied-slot keys to their values.
    open spec fn view(&self) -> Map<u64, V> {
        table_map(self.slots@)
    }
}

impl<V: Copy> HashTable<V> {
    /// Number of slots.
    pub open spec fn num_buckets(self) -> int {
        self.slots@.len() as int
    }

    /// The hash of a key under this table's seed.
    pub open spec fn hash_of(self, k: u64) -> u64 {
        spec_fold_hash(k, self.seed)
    }

    /// The tag a key stores.
    pub open spec fn tag_of(self, k: u64) -> u8 {
        spec_tag_of_hash(self.hash_of(k))
    }

    /// Start of the key's first candidate window.
    pub open spec fn pos0_of(self, k: u64) -> int {
        (self.hash_of(k) & (self.aligned_bucket_mask as u64)) as int
    }

    /// Start of the key's second candidate window.
    pub open spec fn pos1_of(self, k: u64) -> int {
        ((self.hash_of(k) ^ spec_scramble_tag(self.tag_of(k))) & (
        self.aligned_bucket_mask as u64)) as int
    }

    /// Position `i` lies in one of the key's two candidate windows.
    pub open spec fn in_windows(self, i: int, k: u64) -> bool {
        in_win(self.pos0_of(k), i) || in_win(self.pos1_of(k), i)
    }

    /// Window starting at `p` holds at least one EMPTY tag.
    pub open spec fn window_has_empty(self, p: int) -> bool {
        exists|j: int| 0 <= j < 8 && #[trigger] self.tags@[p + j] == TAG_EMPTY
    }

    /// Well-formedness: the geometry fields describe a power-of-two table of
    /// at least one group; tags and slots agree; occupied slots hold distinct
    /// keys, carry their key's fingerprint, and sit in one of their key's two
    /// candidate windows; `items` counts the occupied slots.
    pub open spec fn wf(self) -> bool {
        let n = self.num_buckets();
        &&& self.tags@.len() == n
        &&& 8 <= n <= usize::MAX / 4
        &&& is_pow2(n as u64)
        &&& self.bucket_mask as int == n - 1
        &&& self.aligned_bucket_mask as int == n - 8
        &&& slots_distinct(self.slots@)
        &&& self.items as int == count_live(self.slots@) as int
        &&& forall|i: int|
            0 <= i < n ==> (tag_is_full(#[trigger] self.tags@[i]) <==> self.slots@[i] is Some)
        &&& forall|i: int|
            0 <= i < n && #[trigger] self.slots@[i] is Some ==> self.tags@[i] == self.tag_of(
                slot_key(self.slots@, i),
            ) && self.in_windows(i, slot_key(self.slots@, i))
    }

    /// `p` is a well-formed window start: group-aligned, inside the table,
    /// and a fixed point of masking with the aligned mask.
    pub open spec fn win_ok(self, p: int) -> bool {
        &&& 0 <= p <= self.num_buckets() - 8
        &&& p % 8 == 0
        &&& ((p as u64) & (self.aligned_bucket_mask as u64)) == p as u64
    }

    /// Validity of one displacement-search node: its window is well formed,
    /// and every node beyond the two roots records its parent and the lane it
    /// was derived from.
    spec fn node_ok(self, queue: Seq<BfsNode>, q: int) -> bool {
        &&& self.win_ok(queue[q].pos as int)
        &&& (q >= 2 ==> queue[q].parent < q && queue[q].offset < 8)
    }

    /// The two candidate windows of a key are a pair under XOR with the
    /// masked scramble of the key's tag: applying it to either one yields the
    /// other, and both are group-aligned positions inside the table.
    pub proof fn lemma_window_pair(self, k: u64)
        requires
            self.wf(),
        ensures
            self.win_ok(self.pos0_of(k)),
            self.win_ok(self.pos1_of(k)),
            0 <= self.pos0_of(k) <= self.num_buckets() - 8,
            0 <= self.pos1_of(k) <= self.num_buckets() - 8,
            self.pos0_of(k) % 8 == 0,
            self.pos1_of(k) % 8 == 0,
            self.pos1_of(k) == ((self.pos0_of(k) as u64) ^ (spec_scramble_tag(self.tag_of(k)) & (
            self.aligned_bucket_mask as u64))) as int,
            self.pos0_of(k) == ((self.pos1_of(k) as u64) ^ (spec_scramble_tag(self.tag_of(k)) & (
            self.aligned_bucket_mask as u64))) as int,
    {
        let n = self.num_buckets() as u64;
        let m = self.aligned_bucket_mask as u64;
        let h = self.hash_of(k);
        let s = spec_scramble_tag(self.tag_of(k));
        lemma_aligned_window(n, h);
        lemma_aligned_window(n, h ^ s);
        lemma_xor_and_distribute(h, s, m);
        lemma_xor_cancel(h & m, s & m);
    }

    /// Computes the hash, tag, and the two candidate window starts of a key.
    fn probe_positions(&self, key: u64) -> (r: (u64, u8, usize, usize))
        requires
            self.wf(),
        ensures
            r.0 == self.hash_of(key),
            r.1 == self.tag_of(key),
            r.2 as int == self.pos0_of(key),
            r.3 as int == self.pos1_of(key),
            r.2 + 8 <= self.num_buckets(),
            r.3 + 8 <= self.num_buckets(),
    {
        let h = fold_hash_fast(key, self.seed);
        let t = tag_of_hash(h);
        let s = scramble_tag(t);
        let m = self.aligned_bucket_mask as u64;
        proof {
            self.lemma_window_pair(key);
        }
        let p0 = (h & m) as usize;
        let p1 = ((h ^ s) & m) as usize;
        (h, t, p0, p1)
    }

    /// Scans the window at `pos` for an occupied slot holding `key` whose tag
    /// equals `tag`.
    fn find_in_window(&self, pos: usize, tag: u8, key: u64) -> (r: Option<usize>)
        requires
            self.wf(),
            pos + 8 <= self.num_buckets(),
        ensures
            match r {
                Some(i) => pos <= i < pos + 8 && live_at(self.slots@, i as int, key),
                None => forall|j: int|
                    #![trigger self.slots@[pos + j]]
                    0 <= j < 8 ==> !(self.slots@[pos + j] is Some && slot_key(self.slots@, pos + j)
                        == key && self.tags@[pos + j] == tag),
            },
    {
        let g = Group::load(&self.tags, pos);
        let m = g.match_tag(tag);
        let mut j: usize = 0;
        while j < 8
            invariant
                self.wf(),
                pos + 8 <= self.num_buckets(),
                j <= 8,
                forall|j2: int| 0 <= j2 < 8 ==> (m.has(j2) <==> self.tags@[pos + j2] == tag),
                forall|j2: int|
                    #![trigger self.slots@[pos + j2]]
                    0 <= j2 < j ==> !(self.slots@[pos + j2] is Some && slot_key(
                        self.slots@,
                        pos + j2,
                    ) == key && self.tags@[pos + j2] == tag),
            decreases 8 - j,
        {
            if m.test(j) {
                match self.slots[pos + j] {
                    Some(pair) => {
                        if pair.0 == key {
                            return Some(pos + j);
                        }
                    },
                    None => {},
                }
            }
            j = j + 1;
        }
        None
    }

    /// Scans the window at `pos` for an EMPTY slot, returning the lowest.
    fn find_empty_in_window(&self, pos: usize) -> (r: Option<usize>)
        requires
            self.wf(),
            pos + 8 <= self.num_buckets(),
        ensures
            match r {
                Some(i) => pos <= i < pos + 8 && self.tags@[i as int] == TAG_EMPTY
                    && self.slots@[i as int] is None,
                None => !self.window_has_empty(pos as int),
            },
    {
        let g = Group::load(&self.tags, pos);
        let m = g.match_empty();
        match m.lowest_set_bit() {
            Some(j) => {
                proof {
                    assert(self.tags@[pos + j] == TAG_EMPTY);
                    crate::control::lemma_special_tags();
                }
                Some(pos + j)
            },
            None => {
                proof {
                    assert forall|j: int| 0 <= j < 8 implies #[trigger] self.tags@[pos + j]
                        != TAG_EMPTY by {
                        assert(!m.has(j));
                    }
                }
                None
            },
        }
    }

    /// If no slot in either candidate window of `key` holds it with the right
    /// tag, the table does not contain `key`.
    proof fn lemma_absent(self, key: u64)
        requires
            self.wf(),
            forall|j: int|
                #![trigger self.slots@[self.pos0_of(key) + j]]
                0 <= j < 8 ==> !(self.slots@[self.pos0_of(key) + j] is Some && slot_key(
                    self.slots@,
                    self.pos0_of(key) + j,
                ) == key && self.tags@[self.pos0_of(key) + j] == self.tag_of(key)),
            forall|j: int|
                #![trigger self.slots@[self.pos1_of(key) + j]]
                0 <= j < 8 ==> !(self.slots@[self.pos1_of(key) + j] is Some && slot_key(
                    self.slots@,
                    self.pos1_of(key) + j,
                ) == key && self.tags@[self.pos1_of(key) + j] == self.tag_of(key)),
        ensures
            !table_contains(self.slots@, key),
            !self@.contains_key(key),
    {
        if table_contains(self.slots@, key) {
            let i = choose|i: int| live_at(self.slots@, i, key);
            assert(self.slots@[i] is Some);
            assert(self.in_windows(i, key));
            if in_win(self.pos0_of(key), i) {
                let j = i - self.pos0_of(key);
                assert(!(self.slots@[self.pos0_of(key) + j] is Some && slot_key(
                    self.slots@,
                    self.pos0_of(key) + j,
                ) == key && self.tags@[self.pos0_of(key) + j] == self.tag_of(key)));
            } else {
                let j = i - self.pos1_of(key);
                assert(!(self.slots@[self.pos1_of(key) + j] is Some && slot_key(
                    self.slots@,
                    self.pos1_of(key) + j,
                ) == key && self.tags@[self.pos1_of(key) + j] == self.tag_of(key)));
            }
        }
    }

    /// Allocates a table able to hold `capacity` entries at a load factor of
    /// at most seven eighths: the number of slots is the smallest power of
    /// two, not below one group, that is at least `capacity * 8 / 7`.
    pub fn with_capacity(capacity: usize) -> (t: Self)
        requires
            capacity <= usize::MAX / 16,
        ensures
            t.wf(),
            t@ == Map::<u64, V>::empty(),
            t.items == 0,
            t.num_buckets() >= capacity,
            8 * capacity <= 7 * t.num_buckets(),
            forall|i: int| 0 <= i < t.num_buckets() ==> t.tags@[i] == TAG_EMPTY,
    {
        let target = (capacity * 8 + 6) / 7;
        let mut n: usize = GROUP_WIDTH;
        proof {
            crate::probe::lemma_small_pow2();
        }
        while n < target
            invariant
                8 <= n <= usize::MAX / 4,
                target <= usize::MAX / 8,
                is_pow2(n as u64),
            decreases 2 * target - n,
        {
            proof {
                lemma_pow2_double(n as u64);
            }
            n = n + n;
        }
        let mut tags: Vec<u8> = Vec::new();
        let mut slots: Vec<Option<(u64, V)>> = Vec::new();
        let mut i: usize = 0;
        while i < n
            invariant
                i <= n,
                tags@.len() == i,
                slots@.len() == i,
                forall|j: int| 0 <= j < i ==> tags@[j] == TAG_EMPTY,
                forall|j: int| 0 <= j < i ==> slots@[j] is None,
            decreases n - i,
        {
            tags.push(TAG_EMPTY);
            slots.push(None);
            i = i + 1;
        }
        let mut rng = rng_with_seed(123);
        let seed = rng_u64(&mut rng);
        let t = HashTable {
            bucket_mask: n - 1,
            aligned_bucket_mask: n - GROUP_WIDTH,
            tags,
            slots,
            items: 0,
            seed,
        };
        proof {
            lemma_map_all_open(t.slots@);
            assert(forall|i2: int|
                0 <= i2 < n ==> !tag_is_full(#[trigger] t.tags@[i2])) by {
                crate::control::lemma_special_tags();
            }
        }
        t
    }

    /// Number of entries in the table: the occupied-slot count, which equals
    /// the number of distinct live keys.
    pub fn len(&self) -> (r: usize)
        requires
            self.wf(),
        ensures
            r as int == count_live(self.slots@) as int,
            r as int == self@.dom().len(),
    {
        proof {
            crate::model::lemma_count_is_dom_len(self.slots@);
        }
        self.items
    }

    /// Looks up the current value bound to `key`.
    pub fn get(&self, key: &u64) -> (r: Option<&V>)
        requires
            self.wf(),
        ensures
            match r {
                Some(v) => self@.contains_key(*key) && *v == self@[*key],
                None => !self@.contains_key(*key),
            },
    {
        let k = *key;
        let (_h, t, p0, p1) = self.probe_positions(k);
        if let Some(i) = self.find_in_window(p0, t, k) {
            proof {
                lemma_contains_at(self.slots@, i as int, k);
            }
            match &self.slots[i] {
                Some(pair) => Some(&pair.1),
                None => None,
            }
        } else if let Some(i) = self.find_in_window(p1, t, k) {
            proof {
                lemma_contains_at(self.slots@, i as int, k);
            }
            match &self.slots[i] {
                Some(pair) => Some(&pair.1),
                None => None,
            }
        } else {
            proof {
                self.lemma_absent(k);
            }
            None
        }
    }

    /// Stepping from a well-formed window by the masked scramble of any tag
    /// yields a well-formed window.
    proof fn lemma_child_window(self, p: int, t: u8)
        requires
            self.wf(),
            self.win_ok(p),
        ensures
            self.win_ok(((p as u64) ^ (spec_scramble_tag(t) & (
            self.aligned_bucket_mask as u64))) as int),
    {
        let n = self.num_buckets() as u64;
        let m = self.aligned_bucket_mask as u64;
        let c = (p as u64) ^ (spec_scramble_tag(t) & m);
        lemma_window_xor(n, p as u64, spec_scramble_tag(t));
        lemma_aligned_window(n, c);
    }

    /// If the window at `p` holds a slot of key `k`, then stepping from `p`
    /// by the masked scramble of `k`'s tag lands on the key's other window.
    proof fn lemma_partner(self, k: u64, p: int, i: int)
        requires
            self.wf(),
            self.win_ok(p),
            in_win(p, i),
            self.in_windows(i, k),
        ensures
            ({
                let c = ((p as u64) ^ (spec_scramble_tag(self.tag_of(k)) & (
                self.aligned_bucket_mask as u64))) as int;
                c == self.pos0_of(k) || c == self.pos1_of(k)
            }),
    {
        self.lemma_window_pair(k);
        let m = self.aligned_bucket_mask as u64;
        let s = spec_scramble_tag(self.tag_of(k));
        if in_win(self.pos0_of(k), i) {
            lemma_block_unique(p, self.pos0_of(k), i);
        } else {
            lemma_block_unique(p, self.pos1_of(k), i);
            lemma_xor_cancel(self.pos0_of(k) as u64, s & m);
        }
    }

    /// Writes `(key, value)` with tag `tag` into the EMPTY slot `i`.
    fn fill_slot(&mut self, i: usize, key: u64, value: V, tag: u8)
        requires
            old(self).wf(),
            i < old(self).num_buckets(),
            old(self).tags@[i as int] == TAG_EMPTY,
            !table_contains(old(self).slots@, key),
            tag == old(self).tag_of(key),
            old(self).in_windows(i as int, key),
        ensures
            final(self).wf(),
            final(self).seed == old(self).seed,
            final(self).bucket_mask == old(self).bucket_mask,
            final(self).aligned_bucket_mask == old(self).aligned_bucket_mask,
            final(self).num_buckets() == old(self).num_buckets(),
            final(self)@ == old(self)@.insert(key, value),
            final(self).items == old(self).items + 1,
            live_at(final(self).slots@, i as int, key),
            slot_val(final(self).slots@, i as int) == value,
    {
        proof {
            crate::control::lemma_special_tags();
            lemma_count_le_len(self.slots@);
            crate::control::lemma_tag_of_hash_is_full(self.hash_of(key));
        }
        let ghost s0 = self.slots@;
        let ghost t0 = self.tags@;
        vec_set(&mut self.tags, i, tag);
        vec_set(&mut self.slots, i, Some((key, value)));
        self.items = self.items + 1;
        proof {
            lemma_map_fill(s0, i as int, key, value);
            let n = self.num_buckets();
            assert forall|j: int|
                0 <= j < n implies (tag_is_full(#[trigger] self.tags@[j])
                <==> self.slots@[j] is Some) by {
                if j != i {
                    assert(self.tags@[j] == t0[j]);
                    assert(self.slots@[j] == s0[j]);
                }
            }
            assert forall|j: int|
                0 <= j < n && #[trigger] self.slots@[j] is Some implies self.tags@[j]
                == self.tag_of(slot_key(self.slots@, j)) && self.in_windows(
                j,
                slot_key(self.slots@, j),
            ) by {
                if j != i {
                    assert(self.tags@[j] == t0[j]);
                    assert(self.slots@[j] == s0[j]);
                    assert(slot_key(self.slots@, j) == slot_key(s0, j));
                }
            }
        }
    }

    /// Inserts `key` bound to `value`, overwriting the value if the key is
    /// already present. On success returns whether the key was newly
    /// installed, the slot index now holding it, and the number of window
    /// probes the insertion took. Returns `None`, leaving the table unchanged,
    /// when the displacement search cannot place the key; the caller must
    /// then rebuild the table with more room.
    pub fn insert(&mut self, key: u64, value: V) -> (r: Option<(bool, usize, usize)>)
        requires
            old(self).wf(),
        ensures
            final(self).wf(),
            final(self).seed == old(self).seed,
            final(self).bucket_mask == old(self).bucket_mask,
            final(self).aligned_bucket_mask == old(self).aligned_bucket_mask,
            final(self).num_buckets() == old(self).num_buckets(),
            match r {
                Some(t) => {
                    &&& final(self)@ == old(self)@.insert(key, value)
                    &&& t.0 == !old(self)@.contains_key(key)
                    &&& live_at(final(self).slots@, t.1 as int, key)
                    &&& slot_val(final(self).slots@, t.1 as int) == value
                    &&& final(self).items as int == old(self).items + (if t.0 {
                        1int
                    } else {
                        0int
                    })
                    &&& t.2 >= 1
                },
                None => {
                    &&& final(self)@ == old(self)@
                    &&& final(self).items == old(self).items
                    &&& !old(self)@.contains_key(key)
                },
            },
            old(self)@.contains_key(key) ==> r is Some && !(r->0).0,
            (!old(self)@.contains_key(key) && (old(self).window_has_empty(old(self).pos0_of(key))
                || old(self).window_has_empty(old(self).pos1_of(key)))) ==> r is Some,
    {
        let (_h, t, p0, p1) = self.probe_positions(key);
        let ghost s0 = self.slots@;
        let ghost t0 = self.tags@;
        if let Some(i) = self.find_in_window(p0, t, key) {
            self.update_slot(i, key, value);
            return Some((false, i, 1));
        }
        if let Some(i) = self.find_in_window(p1, t, key) {
            self.update_slot(i, key, value);
            return Some((false, i, 2));
        }
        proof {
            self.lemma_absent(key);
        }
        if let Some(i) = self.find_empty_in_window(p0) {
            self.fill_slot(i, key, value, t);
            return Some((true, i, 1));
        }
        if let Some(i) = self.find_empty_in_window(p1) {
            self.fill_slot(i, key, value, t);
            return Some((true, i, 2));
        }
        self.insert_displace(key, value, t, p0, p1)
    }

    /// Overwrites the value of the occupied slot `i`, which holds `key`.
    fn update_slot(&mut self, i: usize, key: u64, value: V)
        requires
            old(self).wf(),
            live_at(old(self).slots@, i as int, key),
        ensures
            final(self).wf(),
            final(self).seed == old(self).seed,
            final(self).bucket_mask == old(self).bucket_mask,
            final(self).aligned_bucket_mask == old(self).aligned_bucket_mask,
            final(self).num_buckets() == old(self).num_buckets(),
            final(self)@ == old(self)@.insert(key, value),
            old(self)@.contains_key(key),
            final(self).items == old(self).items,
            live_at(final(self).slots@, i as int, key),
            slot_val(final(self).slots@, i as int) == value,
    {
        proof {
            lemma_contains_at(self.slots@, i as int, key);
        }
        let ghost s0 = self.slots@;
        vec_set(&mut self.slots, i, Some((key, value)));
        proof {
            lemma_map_update_value(s0, i as int, key, value);
            let n = self.num_buckets();
            assert forall|j: int|
                0 <= j < n implies (tag_is_full(#[trigger] self.tags@[j])
                <==> self.slots@[j] is Some) by {
                if j != i {
                    assert(self.slots@[j] == s0[j]);
                }
            }
            assert forall|j: int|
                0 <= j < n && #[trigger] self.slots@[j] is Some implies self.tags@[j]
                == self.tag_of(slot_key(self.slots@, j)) && self.in_windows(
                j,
                slot_key(self.slots@, j),
            ) by {
                if j != i {
                    assert(self.slots@[j] == s0[j]);
                    assert(slot_key(self.slots@, j) == slot_key(s0, j));
                } else {
                    assert(slot_key(self.slots@, j) == slot_key(s0, j));
                }
            }
        }
    }

    /// Places `key` by breadth-first displacement: searches outward from the
    /// key's two windows for a window with an EMPTY slot, then moves each
    /// occupant on the discovered path into its other window, freeing a slot
    /// in one of the key's own windows.
    fn insert_displace(&mut self, key: u64, value: V, tag: u8, pos0: usize, pos1: usize) -> (r:
        Option<(bool, usize, usize)>)
        requires
            old(self).wf(),
            !table_contains(old(self).slots@, key),
            tag == old(self).tag_of(key),
            pos0 as int == old(self).pos0_of(key),
            pos1 as int == old(self).pos1_of(key),
        ensures
            final(self).wf(),
            final(self).seed == old(self).seed,
            final(self).bucket_mask == old(self).bucket_mask,
            final(self).aligned_bucket_mask == old(self).aligned_bucket_mask,
            final(self).num_buckets() == old(self).num_buckets(),
            match r {
                Some(t) => {
                    &&& t.0
                    &&& final(self)@ == old(self)@.insert(key, value)
                    &&& live_at(final(self).slots@, t.1 as int, key)
                    &&& slot_val(final(self).slots@, t.1 as int) == value
                    &&& final(self).items as int == old(self).items + 1
                    &&& t.2 >= 1
                },
                None => {
                    &&& final(self)@ == old(self)@
                    &&& final(self).items == old(self).items
                },
            },
    {
        proof {
            self.lemma_window_pair(key);
        }
        let mut queue: Vec<BfsNode> = Vec::new();
        queue.push(BfsNode { pos: pos0, parent: 0, offset: 0 });
        queue.push(BfsNode { pos: pos1, parent: 0, offset: 0 });
        let m64 = self.aligned_bucket_mask as u64;
        let mut read: usize = 0;
        let mut found: Option<(usize, usize)> = None;
        while read < BFS_MAX_LEN && read < queue.len() && found.is_none()
            invariant
                *self == *old(self),
                self.wf(),
                tag == self.tag_of(key),
                m64 == self.aligned_bucket_mask as u64,
                queue.len() >= 2,
                queue@[0].pos == pos0,
                queue@[1].pos == pos1,
                pos0 as int == self.pos0_of(key),
                pos1 as int == self.pos1_of(key),
                read <= BFS_MAX_LEN,
                queue.len() <= 2 + 8 * read,
                forall|q: int| 0 <= q < queue.len() ==> #[trigger] self.node_ok(queue@, q),
                match found {
                    Some(f) => f.0 < queue.len() && in_win(queue@[f.0 as int].pos as int,
                        f.1 as int,
                    ) && f.1 < self.num_buckets() && self.tags@[f.1 as int] == TAG_EMPTY,
                    None => true,
                },
            decreases BFS_MAX_LEN - read,
        {
            let pos = queue[read].pos;
            proof {
                assert(self.node_ok(queue@, read as int));
            }
            let g = Group::load(&self.tags, pos);
            match g.match_empty().lowest_set_bit() {
                Some(j) => {
                    found = Some((read, pos + j));
                    read = read + 1;
                },
                None => {
                    let mut off: usize = 0;
                    while off < 8
                        invariant
                            *self == *old(self),
                            self.wf(),
                            m64 == self.aligned_bucket_mask as u64,
                            off <= 8,
                            read < queue.len(),
                            queue.len() >= 2,
                            queue@[0].pos == pos0,
                            queue@[1].pos == pos1,
                            pos as int == queue@[read as int].pos as int,
                            self.win_ok(pos as int),
                            queue.len() <= 2 + 8 * read + off,
                            read < BFS_MAX_LEN,
                            forall|q: int| 0 <= q < queue.len() ==> #[trigger] self.node_ok(
                                queue@,
                                q,
                            ),
                        decreases 8 - off,
                    {
                        let t_occ = self.tags[pos + off];
                        if is_full_tag(t_occ) {
                            let s = scramble_tag(t_occ);
                            proof {
                                self.lemma_child_window(pos as int, t_occ);
                            }
                            let child = ((pos as u64) ^ (s & m64)) as usize;
                            let ghost q0 = queue@;
                            queue.push(BfsNode { pos: child, parent: read, offset: off });
                            proof {
                                assert forall|q: int|
                                    0 <= q < queue.len() implies #[trigger] self.node_ok(
                                    queue@,
                                    q,
                                ) by {
                                    if q < q0.len() {
                                        assert(queue@[q] == q0[q]);
                                        assert(self.node_ok(q0, q));
                                    }
                                }
                            }
                        }
                        off = off + 1;
                    }
                    read = read + 1;
                },
            }
        }
        let (node0, leaf) = match found {
            Some(f) => f,
            None => {
                return None;
            },
        };
        let mut cur = leaf;
        let mut node = node0;
        let mut steps: usize = 0;
        let ghost s_orig = self.slots@;
        while node >= 2
            invariant
                self.wf(),
                self.seed == old(self).seed,
                self.bucket_mask == old(self).bucket_mask,
                self.aligned_bucket_mask == old(self).aligned_bucket_mask,
                self.num_buckets() == old(self).num_buckets(),
                self.items == old(self).items,
                m64 == self.aligned_bucket_mask as u64,
                tag == self.tag_of(key),
                table_map(self.slots@) == table_map(s_orig),
                s_orig == old(self).slots@,
                !table_contains(self.slots@, key),
                node < queue.len(),
                queue.len() >= 2,
                queue@[0].pos == pos0,
                queue@[1].pos == pos1,
                pos0 as int == self.pos0_of(key),
                pos1 as int == self.pos1_of(key),
                steps as int <= node0 - node,
                node0 < queue.len(),
                forall|q: int| 0 <= q < queue.len() ==> #[trigger] self.node_ok(queue@, q),
                cur < self.num_buckets(),
                self.tags@[cur as int] == TAG_EMPTY,
                in_win(queue@[node as int].pos as int, cur as int),
            decreases node,
        {
            let ghost pre = *self;
            proof {
                assert(self.node_ok(queue@, node as int));
            }
            let parent_node = queue[node].parent;
            let offset = queue[node].offset;
            let npos = queue[node].pos;
            proof {
                assert(self.node_ok(queue@, parent_node as int));
            }
            let ppos = queue[parent_node].pos;
            let pslot = ppos + offset;
            let pt = self.tags[pslot];
            if !is_full_tag(pt) {
                return None;
            }
            let s = scramble_tag(pt);
            let child_check = ((ppos as u64) ^ (s & m64)) as usize;
            proof {
                self.lemma_child_window(ppos as int, pt);
            }
            if child_check != npos {
                return None;
            }
            let entry = self.slots[pslot];
            let pair = match entry {
                Some(pair) => pair,
                None => {
                    proof {
                        assert(tag_is_full(self.tags@[pslot as int]));
                        assert(false);
                    }
                    return None;
                },
            };
            proof {
                crate::control::lemma_special_tags();
                assert(cur != pslot);
                assert(live_at(self.slots@, pslot as int, pair.0));
                assert(self.tags@[pslot as int] == self.tag_of(pair.0));
                self.lemma_partner(pair.0, ppos as int, pslot as int);
            }
            let ghost s1 = self.slots@;
            let ghost t1 = self.tags@;
            vec_set(&mut self.slots, pslot, None);
            vec_set(&mut self.slots, cur, Some(pair));
            vec_set(&mut self.tags, cur, pt);
            vec_set(&mut self.tags, pslot, TAG_EMPTY);
            proof {
                lemma_map_move(s1, pslot as int, cur as int);
                assert(self.slots@ =~= s1.update(pslot as int, None).update(
                    cur as int,
                    s1[pslot as int],
                ));
                let n = self.num_buckets();
                assert forall|j: int|
                    0 <= j < n implies (tag_is_full(#[trigger] self.tags@[j])
                    <==> self.slots@[j] is Some) by {
                    if j != cur && j != pslot {
                        assert(self.tags@[j] == t1[j]);
                        assert(self.slots@[j] == s1[j]);
                    }
                }
                assert forall|j: int|
                    0 <= j < n && #[trigger] self.slots@[j] is Some implies self.tags@[j]
                    == self.tag_of(slot_key(self.slots@, j)) && self.in_windows(
                    j,
                    slot_key(self.slots@, j),
                ) by {
                    if j != cur && j != pslot {
                        assert(self.tags@[j] == t1[j]);
                        assert(self.slots@[j] == s1[j]);
                        assert(slot_key(self.slots@, j) == slot_key(s1, j));
                    } else if j == cur {
                        assert(slot_key(self.slots@, j) == pair.0);
                        assert(self.tags@[j] == pt);
                    }
                }
                assert(!table_contains(self.slots@, key)) by {
                    if table_contains(self.slots@, key) {
                        let w = choose|w: int| live_at(self.slots@, w, key);
                        assert(table_map(self.slots@).contains_key(key)) by {
                            lemma_contains_at(self.slots@, w, key);
                        }
                    }
                }
            }
            proof {
                assert forall|q: int| 0 <= q < queue.len() implies #[trigger] self.node_ok(
                    queue@,
                    q,
                ) by {
                    assert(pre.node_ok(queue@, q));
                }
            }
            cur = pslot;
            node = parent_node;
            steps = steps + 1;
        }
        proof {
            assert(node == 0 || node == 1);
            assert(self.in_windows(cur as int, key));
            assert(!table_contains(self.slots@, key));
        }
        let ghost s2 = self.slots@;
        self.fill_slot(cur, key, value, tag);
        proof {
            assert(table_map(s2) == table_map(s_orig));
            assert(self@ == table_map(s2).insert(key, value));
        }
        Some((true, cur, 2 + steps))
    }

    /// Clears the occupied slot at `index`, removing its key from the table.
    /// Cuckoo lookups probe both candidate windows of a key unconditionally,
    /// so the slot can always be reopened as EMPTY; no tombstone is needed.
    pub fn erase_index(&mut self, index: usize)
        requires
            old(self).wf(),
            index < old(self).num_buckets(),
            old(self).slots@[index as int] is Some,
        ensures
            final(self).wf(),
            final(self).seed == old(self).seed,
            final(self).bucket_mask == old(self).bucket_mask,
            final(self).aligned_bucket_mask == old(self).aligned_bucket_mask,
            final(self).num_buckets() == old(self).num_buckets(),
            final(self)@ == old(self)@.remove(slot_key(old(self).slots@, index as int)),
            !final(self)@.contains_key(slot_key(old(self).slots@, index as int)),
            final(self).items + 1 == old(self).items,
            final(self).tags@ == old(self).tags@.update(index as int, TAG_EMPTY),
            final(self).slots@ == old(self).slots@.update(index as int, None),
    {
        let ghost s0 = self.slots@;
        let ghost t0 = self.tags@;
        let ghost k = slot_key(s0, index as int);
        vec_set(&mut self.tags, index, TAG_EMPTY);
        vec_set(&mut self.slots, index, None);
        proof {
            lemma_map_clear(s0, index as int, k);
            crate::control::lemma_special_tags();
        }
        self.items = self.items - 1;
        proof {
            let n = self.num_buckets();
            assert forall|j: int|
                0 <= j < n implies (tag_is_full(#[trigger] self.tags@[j])
                <==> self.slots@[j] is Some) by {
                if j != index {
                    assert(self.tags@[j] == t0[j]);
                    assert(self.slots@[j] == s0[j]);
                }
            }
            assert forall|j: int|
                0 <= j < n && #[trigger] self.slots@[j] is Some implies self.tags@[j]
                == self.tag_of(slot_key(self.slots@, j)) && self.in_windows(
                j,
                slot_key(self.slots@, j),
            ) by {
                if j != index {
                    assert(self.tags@[j] == t0[j]);
                    assert(self.slots@[j] == s0[j]);
                    assert(slot_key(self.slots@, j) == slot_key(s0, j));
                }
            }
            assert(table_map(self.slots@).dom() =~= table_map(s0).remove(k).dom());
        }
    }

    /// Inserts a key and immediately erases it again when it was newly
    /// installed; an already-present key only has its value overwritten. The
    /// entry count is unchanged either way. Returns false, leaving the table
    /// unchanged, when the transient insertion could not place the key.
    pub fn insert_and_erase(&mut self, key: u64, value: V) -> (r: bool)
        requires
            old(self).wf(),
        ensures
            final(self).wf(),
            final(self).seed == old(self).seed,
            final(self).bucket_mask == old(self).bucket_mask,
            final(self).aligned_bucket_mask == old(self).aligned_bucket_mask,
            final(self).num_buckets() == old(self).num_buckets(),
            final(self).items == old(self).items,
            old(self)@.contains_key(key) ==> r && final(self)@ == old(self)@.insert(key, value),
            !old(self)@.contains_key(key) ==> final(self)@ == old(self)@,
    {
        let ghost m0 = self@;
        match self.insert(key, value) {
            Some((inserted, index, _)) => {
                if inserted {
                    proof {
                        assert(live_at(self.slots@, index as int, key));
                    }
                    self.erase_index(index);
                    proof {
                        assert(self@ =~= m0);
                    }
                }
                true
            },
            None => false,
        }
    }

    /// Key `k` occupies some slot of the window starting at `p`.
    pub open spec fn key_in_window(self, p: int, k: u64) -> bool {
        exists|j: int| 0 <= j < 8 && #[trigger] live_at(self.slots@, p + j, k)
    }

    /// Reports how many windows a lookup of `key` inspects before reaching a
    /// verdict, and whether the key is present: one window when the key sits
    /// in its first window, or is absent and the first window holds an EMPTY
    /// slot; two otherwise.
    pub fn probe_length(&self, key: u64) -> (r: (usize, bool))
        requires
            self.wf(),
        ensures
            r.1 == self@.contains_key(key),
            r.0 as int == (if self.key_in_window(self.pos0_of(key), key) {
                1int
            } else if self@.contains_key(key) {
                2int
            } else if self.window_has_empty(self.pos0_of(key)) {
                1int
            } else {
                2int
            }),
    {
        let (_h, t, p0, p1) = self.probe_positions(key);
        if let Some(i) = self.find_in_window(p0, t, key) {
            proof {
                lemma_contains_at(self.slots@, i as int, key);
                assert(live_at(self.slots@, p0 as int + (i - p0), key));
            }
            (1, true)
        } else {
            proof {
                assert forall|j: int|
                    0 <= j < 8 implies !(#[trigger] live_at(self.slots@, p0 + j, key)) by {
                    if live_at(self.slots@, p0 + j, key) {
                        assert(self.slots@[p0 + j] is Some);
                        assert(self.tags@[p0 + j] == self.tag_of(key));
                    }
                }
            }
            if let Some(i) = self.find_in_window(p1, t, key) {
                proof {
                    lemma_contains_at(self.slots@, i as int, key);
                }
                (2, true)
            } else {
                proof {
                    self.lemma_absent(key);
                }
                match self.find_empty_in_window(p0) {
                    Some(e) => {
                        proof {
                            assert(self.tags@[self.pos0_of(key) + (e - p0)] == TAG_EMPTY);
                        }
                        (1, false)
                    },
                    None => (2, false),
                }
            }
        }
    }
}

} // verus!
