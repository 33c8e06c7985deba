//! First-result-wins cuckoo hashing with unaligned candidate windows.
//!
//! Every key has two candidate windows of eight consecutive slots, starting
//! at arbitrary (byte-aligned) positions: the hash masked into the table, and
//! the hash rotated by half a word and masked the same way. Unaligned windows
//! double the number of distinct windows and so tolerate higher load factors
//! than group-aligned ones. A window may wrap past the end of the table; the
//! first eight tags are mirrored behind the last slot, so a group load never
//! needs to wrap, and every tag write near the front is done twice.
//!
//! The displacement search derives an occupant's alternative windows by
//! rehashing its key, since an unaligned window start cannot be recovered
//! from the tag alone.

use vstd::prelude::*;

use crate::control::{
    tag_is_full, is_full_tag, spec_tag_of_hash, tag_of_hash, Group, TAG_EMPTY, GROUP_WIDTH,
};
use crate::model::{
    slot_key, slot_val, slots_distinct, live_at, table_contains, table_map, count_live,
    lemma_contains_at, lemma_map_update_value, lemma_map_fill, lemma_map_clear, lemma_map_move,
    lemma_map_all_open, lemma_count_le_len, vec_set,
};
use crate::probe::{
    is_pow2, spec_rotl32, rotl32, lemma_pow2_double, lemma_mask_in_range, lemma_mask_wrap,
    lemma_mod_window, lemma_mod_window_inv,
};
use crate::rng::{rng_with_seed, rng_u64};
use crate::u64_fold_hash_fast::{spec_fold_hash, fold_hash_fast};

verus! {

/// Upper bound on the number of displacement-search nodes examined: two
/// complete trees of fan-out sixteen (eight occupants, two alternative
/// windows each), explored to depth three.
pub const BFS_MAX_LEN: usize = 2 * (1 + 16 + 16 * 16 + 16 * 16 * 16);

/// One node of the displacement search: a candidate window, the queue index
/// of the node it was reached from, and the lane of the occupant whose
/// eviction leads here.
struct BfsNode {
    pos: usize,
    parent: usize,
    offset: usize,
}

pub struct HashTable<V: Copy> {
    /// One less than the number of slots.
    pub bucket_mask: usize,
    /// One metadata tag per slot, followed by a mirror of the first eight
    /// tags so that a window load past the end of the table reads the
    /// wrapped-around tags without wrapping itself.
    pub tags: Vec<u8>,
    /// The slots themselves.
    pub slots: Vec<Option<(u64, V)>>,
    /// Number of occupied slots.
    pub items: usize,
    /// Seed of the hash mixer.
    pub seed: u64,
}

/// The slot `j` lanes past window start `p`, wrapping around a table of `n`
/// slots.
pub open spec fn win_slot(p: int, j: int, n: int) -> int {
    if p + j < n {
        p + j
    } else {
        p + j - n
    }
}

impl<V: Copy> View for HashTable<V> {
    type V = Map<u64, V>;

    /// The table denotes the map from occupied-slot keys to their values.
    open spec fn view(&self) -> Map<u64, V> {
        table_map(self.slots@)
    }
}

impl<V: Copy> HashTable<V> {
    /// Number of slots.
    pub open spec fn num_buckets(self) -> int {
        self.slots@.len() as int
    }

    /// The hash of a key under this table's seed.
    pub open spec fn hash_of(self, k: u64) -> u64 {
        spec_fold_hash(k, self.seed)
    }

    /// The tag a key stores.
    pub open spec fn tag_of(self, k: u64) -> u8 {
        spec_tag_of_hash(self.hash_of(k))
    }

    /// Start of the key's first candidate window.
    pub open spec fn pos0_of(self, k: u64) -> int {
        (self.hash_of(k) & (self.bucket_mask as u64)) as int
    }

    /// Start of the key's second candidate window.
    pub open spec fn pos1_of(self, k: u64) -> int {
        (spec_rotl32(self.hash_of(k)) & (self.bucket_mask as u64)) as int
    }

    /// Position `i` lies in the wrap-around window of eight slots at `p`.
    pub open spec fn in_win_mod(self, p: int, i: int) -> bool {
        0 <= i < self.num_buckets() && (i - p) % self.num_buckets() < 8
    }

    /// Position `i` lies in one of the key's two candidate windows.
    pub open spec fn in_windows(self, i: int, k: u64) -> bool {
        self.in_win_mod(self.pos0_of(k), i) || self.in_win_mod(self.pos1_of(k), i)
    }

    /// Window starting at `p` holds at least one EMPTY tag (lane view, over
    /// the mirrored tag array).
    pub open spec fn window_has_empty(self, p: int) -> bool {
        exists|j: int| 0 <= j < 8 && #[trigger] self.tags@[p + j] == TAG_EMPTY
    }

    /// Well-formedness: power-of-two geometry with a mirrored tag tail, tags
    /// and slots in agreement, occupied slots with distinct keys, each
    /// carrying its key's fingerprint and sitting in one of its key's two
    /// candidate windows, and `items` counting the occupied slots.
    pub open spec fn wf(self) -> bool {
        let n = self.num_buckets();
        &&& self.tags@.len() == n + 8
        &&& 8 <= n <= usize::MAX / 4
        &&& is_pow2(n as u64)
        &&& self.bucket_mask as int == n - 1
        &&& slots_distinct(self.slots@)
        &&& self.items as int == count_live(self.slots@) as int
        &&& forall|j: int| 0 <= j < 8 ==> self.tags@[n + j] == #[trigger] self.tags@[j]
        &&& forall|i: int|
            0 <= i < n ==> (tag_is_full(#[trigger] self.tags@[i]) <==> self.slots@[i] is Some)
        &&& forall|i: int|
            0 <= i < n && #[trigger] self.slots@[i] is Some ==> self.tags@[i] == self.tag_of(
                slot_key(self.slots@, i),
            ) && self.in_windows(i, slot_key(self.slots@, i))
    }

    /// The lane `j` of the window at `p` reads the tag of slot
    /// `win_slot(p, j, n)`: either directly, or through the mirror tail.
    proof fn lemma_lane(self, p: int, j: int)
        requires
            self.wf(),
            0 <= p < self.num_buckets(),
            0 <= j < 8,
        ensures
            ({
                let s = win_slot(p, j, self.num_buckets());
                0 <= s < self.num_buckets() && (s - p) % self.num_buckets() == j && self.tags@[p
                    + j] == self.tags@[s] && (p + j) % self.num_buckets() == s
            }),
    {
        let n = self.num_buckets();
        lemma_mod_window(p, j, n);
        if p + j >= n {
            assert(self.tags@[n + (p + j - n)] == self.tags@[p + j - n]);
        }
    }

    /// Both candidate windows of a key start inside the table.
    pub proof fn lemma_windows_in_range(self, k: u64)
        requires
            self.wf(),
        ensures
            0 <= self.pos0_of(k) < self.num_buckets(),
            0 <= self.pos1_of(k) < self.num_buckets(),
    {
        lemma_mask_in_range(self.num_buckets() as u64, self.hash_of(k));
        lemma_mask_in_range(self.num_buckets() as u64, spec_rotl32(self.hash_of(k)));
    }

    /// Computes the slot `j` lanes past `p`, wrapping around the table.
    fn win_slot_exec(&self, pos: usize, j: usize) -> (s: usize)
        requires
            self.wf(),
            pos < self.num_buckets(),
            j < 8,
        ensures
            s as int == win_slot(pos as int, j as int, self.num_buckets()),
            s < self.num_buckets(),
            (s as int - pos as int) % self.num_buckets() == j as int,
            self.tags@[pos + j] == self.tags@[s as int],
    {
        proof {
            self.lemma_lane(pos as int, j as int);
            lemma_mask_wrap(self.num_buckets() as u64, pos as u64, j as u64);
        }
        (((pos as u64) + (j as u64)) & (self.bucket_mask as u64)) as usize
    }

    /// Computes the hash, tag, and the two candidate window starts of a key.
    fn probe_positions(&self, key: u64) -> (r: (u64, u8, usize, usize))
        requires
            self.wf(),
        ensures
            r.0 == self.hash_of(key),
            r.1 == self.tag_of(key),
            r.2 as int == self.pos0_of(key),
            r.3 as int == self.pos1_of(key),
            r.2 < self.num_buckets(),
            r.3 < self.num_buckets(),
    {
        let h = fold_hash_fast(key, self.seed);
        let t = tag_of_hash(h);
        let m = self.bucket_mask as u64;
        proof {
            lemma_mask_in_range(self.num_buckets() as u64, h);
            lemma_mask_in_range(self.num_buckets() as u64, spec_rotl32(h));
        }
        let p0 = (h & m) as usize;
        let p1 = (rotl32(h) & m) as usize;
        (h, t, p0, p1)
    }

    /// Scans the window at `pos` for an occupied slot holding `key` whose tag
    /// equals `tag`.
    fn find_in_window(&self, pos: usize, tag: u8, key: u64) -> (r: Option<usize>)
        requires
            self.wf(),
            pos < self.num_buckets(),
        ensures
            match r {
                Some(i) => i < self.num_buckets() && live_at(self.slots@, i as int, key)
                    && self.in_win_mod(pos as int, i as int),
                None => forall|j: int|
                    #![trigger win_slot(pos as int, j, self.num_buckets())]
                    0 <= j < 8 ==> ({
                        let s = win_slot(pos as int, j, self.num_buckets());
                        !(self.slots@[s] is Some && slot_key(self.slots@, s) == key
                            && self.tags@[s] == tag)
                    }),
            },
    {
        let g = Group::load(&self.tags, pos);
        let m = g.match_tag(tag);
        let mut j: usize = 0;
        while j < 8
            invariant
                self.wf(),
                pos < self.num_buckets(),
                j <= 8,
                forall|j2: int| 0 <= j2 < 8 ==> (m.has(j2) <==> self.tags@[pos + j2] == tag),
                forall|j2: int|
                    #![trigger win_slot(pos as int, j2, self.num_buckets())]
                    0 <= j2 < j ==> ({
                        let s = win_slot(pos as int, j2, self.num_buckets());
                        !(self.slots@[s] is Some && slot_key(self.slots@, s) == key
                            && self.tags@[s] == tag)
                    }),
            decreases 8 - j,
        {
            let s = self.win_slot_exec(pos, j);
            if m.test(j) {
                match self.slots[s] {
                    Some(pair) => {
                        if pair.0 == key {
                            return Some(s);
                        }
                    },
                    None => {},
                }
            }
            j = j + 1;
        }
        None
    }

    /// Scans the window at `pos` for an EMPTY slot, returning the lowest
    /// lane's slot.
    fn find_empty_in_window(&self, pos: usize) -> (r: Option<usize>)
        requires
            self.wf(),
            pos < self.num_buckets(),
        ensures
            match r {
                Some(i) => i < self.num_buckets() && self.tags@[i as int] == TAG_EMPTY
                    && self.slots@[i as int] is None && self.in_win_mod(pos as int, i as int),
                None => !self.window_has_empty(pos as int),
            },
    {
        let g = Group::load(&self.tags, pos);
        let m = g.match_empty();
        match m.lowest_set_bit() {
            Some(j) => {
                let s = self.win_slot_exec(pos, j);
                proof {
                    assert(self.tags@[s as int] == TAG_EMPTY);
                    crate::control::lemma_special_tags();
                }
                Some(s)
            },
            None => {
                proof {
                    assert forall|j: int| 0 <= j < 8 implies #[trigger] self.tags@[pos + j]
                        != TAG_EMPTY by {
                        assert(!m.has(j));
                    }
                }
                None
            },
        }
    }

    /// If no slot in either candidate window of `key` holds it with the right
    /// tag, the table does not contain `key`.
    proof fn lemma_absent(self, key: u64)
        requires
            self.wf(),
            0 <= self.pos0_of(key) < self.num_buckets(),
            0 <= self.pos1_of(key) < self.num_buckets(),
            forall|j: int|
                #![trigger win_slot(self.pos0_of(key), j, self.num_buckets())]
                0 <= j < 8 ==> ({
                    let s = win_slot(self.pos0_of(key), j, self.num_buckets());
                    !(self.slots@[s] is Some && slot_key(self.slots@, s) == key && self.tags@[s]
                        == self.tag_of(key))
                }),
            forall|j: int|
                #![trigger win_slot(self.pos1_of(key), j, self.num_buckets())]
                0 <= j < 8 ==> ({
                    let s = win_slot(self.pos1_of(key), j, self.num_buckets());
                    !(self.slots@[s] is Some && slot_key(self.slots@, s) == key && self.tags@[s]
                        == self.tag_of(key))
                }),
        ensures
            !table_contains(self.slots@, key),
            !self@.contains_key(key),
    {
        let n = self.num_buckets();
        if table_contains(self.slots@, key) {
            let i = choose|i: int| live_at(self.slots@, i, key);
            assert(self.slots@[i] is Some);
            assert(self.in_windows(i, key));
            if self.in_win_mod(self.pos0_of(key), i) {
                let p = self.pos0_of(key);
                let j = (i - p) % n;
                lemma_mod_window_inv(p, i, n);
                assert(i == win_slot(p, j, n));
            } else {
                let p = self.pos1_of(key);
                let j = (i - p) % n;
                lemma_mod_window_inv(p, i, n);
                assert(i == win_slot(p, j, n));
            }
        }
    }

    /// Writes tag `t` for slot `i`, and into the mirror tail as well when the
    /// slot lies in the first group.
    fn set_tag(&mut self, i: usize, t: u8)
        requires
            old(self).tags@.len() == old(self).num_buckets() + 8,
            old(self).bucket_mask as int == old(self).num_buckets() - 1,
            8 <= old(self).num_buckets() <= usize::MAX / 4,
            i < old(self).num_buckets(),
            forall|j: int|
                0 <= j < 8 ==> old(self).tags@[old(self).num_buckets() + j] == #[trigger] old(
                    self,
                ).tags@[j],
        ensures
            final(self).slots == old(self).slots,
            final(self).items == old(self).items,
            final(self).seed == old(self).seed,
            final(self).bucket_mask == old(self).bucket_mask,
            final(self).tags@.len() == old(self).tags@.len(),
            forall|j: int|
                0 <= j < final(self).num_buckets() ==> final(self).tags@[j] == (if j == i {
                    t
                } else {
                    old(self).tags@[j]
                }),
            forall|j: int|
                0 <= j < 8 ==> #[trigger] final(self).tags@[final(self).num_buckets() + j]
                    == final(self).tags@[j],
    {
        vec_set(&mut self.tags, i, t);
        if i < GROUP_WIDTH {
            let n = self.bucket_mask + 1;
            vec_set(&mut self.tags, n + i, t);
        }
        proof {
            let n = self.num_buckets();
            assert forall|j: int|
                0 <= j < 8 implies #[trigger] self.tags@[self.num_buckets() + j]
                == self.tags@[j] by {
                assert(old(self).tags@[old(self).num_buckets() + j] == old(self).tags@[j]);
                if i < 8 {
                    assert(self.tags@ == old(self).tags@.update(i as int, t).update(n + i, t));
                    if j != i {
                        assert(self.tags@[n + j] == old(self).tags@[n + j]);
                        assert(self.tags@[j] == old(self).tags@[j]);
                    }
                } else {
                    assert(self.tags@ == old(self).tags@.update(i as int, t));
                    assert(self.tags@[n + j] == old(self).tags@[n + j]);
                    assert(self.tags@[j] == old(self).tags@[j]);
                }
            }
        }
    }

    /// Allocates a table able to hold `capacity` entries at a load factor of
    /// at most seven eighths: the number of slots is the smallest power of
    /// two, not below one group, that is at least `capacity * 8 / 7`.
    pub fn with_capacity(capacity: usize) -> (t: Self)
        requires
            capacity <= usize::MAX / 16,
        ensures
            t.wf(),
            t@ == Map::<u64, V>::empty(),
            t.items == 0,
            t.num_buckets() >= capacity,
            8 * capacity <= 7 * t.num_buckets(),
            forall|i: int| 0 <= i < t.num_buckets() + 8 ==> t.tags@[i] == TAG_EMPTY,
    {
        let target = (capacity * 8 + 6) / 7;
        let mut n: usize = GROUP_WIDTH;
        proof {
            crate::probe::lemma_small_pow2();
        }
        while n < target
            invariant
                8 <= n <= usize::MAX / 4,
                target <= usize::MAX / 8,
                is_pow2(n as u64),
            decreases 2 * target - n,
        {
            proof {
                lemma_pow2_double(n as u64);
            }
            n = n + n;
        }
        let mut tags: Vec<u8> = Vec::new();
        let mut slots: Vec<Option<(u64, V)>> = Vec::new();
        let mut i: usize = 0;
        while i < n
            invariant
                i <= n,
                tags@.len() == i,
                slots@.len() == i,
                forall|j: int| 0 <= j < i ==> tags@[j] == TAG_EMPTY,
                forall|j: int| 0 <= j < i ==> slots@[j] is None,
            decreases n - i,
        {
            tags.push(TAG_EMPTY);
            slots.push(None);
            i = i + 1;
        }
        let mut i: usize = 0;
        while i < GROUP_WIDTH
            invariant
                i <= 8,
                slots@.len() == n,
                tags@.len() == n + i,
                forall|j: int| 0 <= j < n + i ==> tags@[j] == TAG_EMPTY,
                forall|j: int| 0 <= j < n ==> slots@[j] is None,
            decreases 8 - i,
        {
            tags.push(TAG_EMPTY);
            i = i + 1;
        }
        let mut rng = rng_with_seed(123);
        let seed = rng_u64(&mut rng);
        let t = HashTable { bucket_mask: n - 1, tags, slots, items: 0, seed };
        proof {
            lemma_map_all_open(t.slots@);
            assert(forall|i2: int| 0 <= i2 < n ==> !tag_is_full(#[trigger] t.tags@[i2])) by {
                crate::control::lemma_special_tags();
            }
        }
        t
    }

    /// Number of entries in the table: the occupied-slot count, which equals
    /// the number of distinct live keys.
    pub fn len(&self) -> (r: usize)
        requires
            self.wf(),
        ensures
            r as int == count_live(self.slots@) as int,
            r as int == self@.dom().len(),
    {
        proof {
            crate::model::lemma_count_is_dom_len(self.slots@);
        }
        self.items
    }

    /// Looks up the current value bound to `key`. Both candidate windows are
    /// probed unconditionally: stopping early at an EMPTY slot in the first
    /// window would miss keys whose first window was reopened by an erase.
    pub fn get(&self, key: &u64) -> (r: Option<&V>)
        requires
            self.wf(),
        ensures
            match r {
                Some(v) => self@.contains_key(*key) && *v == self@[*key],
                None => !self@.contains_key(*key),
            },
    {
        let k = *key;
        let (_h, t, p0, p1) = self.probe_positions(k);
        if let Some(i) = self.find_in_window(p0, t, k) {
            proof {
                lemma_contains_at(self.slots@, i as int, k);
            }
            match &self.slots[i] {
                Some(pair) => Some(&pair.1),
                None => None,
            }
        } else if let Some(i) = self.find_in_window(p1, t, k) {
            proof {
                lemma_contains_at(self.slots@, i as int, k);
            }
            match &self.slots[i] {
                Some(pair) => Some(&pair.1),
                None => None,
            }
        } else {
            proof {
                self.lemma_absent(k);
            }
            None
        }
    }

    /// Writes `(key, value)` with tag `tag` into the EMPTY slot `i`.
    fn fill_slot(&mut self, i: usize, key: u64, value: V, tag: u8)
        requires
            old(self).wf(),
            i < old(self).num_buckets(),
            old(self).tags@[i as int] == TAG_EMPTY,
            !table_contains(old(self).slots@, key),
            tag == old(self).tag_of(key),
            old(self).in_windows(i as int, key),
        ensures
            final(self).wf(),
            final(self).seed == old(self).seed,
            final(self).bucket_mask == old(self).bucket_mask,
            final(self).num_buckets() == old(self).num_buckets(),
            final(self)@ == old(self)@.insert(key, value),
            final(self).items == old(self).items + 1,
            live_at(final(self).slots@, i as int, key),
            slot_val(final(self).slots@, i as int) == value,
    {
        proof {
            crate::control::lemma_special_tags();
            lemma_count_le_len(self.slots@);
            crate::control::lemma_tag_of_hash_is_full(self.hash_of(key));
        }
        let ghost s0 = self.slots@;
        let ghost t0 = self.tags@;
        self.set_tag(i, tag);
        vec_set(&mut self.slots, i, Some((key, value)));
        self.items = self.items + 1;
        proof {
            lemma_map_fill(s0, i as int, key, value);
            let n = self.num_buckets();
            assert forall|j: int|
                0 <= j < n implies (tag_is_full(#[trigger] self.tags@[j])
                <==> self.slots@[j] is Some) by {
                if j != i {
                    assert(self.tags@[j] == t0[j]);
                    assert(self.slots@[j] == s0[j]);
                }
            }
            assert forall|j: int|
                0 <= j < n && #[trigger] self.slots@[j] is Some implies self.tags@[j]
                == self.tag_of(slot_key(self.slots@, j)) && self.in_windows(
                j,
                slot_key(self.slots@, j),
            ) by {
                if j != i {
                    assert(self.tags@[j] == t0[j]);
                    assert(self.slots@[j] == s0[j]);
                    assert(slot_key(self.slots@, j) == slot_key(s0, j));
                }
            }
        }
    }

    /// Overwrites the value of the occupied slot `i`, which holds `key`.
    fn update_slot(&mut self, i: usize, key: u64, value: V)
        requires
            old(self).wf(),
            live_at(old(self).slots@, i as int, key),
        ensures
            final(self).wf(),
            final(self).seed == old(self).seed,
            final(self).bucket_mask == old(self).bucket_mask,
            final(self).num_buckets() == old(self).num_buckets(),
            final(self)@ == old(self)@.insert(key, value),
            old(self)@.contains_key(key),
            final(self).items == old(self).items,
            live_at(final(self).slots@, i as int, key),
            slot_val(final(self).slots@, i as int) == value,
    {
        proof {
            lemma_contains_at(self.slots@, i as int, key);
        }
        let ghost s0 = self.slots@;
        vec_set(&mut self.slots, i, Some((key, value)));
        proof {
            lemma_map_update_value(s0, i as int, key, value);
            let n = self.num_buckets();
            assert forall|j: int|
                0 <= j < n implies (tag_is_full(#[trigger] self.tags@[j])
                <==> self.slots@[j] is Some) by {
                if j != i {
                    assert(self.slots@[j] == s0[j]);
                }
            }
            assert forall|j: int|
                0 <= j < n && #[trigger] self.slots@[j] is Some implies self.tags@[j]
                == self.tag_of(slot_key(self.slots@, j)) && self.in_windows(
                j,
                slot_key(self.slots@, j),
            ) by {
                assert(slot_key(self.slots@, j) == slot_key(s0, j));
                if j != i {
                    assert(self.slots@[j] == s0[j]);
                }
            }
        }
    }

    /// Inserts `key` bound to `value`, overwriting the value if the key is
    /// already present. On success returns whether the key was newly
    /// installed and the slot index now holding it. Returns `None`, leaving
    /// the table unchanged, when the displacement search cannot place the
    /// key; the caller must then rebuild the table with more room.
    pub fn insert(&mut self, key: u64, value: V) -> (r: Option<(bool, usize)>)
        requires
            old(self).wf(),
        ensures
            final(self).wf(),
            final(self).seed == old(self).seed,
            final(self).bucket_mask == old(self).bucket_mask,
            final(self).num_buckets() == old(self).num_buckets(),
            match r {
                Some(t) => {
                    &&& final(self)@ == old(self)@.insert(key, value)
                    &&& t.0 == !old(self)@.contains_key(key)
                    &&& live_at(final(self).slots@, t.1 as int, key)
                    &&& slot_val(final(self).slots@, t.1 as int) == value
                    &&& final(self).items as int == old(self).items + (if t.0 {
                        1int
                    } else {
                        0int
                    })
                },
                None => {
                    &&& final(self)@ == old(self)@
                    &&& final(self).items == old(self).items
                    &&& !old(self)@.contains_key(key)
                },
            },
            old(self)@.contains_key(key) ==> r is Some && !(r->0).0,
            (!old(self)@.contains_key(key) && (old(self).window_has_empty(old(self).pos0_of(key))
                || old(self).window_has_empty(old(self).pos1_of(key)))) ==> r is Some,
    {
        let (_h, t, p0, p1) = self.probe_positions(key);
        if let Some(i) = self.find_in_window(p0, t, key) {
            self.update_slot(i, key, value);
            return Some((false, i));
        }
        if let Some(i) = self.find_in_window(p1, t, key) {
            self.update_slot(i, key, value);
            return Some((false, i));
        }
        proof {
            self.lemma_absent(key);
        }
        if let Some(i) = self.find_empty_in_window(p0) {
            self.fill_slot(i, key, value, t);
            return Some((true, i));
        }
        if let Some(i) = self.find_empty_in_window(p1) {
            self.fill_slot(i, key, value, t);
            return Some((true, i));
        }
        self.insert_displace(key, value, t, p0, p1)
    }

    /// Validity of one displacement-search node.
    spec fn node_ok(self, queue: Seq<BfsNode>, q: int) -> bool {
        &&& 0 <= queue[q].pos < self.num_buckets()
        &&& (q >= 2 ==> queue[q].parent < q && queue[q].offset < 8)
    }

    /// Places `key` by breadth-first displacement: searches outward from the
    /// key's two windows for a window with an EMPTY slot, then moves each
    /// occupant on the discovered path into one of its own other windows,
    /// freeing a slot in one of the key's candidate windows.
    fn insert_displace(&mut self, key: u64, value: V, tag: u8, pos0: usize, pos1: usize) -> (r:
        Option<(bool, usize)>)
        requires
            old(self).wf(),
            !table_contains(old(self).slots@, key),
            tag == old(self).tag_of(key),
            pos0 as int == old(self).pos0_of(key),
            pos1 as int == old(self).pos1_of(key),
            pos0 < old(self).num_buckets(),
            pos1 < old(self).num_buckets(),
        ensures
            final(self).wf(),
            final(self).seed == old(self).seed,
            final(self).bucket_mask == old(self).bucket_mask,
            final(self).num_buckets() == old(self).num_buckets(),
            match r {
                Some(t) => {
                    &&& t.0
                    &&& final(self)@ == old(self)@.insert(key, value)
                    &&& live_at(final(self).slots@, t.1 as int, key)
                    &&& slot_val(final(self).slots@, t.1 as int) == value
                    &&& final(self).items as int == old(self).items + 1
                },
                None => {
                    &&& final(self)@ == old(self)@
                    &&& final(self).items == old(self).items
                },
            },
    {
        let mut queue: Vec<BfsNode> = Vec::new();
        queue.push(BfsNode { pos: pos0, parent: 0, offset: 0 });
        queue.push(BfsNode { pos: pos1, parent: 0, offset: 0 });
        let m64 = self.bucket_mask as u64;
        let mut read: usize = 0;
        let mut found: Option<(usize, usize)> = None;
        while read < BFS_MAX_LEN && read < queue.len() && found.is_none()
            invariant
                *self == *old(self),
                self.wf(),
                tag == self.tag_of(key),
                m64 == self.bucket_mask as u64,
                queue.len() >= 2,
                queue@[0].pos == pos0,
                queue@[1].pos == pos1,
                pos0 as int == self.pos0_of(key),
                pos1 as int == self.pos1_of(key),
                pos0 < self.num_buckets(),
                pos1 < self.num_buckets(),
                read <= BFS_MAX_LEN,
                queue.len() <= 2 + 16 * read,
                forall|q: int| 0 <= q < queue.len() ==> #[trigger] self.node_ok(queue@, q),
                match found {
                    Some(f) => f.0 < queue.len() && f.1 < self.num_buckets()
                        && self.in_win_mod(queue@[f.0 as int].pos as int, f.1 as int)
                        && self.tags@[f.1 as int] == TAG_EMPTY,
                    None => true,
                },
            decreases BFS_MAX_LEN - read,
        {
            let pos = queue[read].pos;
            proof {
                assert(self.node_ok(queue@, read as int));
            }
            match self.find_empty_in_window(pos) {
                Some(leaf) => {
                    found = Some((read, leaf));
                    read = read + 1;
                },
                None => {
                    let mut off: usize = 0;
                    while off < 8
                        invariant
                            *self == *old(self),
                            self.wf(),
                            m64 == self.bucket_mask as u64,
                            off <= 8,
                            read < queue.len(),
                            queue.len() >= 2,
                            queue@[0].pos == pos0,
                            queue@[1].pos == pos1,
                            pos as int == queue@[read as int].pos as int,
                            pos < self.num_buckets(),
                            queue.len() <= 2 + 16 * read + 2 * off,
                            read < BFS_MAX_LEN,
                            forall|q: int| 0 <= q < queue.len() ==> #[trigger] self.node_ok(
                                queue@,
                                q,
                            ),
                        decreases 8 - off,
                    {
                        let ws = self.win_slot_exec(pos, off);
                        match self.slots[ws] {
                            Some(pair) => {
                                let rehash = fold_hash_fast(pair.0, self.seed);
                                proof {
                                    lemma_mask_in_range(self.num_buckets() as u64, rehash);
                                    lemma_mask_in_range(
                                        self.num_buckets() as u64,
                                        spec_rotl32(rehash),
                                    );
                                }
                                let alt0 = (rehash & m64) as usize;
                                let alt1 = (rotl32(rehash) & m64) as usize;
                                let ghost q0 = queue@;
                                queue.push(BfsNode { pos: alt0, parent: read, offset: off });
                                queue.push(BfsNode { pos: alt1, parent: read, offset: off });
                                proof {
                                    assert forall|q: int|
                                        0 <= q < queue.len() implies #[trigger] self.node_ok(
                                        queue@,
                                        q,
                                    ) by {
                                        if q < q0.len() {
                                            assert(queue@[q] == q0[q]);
                                            assert(self.node_ok(q0, q));
                                        }
                                    }
                                }
                            },
                            None => {},
                        }
                        off = off + 1;
                    }
                    read = read + 1;
                },
            }
        }
        let (node0, leaf) = match found {
            Some(f) => f,
            None => {
                return None;
            },
        };
        let mut cur = leaf;
        let mut node = node0;
        let ghost s_orig = self.slots@;
        while node >= 2
            invariant
                self.wf(),
                self.seed == old(self).seed,
                self.bucket_mask == old(self).bucket_mask,
                self.num_buckets() == old(self).num_buckets(),
                self.items == old(self).items,
                m64 == self.bucket_mask as u64,
                tag == self.tag_of(key),
                table_map(self.slots@) == table_map(s_orig),
                s_orig == old(self).slots@,
                !table_contains(self.slots@, key),
                node < queue.len(),
                queue.len() >= 2,
                queue@[0].pos == pos0,
                queue@[1].pos == pos1,
                pos0 as int == self.pos0_of(key),
                pos1 as int == self.pos1_of(key),
                forall|q: int| 0 <= q < queue.len() ==> #[trigger] self.node_ok(queue@, q),
                cur < self.num_buckets(),
                self.tags@[cur as int] == TAG_EMPTY,
                self.in_win_mod(queue@[node as int].pos as int, cur as int),
            decreases node,
        {
            let ghost pre = *self;
            proof {
                assert(self.node_ok(queue@, node as int));
            }
            let parent_node = queue[node].parent;
            let offset = queue[node].offset;
            let npos = queue[node].pos;
            proof {
                assert(self.node_ok(queue@, parent_node as int));
            }
            let ppos = queue[parent_node].pos;
            let pslot = self.win_slot_exec(ppos, offset);
            let pt = self.tags[pslot];
            if !is_full_tag(pt) {
                return None;
            }
            let pair = match self.slots[pslot] {
                Some(pair) => pair,
                None => {
                    proof {
                        assert(tag_is_full(self.tags@[pslot as int]));
                        assert(false);
                    }
                    return None;
                },
            };
            let rehash = fold_hash_fast(pair.0, self.seed);
            proof {
                lemma_mask_in_range(self.num_buckets() as u64, rehash);
                lemma_mask_in_range(self.num_buckets() as u64, spec_rotl32(rehash));
            }
            let alt0 = (rehash & m64) as usize;
            let alt1 = (rotl32(rehash) & m64) as usize;
            if npos != alt0 && npos != alt1 {
                return None;
            }
            proof {
                crate::control::lemma_special_tags();
                assert(cur != pslot);
                assert(live_at(self.slots@, pslot as int, pair.0));
                assert(self.tags@[pslot as int] == self.tag_of(pair.0));
                assert(self.in_windows(cur as int, pair.0));
            }
            let ghost s1 = self.slots@;
            let ghost t1 = self.tags@;
            vec_set(&mut self.slots, pslot, None);
            vec_set(&mut self.slots, cur, Some(pair));
            self.set_tag(cur, pt);
            self.set_tag(pslot, TAG_EMPTY);
            proof {
                lemma_map_move(s1, pslot as int, cur as int);
                assert(self.slots@ =~= s1.update(pslot as int, None).update(
                    cur as int,
                    s1[pslot as int],
                ));
                let n = self.num_buckets();
                assert forall|j: int|
                    0 <= j < n implies (tag_is_full(#[trigger] self.tags@[j])
                    <==> self.slots@[j] is Some) by {
                    if j != cur && j != pslot {
                        assert(self.tags@[j] == t1[j]);
                        assert(self.slots@[j] == s1[j]);
                    }
                }
                assert forall|j: int|
                    0 <= j < n && #[trigger] self.slots@[j] is Some implies self.tags@[j]
                    == self.tag_of(slot_key(self.slots@, j)) && self.in_windows(
                    j,
                    slot_key(self.slots@, j),
                ) by {
                    if j != cur && j != pslot {
                        assert(self.tags@[j] == t1[j]);
                        assert(self.slots@[j] == s1[j]);
                        assert(slot_key(self.slots@, j) == slot_key(s1, j));
                    } else if j == cur {
                        assert(slot_key(self.slots@, j) == pair.0);
                        assert(self.tags@[j] == pt);
                    }
                }
                assert(!table_contains(self.slots@, key)) by {
                    if table_contains(self.slots@, key) {
                        let w = choose|w: int| live_at(self.slots@, w, key);
                        assert(table_map(self.slots@).contains_key(key)) by {
                            lemma_contains_at(self.slots@, w, key);
                        }
                    }
                }
                assert forall|q: int| 0 <= q < queue.len() implies #[trigger] self.node_ok(
                    queue@,
                    q,
                ) by {
                    assert(pre.node_ok(queue@, q));
                }
            }
            cur = pslot;
            node = parent_node;
        }
        proof {
            assert(node == 0 || node == 1);
            assert(self.in_windows(cur as int, key));
            assert(!table_contains(self.slots@, key));
        }
        let ghost s2 = self.slots@;
        self.fill_slot(cur, key, value, tag);
        proof {
            assert(table_map(s2) == table_map(s_orig));
            assert(self@ == table_map(s2).insert(key, value));
        }
        Some((true, cur))
    }

    /// Clears the occupied slot at `index`, removing its key from the table.
    /// Cuckoo lookups probe both candidate windows of a key unconditionally,
    /// so the slot can always be reopened as EMPTY; no tombstone is needed.
    pub fn erase_index(&mut self, index: usize)
        requires
            old(self).wf(),
            index < old(self).num_buckets(),
            old(self).slots@[index as int] is Some,
        ensures
            final(self).wf(),
            final(self).seed == old(self).seed,
            final(self).bucket_mask == old(self).bucket_mask,
            final(self).num_buckets() == old(self).num_buckets(),
            final(self)@ == old(self)@.remove(slot_key(old(self).slots@, index as int)),
            !final(self)@.contains_key(slot_key(old(self).slots@, index as int)),
            final(self).items + 1 == old(self).items,
            final(self).slots@ == old(self).slots@.update(index as int, None),
            forall|j: int|
                0 <= j < final(self).num_buckets() ==> final(self).tags@[j] == (if j == index {
                    TAG_EMPTY
                } else {
                    old(self).tags@[j]
                }),
            forall|j: int|
                0 <= j < 8 ==> #[trigger] final(self).tags@[final(self).num_buckets() + j]
                    == final(self).tags@[j],
    {
        let ghost s0 = self.slots@;
        let ghost t0 = self.tags@;
        let ghost k = slot_key(s0, index as int);
        self.set_tag(index, TAG_EMPTY);
        vec_set(&mut self.slots, index, None);
        proof {
            lemma_map_clear(s0, index as int, k);
            crate::control::lemma_special_tags();
        }
        self.items = self.items - 1;
        proof {
            let n = self.num_buckets();
            assert forall|j: int|
                0 <= j < n implies (tag_is_full(#[trigger] self.tags@[j])
                <==> self.slots@[j] is Some) by {
                if j != index {
                    assert(self.tags@[j] == t0[j]);
                    assert(self.slots@[j] == s0[j]);
                }
            }
            assert forall|j: int|
                0 <= j < n && #[trigger] self.slots@[j] is Some implies self.tags@[j]
                == self.tag_of(slot_key(self.slots@, j)) && self.in_windows(
                j,
                slot_key(self.slots@, j),
            ) by {
                if j != index {
                    assert(self.tags@[j] == t0[j]);
                    assert(self.slots@[j] == s0[j]);
                    assert(slot_key(self.slots@, j) == slot_key(s0, j));
                }
            }
            assert(table_map(self.slots@).dom() =~= table_map(s0).remove(k).dom());
        }
    }

    /// Inserts a key and immediately erases it again when it was newly
    /// installed; an already-present key only has its value overwritten. The
    /// entry count is unchanged either way. Returns false, leaving the table
    /// unchanged, when the transient insertion could not place the key.
    pub fn insert_and_erase(&mut self, key: u64, value: V) -> (r: bool)
        requires
            old(self).wf(),
        ensures
            final(self).wf(),
            final(self).seed == old(self).seed,
            final(self).bucket_mask == old(self).bucket_mask,
            final(self).num_buckets() == old(self).num_buckets(),
            final(self).items == old(self).items,
            old(self)@.contains_key(key) ==> r && final(self)@ == old(self)@.insert(key, value),
            !old(self)@.contains_key(key) ==> final(self)@ == old(self)@,
    {
        let ghost m0 = self@;
        match self.insert(key, value) {
            Some((inserted, index)) => {
                if inserted {
                    proof {
                        assert(live_at(self.slots@, index as int, key));
                    }
                    self.erase_index(index);
                    proof {
                        assert(self@ =~= m0);
                    }
                }
                true
            },
            None => false,
        }
    }

    /// Key `k` occupies some slot of the window starting at `p`.
    pub open spec fn key_in_window(self, p: int, k: u64) -> bool {
        exists|j: int|
            0 <= j < 8 && #[trigger] live_at(self.slots@, win_slot(p, j, self.num_buckets()), k)
    }

    /// Reports how many windows a lookup of `key` inspects before reaching a
    /// verdict, and whether the key is present: one window when the key sits
    /// in its first window, or is absent and the first window holds an EMPTY
    /// slot; two otherwise.
    pub fn probe_length(&self, key: u64) -> (r: (usize, bool))
        requires
            self.wf(),
        ensures
            r.1 == self@.contains_key(key),
            r.0 as int == (if self.key_in_window(self.pos0_of(key), key) {
                1int
            } else if self@.contains_key(key) {
                2int
            } else if self.window_has_empty(self.pos0_of(key)) {
                1int
            } else {
                2int
            }),
    {
        let (_h, t, p0, p1) = self.probe_positions(key);
        if let Some(i) = self.find_in_window(p0, t, key) {
            proof {
                lemma_contains_at(self.slots@, i as int, key);
                let n = self.num_buckets();
                let j = (i as int - p0 as int) % n;
                lemma_mod_window_inv(p0 as int, i as int, n);
                assert(live_at(self.slots@, win_slot(p0 as int, j, n), key));
            }
            (1, true)
        } else {
            proof {
                assert forall|j: int|
                    0 <= j < 8 implies !(#[trigger] live_at(
                    self.slots@,
                    win_slot(p0 as int, j, self.num_buckets()),
                    key,
                )) by {
                    let s = win_slot(p0 as int, j, self.num_buckets());
                    if live_at(self.slots@, s, key) {
                        assert(self.slots@[s] is Some);
                        assert(self.tags@[s] == self.tag_of(key));
                    }
                }
            }
            if let Some(i) = self.find_in_window(p1, t, key) {
                proof {
                    lemma_contains_at(self.slots@, i as int, key);
                }
                (2, true)
            } else {
                proof {
                    self.lemma_absent(key);
                }
                match self.find_empty_in_window(p0) {
                    Some(e) => {
                        proof {
                            let n = self.num_buckets();
                            let j = (e as int - p0 as int) % n;
                            lemma_mod_window_inv(p0 as int, e as int, n);
                            self.lemma_lane(p0 as int, j);
                            assert(self.tags@[p0 + j] == TAG_EMPTY);
                        }
                        (1, false)
                    },
                    None => (2, false),
                }
            }
        }
    }
}

} // verus!
