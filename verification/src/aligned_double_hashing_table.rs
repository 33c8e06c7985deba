//! A probing hash table with SwissTable metadata: one tag per slot, probed a
//! group-aligned window at a time. The probe sequence starts at the hash
//! masked to a group boundary and advances by a fixed group-aligned stride
//! derived from the upper hash bits (double hashing).
//!
//! A lookup may stop at the first window of its sequence holding an EMPTY
//! tag: every occupant was placed at the first reusable slot of its own
//! sequence, at or before the first window with an EMPTY tag, so the windows
//! before it hold none. Erasure therefore always writes a DELETED tombstone,
//! which later inserts may reuse but which never ends a probe.

use vstd::prelude::*;

use crate::control::{
    tag_is_full, spec_tag_of_hash, tag_of_hash, Group, TAG_EMPTY, TAG_DELETED, GROUP_WIDTH,
};
use crate::model::{
    slot_key, slot_val, slots_distinct, live_at, table_contains, table_map, count_live,
    lemma_contains_at, lemma_map_update_value, lemma_map_fill, lemma_map_clear,
    lemma_map_all_open, lemma_count_le_len, vec_set,
};
use crate::probe::{
    is_pow2, spec_rotl32, rotl32, lemma_pow2_double, lemma_aligned_window, lemma_stride_step,
};
use crate::rng::{rng_with_seed, rng_u64};
use crate::u64_fold_hash_fast::{spec_fold_hash, fold_hash_fast};

verus! {

/// The group-aligned stride of a hash: its rotated upper half masked to a
/// group boundary, forced nonzero by setting the group-width bit.
pub open spec fn spec_stride(h: u64, ma: u64) -> u64 {
    (spec_rotl32(h) & ma) | 8
}

/// The window visited at step `j` of the probe sequence for hash `h`, with
/// aligned mask `ma` and full mask `mb`.
pub open spec fn probe_pos(h: u64, ma: u64, mb: u64, j: int) -> int
    decreases j,
{
    if j <= 0 {
        (h & ma) as int
    } else {
        (((probe_pos(h, ma, mb, j - 1) + spec_stride(h, ma)) as u64) & mb) as int
    }
}

/// Window `p` holds no EMPTY tag.
pub open spec fn no_empty_window(tags: Seq<u8>, p: int) -> bool {
    forall|l: int| 0 <= l < 8 ==> #[trigger] tags[p + l] != TAG_EMPTY
}

/// The first `j` windows of the probe sequence for `h` hold no EMPTY tag.
pub open spec fn prefix_no_empty(tags: Seq<u8>, h: u64, ma: u64, mb: u64, j: int) -> bool {
    forall|j2: int| 0 <= j2 < j ==> no_empty_window(tags, #[trigger] probe_pos(h, ma, mb, j2))
}

/// Writing any tag other than EMPTY preserves every EMPTY-free window.
pub proof fn lemma_no_empty_monotone(tags: Seq<u8>, idx: int, t: u8)
    requires
        0 <= idx < tags.len(),
        t != TAG_EMPTY,
    ensures
        forall|p: int|
            0 <= p && p + 8 <= tags.len() && no_empty_window(tags, p) ==> no_empty_window(
                #[trigger] tags.update(idx, t),
                p,
            ),
{
    assert forall|p: int|
        0 <= p && p + 8 <= tags.len() && no_empty_window(tags, p) implies no_empty_window(
        tags.update(idx, t),
        p,
    ) by {
        assert forall|l: int| 0 <= l < 8 implies #[trigger] tags.update(idx, t)[p + l]
            != TAG_EMPTY by {
            if p + l != idx {
                assert(tags.update(idx, t)[p + l] == tags[p + l]);
            }
        }
    }
}

pub struct HashTable<V: Copy> {
    /// One less than the number of slots.
    pub bucket_mask: usize,
    /// Number of slots minus the group width; masking with it yields a
    /// group-aligned position.
    pub aligned_bucket_mask: usize,
    /// One metadata tag per slot.
    pub tags: Vec<u8>,
    /// The slots themselves.
    pub slots: Vec<Option<(u64, V)>>,
    /// Number of occupied slots.
    pub items: usize,
    /// Seed of the hash mixer.
    pub seed: u64,
}

impl<V: Copy> View for HashTable<V> {
    type V = Map<u64, V>;

    /// The table denotes the map from occupied-slot keys to their values.
    open spec fn view(&self) -> Map<u64, V> {
        table_map(self.slots@)
    }
}

impl<V: Copy> HashTable<V> {
    /// Number of slots.
    pub open spec fn num_buckets(self) -> int {
        self.slots@.len() as int
    }

    /// The hash of a key under this table's seed.
    pub open spec fn hash_of(self, k: u64) -> u64 {
        spec_fold_hash(k, self.seed)
    }

    /// The tag a key stores.
    pub open spec fn tag_of(self, k: u64) -> u8 {
        spec_tag_of_hash(self.hash_of(k))
    }

    /// Slot `i` is where a lookup of key `k` finds it: its window appears in
    /// `k`'s probe sequence within the step bound, and no earlier window of
    /// the sequence holds an EMPTY tag.
    pub open spec fn reachable(self, i: int, k: u64) -> bool {
        exists|j: int|
            0 <= j <= self.bucket_mask && #[trigger] probe_pos(
                self.hash_of(k),
                self.aligned_bucket_mask as u64,
                self.bucket_mask as u64,
                j,
            ) <= i < probe_pos(
                self.hash_of(k),
                self.aligned_bucket_mask as u64,
                self.bucket_mask as u64,
                j,
            ) + 8 && prefix_no_empty(
                self.tags@,
                self.hash_of(k),
                self.aligned_bucket_mask as u64,
                self.bucket_mask as u64,
                j,
            )
    }

    /// Well-formedness: power-of-two geometry of at least one group; tags and
    /// slots agree; occupied slots hold distinct keys, carry their key's
    /// fingerprint, and are reachable along their key's probe sequence;
    /// `items` counts the occupied slots.
    pub open spec fn wf(self) -> bool {
        let n = self.num_buckets();
        &&& self.tags@.len() == n
        &&& 8 <= n <= usize::MAX / 4
        &&& is_pow2(n as u64)
        &&& self.bucket_mask as int == n - 1
        &&& self.aligned_bucket_mask as int == n - 8
        &&& slots_distinct(self.slots@)
        &&& self.items as int == count_live(self.slots@) as int
        &&& forall|i: int|
            0 <= i < n ==> (tag_is_full(#[trigger] self.tags@[i]) <==> self.slots@[i] is Some)
        &&& forall|i: int|
            0 <= i < n && #[trigger] self.slots@[i] is Some ==> self.tags@[i] == self.tag_of(
                slot_key(self.slots@, i),
            ) && self.reachable(i, slot_key(self.slots@, i))
    }

    /// Every window of a probe sequence is group-aligned and in bounds.
    proof fn lemma_probe_range(self, h: u64, j: int)
        requires
            8 <= self.num_buckets() <= usize::MAX / 4,
            is_pow2(self.num_buckets() as u64),
            self.bucket_mask as int == self.num_buckets() - 1,
            self.aligned_bucket_mask as int == self.num_buckets() - 8,
            j >= 0,
        ensures
            ({
                let p = probe_pos(
                    h,
                    self.aligned_bucket_mask as u64,
                    self.bucket_mask as u64,
                    j,
                );
                0 <= p <= self.num_buckets() - 8 && p % 8 == 0
            }),
        decreases j,
    {
        let n = self.num_buckets() as u64;
        let ma = self.aligned_bucket_mask as u64;
        let mb = self.bucket_mask as u64;
        if j <= 0 {
            lemma_aligned_window(n, h);
        } else {
            self.lemma_probe_range(h, j - 1);
            crate::probe::lemma_stride_props(n, spec_rotl32(h));
            lemma_stride_step(n, probe_pos(h, ma, mb, j - 1) as u64, spec_stride(h, ma));
        }
    }

    /// Reachability only depends on the tags, the seed and the geometry.
    proof fn lemma_reachable_stable(pre: Self, post: Self)
        requires
            pre.wf(),
            post.tags@ == pre.tags@,
            post.seed == pre.seed,
            post.bucket_mask == pre.bucket_mask,
            post.aligned_bucket_mask == pre.aligned_bucket_mask,
            post.slots@.len() == pre.slots@.len(),
            forall|i: int|
                0 <= i < post.slots@.len() && #[trigger] post.slots@[i] is Some ==> pre.slots@[i]
                    is Some && slot_key(post.slots@, i) == slot_key(pre.slots@, i),
        ensures
            forall|i2: int|
                0 <= i2 < post.num_buckets() && #[trigger] post.slots@[i2] is Some ==> post.tags@[
                    i2] == post.tag_of(slot_key(post.slots@, i2)) && post.reachable(
                    i2,
                    slot_key(post.slots@, i2),
                ),
    {
        assert forall|i2: int|
            0 <= i2 < post.num_buckets() && #[trigger] post.slots@[i2] is Some implies post.tags@[
            i2] == post.tag_of(slot_key(post.slots@, i2)) && post.reachable(
            i2,
            slot_key(post.slots@, i2),
        ) by {
            let k2 = slot_key(post.slots@, i2);
            assert(pre.slots@[i2] is Some);
            assert(pre.reachable(i2, k2));
            let jk = choose|jk: int|
                0 <= jk <= pre.bucket_mask && #[trigger] probe_pos(
                    pre.hash_of(k2),
                    pre.aligned_bucket_mask as u64,
                    pre.bucket_mask as u64,
                    jk,
                ) <= i2 < probe_pos(
                    pre.hash_of(k2),
                    pre.aligned_bucket_mask as u64,
                    pre.bucket_mask as u64,
                    jk,
                ) + 8 && prefix_no_empty(
                    pre.tags@,
                    pre.hash_of(k2),
                    pre.aligned_bucket_mask as u64,
                    pre.bucket_mask as u64,
                    jk,
                );
            assert(probe_pos(
                post.hash_of(k2),
                post.aligned_bucket_mask as u64,
                post.bucket_mask as u64,
                jk,
            ) <= i2);
            assert(prefix_no_empty(
                post.tags@,
                post.hash_of(k2),
                post.aligned_bucket_mask as u64,
                post.bucket_mask as u64,
                jk,
            ));
            assert(post.reachable(i2, k2));
        }
    }

    /// Allocates a table able to hold `capacity` entries at a load factor of
    /// at most seven eighths: the number of slots is the smallest power of
    /// two, not below one group, that is at least `capacity * 8 / 7`.
    pub fn with_capacity(capacity: usize) -> (t: Self)
        requires
            capacity <= usize::MAX / 16,
        ensures
            t.wf(),
            t@ == Map::<u64, V>::empty(),
            t.items == 0,
            t.num_buckets() >= capacity,
            8 * capacity <= 7 * t.num_buckets(),
            forall|i: int| 0 <= i < t.num_buckets() ==> t.tags@[i] == TAG_EMPTY,
    {
        let target = (capacity * 8 + 6) / 7;
        let mut n: usize = GROUP_WIDTH;
        proof {
            crate::probe::lemma_small_pow2();
        }
        while n < target
            invariant
                8 <= n <= usize::MAX / 4,
                target <= usize::MAX / 8,
                is_pow2(n as u64),
            decreases 2 * target - n,
        {
            proof {
                lemma_pow2_double(n as u64);
            }
            n = n + n;
        }
        let mut tags: Vec<u8> = Vec::new();
        let mut slots: Vec<Option<(u64, V)>> = Vec::new();
        let mut i: usize = 0;
        while i < n
            invariant
                i <= n,
                tags@.len() == i,
                slots@.len() == i,
                forall|j: int| 0 <= j < i ==> tags@[j] == TAG_EMPTY,
                forall|j: int| 0 <= j < i ==> slots@[j] is None,
            decreases n - i,
        {
            tags.push(TAG_EMPTY);
            slots.push(None);
            i = i + 1;
        }
        let mut rng = rng_with_seed(123);
        let seed = rng_u64(&mut rng);
        let t = HashTable {
            bucket_mask: n - 1,
            aligned_bucket_mask: n - GROUP_WIDTH,
            tags,
            slots,
            items: 0,
            seed,
        };
        proof {
            lemma_map_all_open(t.slots@);
            assert(forall|i2: int| 0 <= i2 < n ==> !tag_is_full(#[trigger] t.tags@[i2])) by {
                crate::control::lemma_special_tags();
            }
        }
        t
    }

    /// Number of entries in the table: the occupied-slot count, which equals
    /// the number of distinct live keys.
    pub fn len(&self) -> (r: usize)
        requires
            self.wf(),
        ensures
            r as int == count_live(self.slots@) as int,
            r as int == self@.dom().len(),
    {
        proof {
            crate::model::lemma_count_is_dom_len(self.slots@);
        }
        self.items
    }

    /// A probe of `key` that saw no tag-and-key match in windows `0..j` of
    /// its sequence, none of which held an EMPTY tag, and either an EMPTY tag
    /// or the end of the sequence at step `j`, proves the key absent.
    proof fn lemma_absent(self, key: u64, j: int, hole: bool)
        requires
            self.wf(),
            0 <= j,
            forall|j2: int|
                0 <= j2 < j ==> !window_has_key(
                    self.tags@,
                    self.slots@,
                    #[trigger] probe_pos(
                        self.hash_of(key),
                        self.aligned_bucket_mask as u64,
                        self.bucket_mask as u64,
                        j2,
                    ),
                    key,
                    self.tag_of(key),
                ),
            prefix_no_empty(
                self.tags@,
                self.hash_of(key),
                self.aligned_bucket_mask as u64,
                self.bucket_mask as u64,
                j,
            ),
            hole ==> j <= self.bucket_mask && !no_empty_window(
                self.tags@,
                probe_pos(
                    self.hash_of(key),
                    self.aligned_bucket_mask as u64,
                    self.bucket_mask as u64,
                    j,
                ),
            ) && !window_has_key(
                self.tags@,
                self.slots@,
                probe_pos(
                    self.hash_of(key),
                    self.aligned_bucket_mask as u64,
                    self.bucket_mask as u64,
                    j,
                ),
                key,
                self.tag_of(key),
            ),
            !hole ==> j > self.bucket_mask,
        ensures
            !table_contains(self.slots@, key),
            !self@.contains_key(key),
    {
        let h = self.hash_of(key);
        let ma = self.aligned_bucket_mask as u64;
        let mb = self.bucket_mask as u64;
        if table_contains(self.slots@, key) {
            let i = choose|i: int| live_at(self.slots@, i, key);
            assert(self.slots@[i] is Some);
            assert(self.reachable(i, key));
            let jk = choose|jk: int|
                0 <= jk <= self.bucket_mask && #[trigger] probe_pos(h, ma, mb, jk) <= i
                    < probe_pos(h, ma, mb, jk) + 8 && prefix_no_empty(self.tags@, h, ma, mb, jk);
            let p = probe_pos(h, ma, mb, jk);
            assert(window_has_key(self.tags@, self.slots@, p, key, self.tag_of(key))) by {
                assert(self.slots@[p + (i - p)] is Some);
            }
            if jk < j {
                assert(!window_has_key(self.tags@, self.slots@, probe_pos(h, ma, mb, jk), key,
                    self.tag_of(key)));
            } else if hole {
                if jk == j {
                } else {
                    assert(no_empty_window(self.tags@, probe_pos(h, ma, mb, j)));
                }
            }
        }
    }

    /// Looks up the current value bound to `key`, walking the probe sequence
    /// until a match, a window with an EMPTY tag, or the end of the sequence.
    pub fn get(&self, key: &u64) -> (r: Option<&V>)
        requires
            self.wf(),
        ensures
            match r {
                Some(v) => self@.contains_key(*key) && *v == self@[*key],
                None => !self@.contains_key(*key),
            },
    {
        let k = *key;
        match self.probe_find(k) {
            Some(i) => {
                proof {
                    lemma_contains_at(self.slots@, i as int, k);
                }
                match &self.slots[i] {
                    Some(pair) => Some(&pair.1),
                    None => None,
                }
            },
            None => None,
        }
    }

    /// Walks the probe sequence of `key` and returns the slot holding it, or
    /// `None` after proving the key absent.
    fn probe_find(&self, key: u64) -> (r: Option<usize>)
        requires
            self.wf(),
        ensures
            match r {
                Some(i) => i < self.num_buckets() && live_at(self.slots@, i as int, key),
                None => !table_contains(self.slots@, key) && !self@.contains_key(key),
            },
    {
        let h = fold_hash_fast(key, self.seed);
        let t = tag_of_hash(h);
        let ma = self.aligned_bucket_mask as u64;
        let mb = self.bucket_mask as u64;
        proof {
            self.lemma_probe_range(h, 0);
            crate::probe::lemma_stride_props(self.num_buckets() as u64, spec_rotl32(h));
        }
        let stride = (rotl32(h) & ma) | 8;
        let mut pos = (h & ma) as usize;
        let mut step: usize = 0;
        loop
            invariant
                self.wf(),
                h == self.hash_of(key),
                t == self.tag_of(key),
                ma == self.aligned_bucket_mask as u64,
                mb == self.bucket_mask as u64,
                stride == spec_stride(h, ma),
                8 <= stride <= self.num_buckets() as u64,
                step <= self.bucket_mask,
                pos as int == probe_pos(h, ma, mb, step as int),
                pos + 8 <= self.num_buckets(),
                forall|j2: int|
                    0 <= j2 < step ==> !window_has_key(
                        self.tags@,
                        self.slots@,
                        #[trigger] probe_pos(h, ma, mb, j2),
                        key,
                        t,
                    ),
                prefix_no_empty(self.tags@, h, ma, mb, step as int),
            decreases self.bucket_mask - step,
        {
            let g = Group::load(&self.tags, pos);
            let m = g.match_tag(t);
            let mut j: usize = 0;
            while j < 8
                invariant
                    self.wf(),
                    pos + 8 <= self.num_buckets(),
                    j <= 8,
                    forall|j2: int| 0 <= j2 < 8 ==> (m.has(j2) <==> self.tags@[pos + j2] == t),
                    forall|j2: int|
                        #![trigger self.slots@[pos + j2]]
                        0 <= j2 < j ==> !(self.slots@[pos + j2] is Some && slot_key(
                            self.slots@,
                            pos + j2,
                        ) == key && self.tags@[pos + j2] == t),
                decreases 8 - j,
            {
                if m.test(j) {
                    match self.slots[pos + j] {
                        Some(pair) => {
                            if pair.0 == key {
                                return Some(pos + j);
                            }
                        },
                        None => {},
                    }
                }
                j = j + 1;
            }
            proof {
                assert(!window_has_key(self.tags@, self.slots@, pos as int, key, t));
            }
            let me = g.match_empty();
            if me.any_bit_set() {
                proof {
                    self.lemma_absent(key, step as int, true);
                }
                return None;
            }
            proof {
                assert forall|l: int| 0 <= l < 8 implies #[trigger] self.tags@[pos as int + l]
                    != TAG_EMPTY by {
                    assert(!me.has(l));
                }
                assert(no_empty_window(self.tags@, pos as int));
            }
            if step >= self.bucket_mask {
                proof {
                    assert(prefix_no_empty(self.tags@, h, ma, mb, step as int + 1));
                    self.lemma_absent(key, step as int + 1, false);
                }
                return None;
            }
            step = step + 1;
            proof {
                self.lemma_probe_range(h, step as int);
            }
            pos = (((pos as u64) + stride) & mb) as usize;
        }
    }

    /// Writes `(key, value)` into the reusable (EMPTY or DELETED) slot `i`,
    /// reached at step `j` of the key's probe sequence with no EMPTY tag in
    /// any earlier window.
    fn fill_slot(&mut self, i: usize, key: u64, value: V, tag: u8, Ghost(j): Ghost<int>)
        requires
            old(self).wf(),
            i < old(self).num_buckets(),
            !tag_is_full(old(self).tags@[i as int]),
            !table_contains(old(self).slots@, key),
            tag == old(self).tag_of(key),
            0 <= j <= old(self).bucket_mask,
            probe_pos(
                old(self).hash_of(key),
                old(self).aligned_bucket_mask as u64,
                old(self).bucket_mask as u64,
                j,
            ) <= (i as int) < probe_pos(
                old(self).hash_of(key),
                old(self).aligned_bucket_mask as u64,
                old(self).bucket_mask as u64,
                j,
            ) + 8,
            prefix_no_empty(
                old(self).tags@,
                old(self).hash_of(key),
                old(self).aligned_bucket_mask as u64,
                old(self).bucket_mask as u64,
                j,
            ),
        ensures
            final(self).wf(),
            final(self).seed == old(self).seed,
            final(self).bucket_mask == old(self).bucket_mask,
            final(self).aligned_bucket_mask == old(self).aligned_bucket_mask,
            final(self).num_buckets() == old(self).num_buckets(),
            final(self)@ == old(self)@.insert(key, value),
            final(self).items == old(self).items + 1,
            live_at(final(self).slots@, i as int, key),
            slot_val(final(self).slots@, i as int) == value,
    {
        proof {
            lemma_count_le_len(self.slots@);
            crate::control::lemma_tag_of_hash_is_full(self.hash_of(key));
        }
        let ghost s0 = self.slots@;
        let ghost t0 = self.tags@;
        vec_set(&mut self.tags, i, tag);
        vec_set(&mut self.slots, i, Some((key, value)));
        self.items = self.items + 1;
        proof {
            lemma_map_fill(s0, i as int, key, value);
            lemma_no_empty_monotone(t0, i as int, tag);
            let n = self.num_buckets();
            let ma = self.aligned_bucket_mask as u64;
            let mb = self.bucket_mask as u64;
            assert forall|j2: int|
                0 <= j2 < n implies (tag_is_full(#[trigger] self.tags@[j2])
                <==> self.slots@[j2] is Some) by {
                if j2 != i {
                    assert(self.tags@[j2] == t0[j2]);
                    assert(self.slots@[j2] == s0[j2]);
                }
            }
            assert forall|i2: int|
                0 <= i2 < n && #[trigger] self.slots@[i2] is Some implies self.tags@[i2]
                == self.tag_of(slot_key(self.slots@, i2)) && self.reachable(
                i2,
                slot_key(self.slots@, i2),
            ) by {
                let k2 = slot_key(self.slots@, i2);
                let h2 = self.hash_of(k2);
                if i2 != i {
                    assert(self.slots@[i2] == s0[i2]);
                    assert(self.tags@[i2] == t0[i2]);
                    assert(slot_key(self.slots@, i2) == slot_key(s0, i2));
                    assert(old(self).reachable(i2, k2));
                    let jk = choose|jk: int|
                        0 <= jk <= old(self).bucket_mask && #[trigger] probe_pos(h2, ma, mb, jk)
                            <= i2 < probe_pos(h2, ma, mb, jk) + 8 && prefix_no_empty(
                            t0,
                            h2,
                            ma,
                            mb,
                            jk,
                        );
                    assert forall|j2: int| 0 <= j2 < jk implies no_empty_window(
                        self.tags@,
                        #[trigger] probe_pos(h2, ma, mb, j2),
                    ) by {
                        assert(no_empty_window(t0, probe_pos(h2, ma, mb, j2)));
                        self.lemma_probe_range(h2, j2);
                    }
                    assert(prefix_no_empty(self.tags@, h2, ma, mb, jk));
                    assert(self.reachable(i2, k2));
                } else {
                    assert forall|j2: int| 0 <= j2 < j implies no_empty_window(
                        self.tags@,
                        #[trigger] probe_pos(h2, ma, mb, j2),
                    ) by {
                        assert(no_empty_window(t0, probe_pos(h2, ma, mb, j2)));
                        self.lemma_probe_range(h2, j2);
                    }
                    assert(prefix_no_empty(self.tags@, h2, ma, mb, j));
                    assert(self.reachable(i2, k2));
                }
            }
        }
    }

    /// Overwrites the value of the occupied slot `i`, which holds `key`.
    fn update_slot(&mut self, i: usize, key: u64, value: V)
        requires
            old(self).wf(),
            live_at(old(self).slots@, i as int, key),
        ensures
            final(self).wf(),
            final(self).seed == old(self).seed,
            final(self).bucket_mask == old(self).bucket_mask,
            final(self).aligned_bucket_mask == old(self).aligned_bucket_mask,
            final(self).num_buckets() == old(self).num_buckets(),
            final(self)@ == old(self)@.insert(key, value),
            old(self)@.contains_key(key),
            final(self).items == old(self).items,
            live_at(final(self).slots@, i as int, key),
            slot_val(final(self).slots@, i as int) == value,
    {
        proof {
            lemma_contains_at(self.slots@, i as int, key);
        }
        let ghost s0 = self.slots@;
        let ghost pre = *self;
        vec_set(&mut self.slots, i, Some((key, value)));
        proof {
            lemma_map_update_value(s0, i as int, key, value);
            let n = self.num_buckets();
            assert forall|j: int|
                0 <= j < n implies (tag_is_full(#[trigger] self.tags@[j])
                <==> self.slots@[j] is Some) by {
                if j != i {
                    assert(self.slots@[j] == s0[j]);
                }
            }
            assert(forall|j: int|
                0 <= j < n && #[trigger] self.slots@[j] is Some ==> s0[j] is Some && slot_key(
                    self.slots@,
                    j,
                ) == slot_key(s0, j));
            Self::lemma_reachable_stable(pre, *self);
        }
    }

    /// Inserts `key` bound to `value`, overwriting the value if the key is
    /// already present. A fresh key goes into the first reusable slot — an
    /// EMPTY lane or a tombstone — of its probe sequence, committed once a
    /// window with an EMPTY tag confirms the key is absent. On success
    /// returns whether the key was newly installed and the slot index now
    /// holding it; returns `None`, leaving the table unchanged, when the
    /// probe sequence is exhausted.
    pub fn insert(&mut self, key: u64, value: V) -> (r: Option<(bool, usize)>)
        requires
            old(self).wf(),
        ensures
            final(self).wf(),
            final(self).seed == old(self).seed,
            final(self).bucket_mask == old(self).bucket_mask,
            final(self).aligned_bucket_mask == old(self).aligned_bucket_mask,
            final(self).num_buckets() == old(self).num_buckets(),
            match r {
                Some(t) => {
                    &&& final(self)@ == old(self)@.insert(key, value)
                    &&& t.0 == !old(self)@.contains_key(key)
                    &&& live_at(final(self).slots@, t.1 as int, key)
                    &&& slot_val(final(self).slots@, t.1 as int) == value
                    &&& final(self).items as int == old(self).items + (if t.0 {
                        1int
                    } else {
                        0int
                    })
                },
                None => {
                    &&& final(self)@ == old(self)@
                    &&& final(self).items == old(self).items
                    &&& !old(self)@.contains_key(key)
                    &&& final(self).tags@ == old(self).tags@
                    &&& final(self).slots@ == old(self).slots@
                    &&& prefix_no_empty(
                        old(self).tags@,
                        old(self).hash_of(key),
                        old(self).aligned_bucket_mask as u64,
                        old(self).bucket_mask as u64,
                        old(self).bucket_mask + 1,
                    )
                },
            },
            old(self)@.contains_key(key) ==> r is Some && !(r->0).0,
    {
        let h = fold_hash_fast(key, self.seed);
        let t = tag_of_hash(h);
        let ma = self.aligned_bucket_mask as u64;
        let mb = self.bucket_mask as u64;
        proof {
            self.lemma_probe_range(h, 0);
            crate::probe::lemma_stride_props(self.num_buckets() as u64, spec_rotl32(h));
        }
        let stride = (rotl32(h) & ma) | 8;
        let mut pos = (h & ma) as usize;
        let mut step: usize = 0;
        let mut tentative: Option<usize> = None;
        let ghost mut tstep: int = 0;
        loop
            invariant
                *self == *old(self),
                self.wf(),
                h == self.hash_of(key),
                t == self.tag_of(key),
                ma == self.aligned_bucket_mask as u64,
                mb == self.bucket_mask as u64,
                stride == spec_stride(h, ma),
                8 <= stride <= self.num_buckets() as u64,
                step <= self.bucket_mask,
                pos as int == probe_pos(h, ma, mb, step as int),
                pos + 8 <= self.num_buckets(),
                forall|j2: int|
                    0 <= j2 < step ==> !window_has_key(
                        self.tags@,
                        self.slots@,
                        #[trigger] probe_pos(h, ma, mb, j2),
                        key,
                        t,
                    ),
                prefix_no_empty(self.tags@, h, ma, mb, step as int),
                match tentative {
                    Some(idx) => idx < self.num_buckets() && !tag_is_full(self.tags@[idx as int])
                        && 0 <= tstep <= step && probe_pos(h, ma, mb, tstep) <= (idx as int)
                        < probe_pos(h, ma, mb, tstep) + 8 && tstep <= self.bucket_mask,
                    None => true,
                },
            decreases self.bucket_mask - step,
        {
            let g = Group::load(&self.tags, pos);
            let m = g.match_tag(t);
            let mut j: usize = 0;
            while j < 8
                invariant
                    *self == *old(self),
                    self.wf(),
                    h == self.hash_of(key),
                    pos + 8 <= self.num_buckets(),
                    j <= 8,
                    forall|j2: int| 0 <= j2 < 8 ==> (m.has(j2) <==> self.tags@[pos + j2] == t),
                    forall|j2: int|
                        #![trigger self.slots@[pos + j2]]
                        0 <= j2 < j ==> !(self.slots@[pos + j2] is Some && slot_key(
                            self.slots@,
                            pos + j2,
                        ) == key && self.tags@[pos + j2] == t),
                decreases 8 - j,
            {
                if m.test(j) {
                    match self.slots[pos + j] {
                        Some(pair) => {
                            if pair.0 == key {
                                let i = pos + j;
                                self.update_slot(i, key, value);
                                return Some((false, i));
                            }
                        },
                        None => {},
                    }
                }
                j = j + 1;
            }
            proof {
                assert(!window_has_key(self.tags@, self.slots@, pos as int, key, t));
            }
            let med = g.match_empty_or_deleted();
            if tentative.is_none() {
                if let Some(l) = med.lowest_set_bit() {
                    tentative = Some(pos + l);
                    proof {
                        tstep = step as int;
                        assert(!tag_is_full(self.tags@[pos + l]));
                    }
                }
            }
            let me = g.match_empty();
            if me.any_bit_set() {
                proof {
                    self.lemma_absent(key, step as int, true);
                }
                let idx = match tentative {
                    Some(idx) => idx,
                    None => {
                        proof {
                            let le = choose|le: int| me.has(le);
                            assert(self.tags@[pos + le] == TAG_EMPTY);
                            crate::control::lemma_special_tags();
                            assert(med.has(le));
                            assert(false);
                        }
                        return None;
                    },
                };
                self.fill_slot(idx, key, value, t, Ghost(tstep));
                return Some((true, idx));
            }
            proof {
                assert forall|l: int| 0 <= l < 8 implies #[trigger] self.tags@[pos as int + l]
                    != TAG_EMPTY by {
                    assert(!me.has(l));
                }
                assert(no_empty_window(self.tags@, pos as int));
            }
            if step >= self.bucket_mask {
                proof {
                    assert(prefix_no_empty(self.tags@, h, ma, mb, step as int + 1));
                    self.lemma_absent(key, step as int + 1, false);
                }
                return None;
            }
            step = step + 1;
            proof {
                self.lemma_probe_range(h, step as int);
            }
            pos = (((pos as u64) + stride) & mb) as usize;
        }
    }

    /// Clears the occupied slot at `index`, removing its key from the table.
    /// The tag always becomes a DELETED tombstone: probing steps over
    /// tombstones, so no occupant placed further along its sequence is lost.
    /// Writing EMPTY when a whole group of reopenable slots straddles the
    /// index is a permitted optimization this implementation does not take.
    pub fn erase_index(&mut self, index: usize)
        requires
            old(self).wf(),
            index < old(self).num_buckets(),
            old(self).slots@[index as int] is Some,
        ensures
            final(self).wf(),
            final(self).seed == old(self).seed,
            final(self).bucket_mask == old(self).bucket_mask,
            final(self).aligned_bucket_mask == old(self).aligned_bucket_mask,
            final(self).num_buckets() == old(self).num_buckets(),
            final(self)@ == old(self)@.remove(slot_key(old(self).slots@, index as int)),
            !final(self)@.contains_key(slot_key(old(self).slots@, index as int)),
            final(self).items + 1 == old(self).items,
            final(self).tags@ == old(self).tags@.update(index as int, TAG_DELETED),
            final(self).slots@ == old(self).slots@.update(index as int, None),
    {
        let ghost s0 = self.slots@;
        let ghost t0 = self.tags@;
        let ghost k = slot_key(s0, index as int);
        vec_set(&mut self.tags, index, TAG_DELETED);
        vec_set(&mut self.slots, index, None);
        proof {
            lemma_map_clear(s0, index as int, k);
            crate::control::lemma_special_tags();
        }
        self.items = self.items - 1;
        proof {
            lemma_no_empty_monotone(t0, index as int, TAG_DELETED);
            let n = self.num_buckets();
            let ma = self.aligned_bucket_mask as u64;
            let mb = self.bucket_mask as u64;
            assert forall|j: int|
                0 <= j < n implies (tag_is_full(#[trigger] self.tags@[j])
                <==> self.slots@[j] is Some) by {
                if j != index {
                    assert(self.tags@[j] == t0[j]);
                    assert(self.slots@[j] == s0[j]);
                }
            }
            assert forall|i2: int|
                0 <= i2 < n && #[trigger] self.slots@[i2] is Some implies self.tags@[i2]
                == self.tag_of(slot_key(self.slots@, i2)) && self.reachable(
                i2,
                slot_key(self.slots@, i2),
            ) by {
                let k2 = slot_key(self.slots@, i2);
                let h2 = self.hash_of(k2);
                assert(self.slots@[i2] == s0[i2]);
                assert(self.tags@[i2] == t0[i2]);
                assert(slot_key(self.slots@, i2) == slot_key(s0, i2));
                assert(old(self).reachable(i2, k2));
                let jk = choose|jk: int|
                    0 <= jk <= old(self).bucket_mask && #[trigger] probe_pos(h2, ma, mb, jk) <= i2
                        < probe_pos(h2, ma, mb, jk) + 8 && prefix_no_empty(t0, h2, ma, mb, jk);
                assert forall|j2: int| 0 <= j2 < jk implies no_empty_window(
                    self.tags@,
                    #[trigger] probe_pos(h2, ma, mb, j2),
                ) by {
                    assert(no_empty_window(t0, probe_pos(h2, ma, mb, j2)));
                    self.lemma_probe_range(h2, j2);
                }
                assert(prefix_no_empty(self.tags@, h2, ma, mb, jk));
                assert(self.reachable(i2, k2));
            }
            assert(table_map(self.slots@).dom() =~= table_map(s0).remove(k).dom());
        }
    }

    /// Inserts a key and immediately erases it again when it was newly
    /// installed; an already-present key only has its value overwritten. The
    /// entry count is unchanged either way. Returns false, leaving the table
    /// unchanged, when the insertion found no room.
    pub fn insert_and_erase(&mut self, key: u64, value: V) -> (r: bool)
        requires
            old(self).wf(),
        ensures
            final(self).wf(),
            final(self).seed == old(self).seed,
            final(self).bucket_mask == old(self).bucket_mask,
            final(self).num_buckets() == old(self).num_buckets(),
            final(self).items == old(self).items,
            old(self)@.contains_key(key) ==> r && final(self)@ == old(self)@.insert(key, value),
            !old(self)@.contains_key(key) ==> final(self)@ == old(self)@,
    {
        let ghost m0 = self@;
        match self.insert(key, value) {
            Some((inserted, index)) => {
                if inserted {
                    proof {
                        assert(live_at(self.slots@, index as int, key));
                    }
                    self.erase_index(index);
                    proof {
                        assert(self@ =~= m0);
                    }
                }
                true
            },
            None => false,
        }
    }
}

/// Window `p` holds `key` in some occupied lane whose tag is `tag`.
pub open spec fn window_has_key<V>(
    tags: Seq<u8>,
    slots: Seq<Option<(u64, V)>>,
    p: int,
    key: u64,
    tag: u8,
) -> bool {
    exists|l: int|
        #![trigger slots[p + l]]
        0 <= l < 8 && slots[p + l] is Some && slot_key(slots, p + l) == key && tags[p + l] == tag
}

} // verus!
