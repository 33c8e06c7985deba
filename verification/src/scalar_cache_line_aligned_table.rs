//! A dense scalar table probed one cache-line-sized bucket at a time: eight
//! key/value slots per bucket, walked linearly bucket by bucket, starting
//! inside each bucket at a lane picked from the hash's top bits so that
//! probes spread across the line. Key zero is the empty sentinel, bound
//! through a separate side slot. Entries are never erased, so an empty lane
//! always terminates a probe soundly. The table is allocated at twice the
//! usual size to keep probe runs short.

use vstd::prelude::*;

use crate::model::{
    slot_key, slot_val, slots_distinct, live_at, table_contains, table_map, count_live,
    lemma_contains_at, lemma_map_update_value, lemma_map_fill, lemma_map_all_open,
    lemma_count_le_len, vec_set,
};
use crate::probe::{is_pow2, lemma_pow2_double, lemma_masked_props, lemma_mask_wrap_wide};
use crate::rng::{rng_with_seed, rng_u64};
use crate::u64_fold_hash_fast::{spec_fold_hash, fold_hash_fast};

verus! {

/// The flat slot visited at step `s` of a probe run over `nb` eight-lane
/// buckets, starting at bucket `start` and in-bucket lane `off`.
pub open spec fn flat_pos(start: int, off: int, s: int, nb: int) -> int {
    let b = if start + s / 8 < nb {
        start + s / 8
    } else {
        start + s / 8 - nb
    };
    8 * b + (off + s % 8) % 8
}

pub struct U64HashSet<V: Copy> {
    /// One less than the number of buckets.
    pub bucket_mask: usize,
    /// Eight keys per bucket, flattened; zero marks an empty lane.
    pub keys: Vec<u64>,
    /// The entries, one per key lane.
    pub slots: Vec<Option<(u64, V)>>,
    /// The value bound to key zero, which cannot use a lane.
    pub zero_value: Option<V>,
    /// Number of entries, the zero key's included.
    pub items: usize,
    /// Seed of the hash mixer.
    pub seed: u64,
}

impl<V: Copy> View for U64HashSet<V> {
    type V = Map<u64, V>;

    /// The table denotes the map from occupied-lane keys to their values,
    /// with the side slot supplying key zero's binding.
    open spec fn view(&self) -> Map<u64, V> {
        match self.zero_value {
            Some(v) => table_map(self.slots@).insert(0u64, v),
            None => table_map(self.slots@),
        }
    }
}

impl<V: Copy> U64HashSet<V> {
    /// Number of buckets.
    pub open spec fn num_buckets(self) -> int {
        self.bucket_mask as int + 1
    }

    /// Number of key lanes.
    pub open spec fn num_lanes(self) -> int {
        self.slots@.len() as int
    }

    /// The hash of a key under this table's seed.
    pub open spec fn hash_of(self, k: u64) -> u64 {
        spec_fold_hash(k, self.seed)
    }

    /// The bucket where the key's probe run starts.
    pub open spec fn start_of(self, k: u64) -> int {
        (self.hash_of(k) & (self.bucket_mask as u64)) as int
    }

    /// The lane inside each bucket where the key's probe starts.
    pub open spec fn off_of(self, k: u64) -> int {
        (self.hash_of(k) >> 61) as int
    }

    /// Lane `i` is where a lookup of key `k` finds it: it lies on `k`'s probe
    /// run within one lap of the table, and no earlier probe of the run hits
    /// an empty lane.
    pub open spec fn reachable(self, i: int, k: u64) -> bool {
        exists|s: int|
            0 <= s < 8 * self.num_buckets() && #[trigger] flat_pos(
                self.start_of(k),
                self.off_of(k),
                s,
                self.num_buckets(),
            ) == i && (forall|s2: int|
                0 <= s2 < s ==> self.keys@[#[trigger] flat_pos(
                    self.start_of(k),
                    self.off_of(k),
                    s2,
                    self.num_buckets(),
                )] != 0)
    }

    /// Well-formedness: a power-of-two number of eight-lane buckets; the key
    /// array shadows the entries, with zero marking the empty lanes; occupied
    /// lanes hold distinct nonzero keys reachable along their probe runs;
    /// `items` counts the entries, the side slot's included.
    pub open spec fn wf(self) -> bool {
        let nb = self.num_buckets();
        &&& self.slots@.len() == 8 * nb
        &&& self.keys@.len() == 8 * nb
        &&& 1 <= nb <= usize::MAX / 16
        &&& is_pow2(nb as u64)
        &&& slots_distinct(self.slots@)
        &&& self.items as int == count_live(self.slots@) + (if self.zero_value is Some {
            1int
        } else {
            0int
        })
        &&& forall|i: int|
            0 <= i < 8 * nb ==> #[trigger] self.keys@[i] == (if self.slots@[i] is Some {
                slot_key(self.slots@, i)
            } else {
                0u64
            })
        &&& forall|i: int|
            0 <= i < 8 * nb && #[trigger] self.slots@[i] is Some ==> slot_key(self.slots@, i) != 0
                && self.reachable(i, slot_key(self.slots@, i))
    }

    /// Key zero never occupies a lane, so the lane map never contains it.
    proof fn lemma_zero_not_in_lanes(self)
        requires
            self.wf(),
        ensures
            !table_contains(self.slots@, 0u64),
            !table_map(self.slots@).contains_key(0u64),
    {
        if table_contains(self.slots@, 0u64) {
            let i = choose|i: int| live_at(self.slots@, i, 0u64);
            assert(self.slots@[i] is Some);
        }
    }

    /// Reachability only depends on the keys, the seed and the geometry, so
    /// it survives changes to the side slot and the entry count.
    proof fn lemma_reachable_stable(pre: Self, post: Self)
        requires
            pre.wf(),
            post.keys@ == pre.keys@,
            post.slots@ == pre.slots@,
            post.seed == pre.seed,
            post.bucket_mask == pre.bucket_mask,
        ensures
            forall|i2: int|
                0 <= i2 < post.num_lanes() && #[trigger] post.slots@[i2] is Some ==> slot_key(
                    post.slots@,
                    i2,
                ) != 0 && post.reachable(i2, slot_key(post.slots@, i2)),
    {
        assert forall|i2: int|
            0 <= i2 < post.num_lanes() && #[trigger] post.slots@[i2] is Some implies slot_key(
            post.slots@,
            i2,
        ) != 0 && post.reachable(i2, slot_key(post.slots@, i2)) by {
            let k2 = slot_key(post.slots@, i2);
            assert(pre.slots@[i2] is Some);
            assert(pre.reachable(i2, k2));
            let nb = pre.num_buckets();
            let sk = choose|sk: int|
                0 <= sk < 8 * nb && #[trigger] flat_pos(
                    pre.start_of(k2),
                    pre.off_of(k2),
                    sk,
                    nb,
                ) == i2 && (forall|s2: int|
                    0 <= s2 < sk ==> pre.keys@[#[trigger] flat_pos(
                        pre.start_of(k2),
                        pre.off_of(k2),
                        s2,
                        nb,
                    )] != 0);
            assert(flat_pos(post.start_of(k2), post.off_of(k2), sk, post.num_buckets()) == i2);
            assert(forall|s2: int|
                0 <= s2 < sk ==> post.keys@[#[trigger] flat_pos(
                    post.start_of(k2),
                    post.off_of(k2),
                    s2,
                    post.num_buckets(),
                )] != 0);
            assert(post.reachable(i2, k2));
        }
    }

    /// Allocates a table able to hold `capacity` entries: the smallest
    /// power-of-two number of eight-lane buckets covering `capacity * 8 / 7`
    /// lanes, doubled once to keep probe runs short.
    pub fn with_capacity(capacity: usize) -> (t: Self)
        requires
            capacity <= usize::MAX / 64,
        ensures
            t.wf(),
            t@ == Map::<u64, V>::empty(),
            t.items == 0,
            t.num_lanes() >= capacity,
            8 * capacity <= 7 * t.num_lanes(),
            forall|i: int| 0 <= i < t.num_lanes() ==> t.keys@[i] == 0,
    {
        let target = (capacity * 8 + 6) / 7;
        let mut nb: usize = 1;
        proof {
            crate::probe::lemma_small_pow2();
        }
        while 8 * nb < target
            invariant
                1 <= nb <= usize::MAX / 32,
                target <= usize::MAX / 32,
                is_pow2(nb as u64),
            decreases 2 * target - nb,
        {
            proof {
                lemma_pow2_double(nb as u64);
            }
            nb = nb + nb;
        }
        proof {
            lemma_pow2_double(nb as u64);
        }
        let nb = nb + nb;
        let n = 8 * nb;
        let mut keys: Vec<u64> = Vec::new();
        let mut slots: Vec<Option<(u64, V)>> = Vec::new();
        let mut i: usize = 0;
        while i < n
            invariant
                i <= n,
                keys@.len() == i,
                slots@.len() == i,
                forall|j: int| 0 <= j < i ==> keys@[j] == 0,
                forall|j: int| 0 <= j < i ==> slots@[j] is None,
            decreases n - i,
        {
            keys.push(0);
            slots.push(None);
            i = i + 1;
        }
        let mut rng = rng_with_seed(123);
        let seed = rng_u64(&mut rng);
        let t = U64HashSet { bucket_mask: nb - 1, keys, slots, zero_value: None, items: 0, seed };
        proof {
            lemma_map_all_open(t.slots@);
        }
        t
    }

    /// Number of entries in the table: the occupied lanes plus the side
    /// slot, which equals the number of distinct live keys.
    pub fn len(&self) -> (r: usize)
        requires
            self.wf(),
        ensures
            r as int == count_live(self.slots@) + (if self.zero_value is Some {
                1int
            } else {
                0int
            }),
            r as int == self@.dom().len(),
    {
        proof {
            crate::model::lemma_count_is_dom_len(self.slots@);
            self.lemma_zero_not_in_lanes();
            match self.zero_value {
                Some(v) => {
                    assert(self@.dom() =~= table_map(self.slots@).dom().insert(0u64));
                },
                None => {},
            }
        }
        self.items
    }

    /// For a nonzero key the table view agrees with the lane map.
    proof fn lemma_view_nonzero(self, k: u64)
        requires
            k != 0,
        ensures
            self@.contains_key(k) == table_map(self.slots@).contains_key(k),
            table_map(self.slots@).contains_key(k) ==> self@[k] == table_map(self.slots@)[k],
    {
    }

    /// A probe of the nonzero key `key` that saw neither the key nor a zero
    /// in the first `s` probes of its run, and either a zero or the end of
    /// the lap at probe `s`, proves the key absent.
    proof fn lemma_absent(self, key: u64, s: int, hole: bool)
        requires
            self.wf(),
            key != 0,
            0 <= s,
            forall|s2: int|
                0 <= s2 < s ==> self.keys@[#[trigger] flat_pos(
                    self.start_of(key),
                    self.off_of(key),
                    s2,
                    self.num_buckets(),
                )] != key && self.keys@[flat_pos(
                    self.start_of(key),
                    self.off_of(key),
                    s2,
                    self.num_buckets(),
                )] != 0,
            hole ==> s < 8 * self.num_buckets() && self.keys@[flat_pos(
                self.start_of(key),
                self.off_of(key),
                s,
                self.num_buckets(),
            )] == 0,
            !hole ==> s >= 8 * self.num_buckets(),
        ensures
            !table_contains(self.slots@, key),
    {
        let p = self.start_of(key);
        let o = self.off_of(key);
        let nb = self.num_buckets();
        if table_contains(self.slots@, key) {
            let i = choose|i: int| live_at(self.slots@, i, key);
            assert(self.slots@[i] is Some);
            assert(self.keys@[i] == key);
            assert(self.reachable(i, key));
            let sk = choose|sk: int|
                0 <= sk < 8 * nb && #[trigger] flat_pos(p, o, sk, nb) == i && (forall|s2: int|
                    0 <= s2 < sk ==> self.keys@[#[trigger] flat_pos(p, o, s2, nb)] != 0);
            if sk < s {
                assert(self.keys@[flat_pos(p, o, sk, nb)] != key);
            } else if hole {
                if sk == s {
                    assert(self.keys@[flat_pos(p, o, sk, nb)] == 0);
                } else {
                    assert(self.keys@[flat_pos(p, o, s, nb)] != 0);
                }
            }
        }
    }

    /// Computes the flat slot of probe step `s`, split into its bucket step
    /// `jb` and lane step `jl`.
    fn step_pos(&self, start: usize, off: usize, jb: usize, jl: usize) -> (i: usize)
        requires
            self.wf(),
            start < self.num_buckets(),
            off < 8,
            jb < self.num_buckets(),
            jl < 8,
        ensures
            i as int == flat_pos(start as int, off as int, 8 * jb + jl, self.num_buckets()),
            i < self.num_lanes(),
    {
        proof {
            lemma_mask_wrap_wide(self.num_buckets() as u64, start as u64, jb as u64);
            assert((8 * jb + jl) as int / 8 == jb as int && (8 * jb + jl) as int % 8
                == jl as int) by (nonlinear_arith)
                requires
                    0 <= jl < 8,
                    jb >= 0,
            ;
        }
        let b = (((start as u64) + (jb as u64)) & (self.bucket_mask as u64)) as usize;
        8 * b + (off + jl) % 8
    }

    /// Inserts `key` bound to `value`, overwriting the value if the key is
    /// already present. On success returns whether the key was newly
    /// installed and the lane now holding it (the largest machine word for
    /// the zero key). Returns `None`, leaving the table unchanged, when a
    /// full lap of the table finds no room.
    pub fn insert(&mut self, key: u64, value: V) -> (r: Option<(bool, usize)>)
        requires
            old(self).wf(),
        ensures
            final(self).wf(),
            final(self).seed == old(self).seed,
            final(self).bucket_mask == old(self).bucket_mask,
            final(self).num_lanes() == old(self).num_lanes(),
            match r {
                Some(t) => {
                    &&& final(self)@ == old(self)@.insert(key, value)
                    &&& t.0 == !old(self)@.contains_key(key)
                    &&& final(self).items as int == old(self).items + (if t.0 {
                        1int
                    } else {
                        0int
                    })
                    &&& (key == 0 ==> t.1 == usize::MAX && final(self).zero_value == Some(value)
                        && final(self).slots@ == old(self).slots@ && final(self).keys@ == old(
                        self,
                    ).keys@)
                    &&& (key != 0 ==> t.1 < final(self).num_lanes() && live_at(
                        final(self).slots@,
                        t.1 as int,
                        key,
                    ) && slot_val(final(self).slots@, t.1 as int) == value)
                },
                None => {
                    &&& final(self)@ == old(self)@
                    &&& final(self).items == old(self).items
                    &&& !old(self)@.contains_key(key)
                    &&& key != 0
                    &&& final(self).keys@ == old(self).keys@
                    &&& final(self).slots@ == old(self).slots@
                    &&& final(self).zero_value == old(self).zero_value
                    &&& forall|s: int|
                        0 <= s < 8 * old(self).num_buckets() ==> old(self).keys@[#[trigger]
                        flat_pos(
                            old(self).start_of(key),
                            old(self).off_of(key),
                            s,
                            old(self).num_buckets(),
                        )] != 0
                },
            },
            old(self)@.contains_key(key) ==> r is Some && !(r->0).0,
            key == 0 ==> r is Some,
    {
        if key == 0 {
            proof {
                self.lemma_zero_not_in_lanes();
            }
            let inserted = self.zero_value.is_none();
            if inserted {
                proof {
                    lemma_count_le_len(self.slots@);
                }
                self.items = self.items + 1;
            }
            self.zero_value = Some(value);
            proof {
                Self::lemma_reachable_stable(*old(self), *self);
                match old(self).zero_value {
                    Some(w) => {
                        assert(self@ =~= old(self)@.insert(0u64, value));
                    },
                    None => {},
                }
            }
            return Some((inserted, usize::MAX));
        }
        let h = fold_hash_fast(key, self.seed);
        let m64 = self.bucket_mask as u64;
        proof {
            lemma_masked_props(m64, h);
            crate::probe::lemma_top_bits(h);
        }
        let start = (h & m64) as usize;
        let off = (h >> 61) as usize;
        let nb = self.bucket_mask + 1;
        let mut jb: usize = 0;
        while jb < nb
            invariant
                *self == *old(self),
                self.wf(),
                key != 0,
                h == self.hash_of(key),
                m64 == self.bucket_mask as u64,
                nb == self.num_buckets(),
                start as int == self.start_of(key),
                start < self.num_buckets(),
                off as int == self.off_of(key),
                off < 8,
                jb <= nb,
                forall|s2: int|
                    0 <= s2 < 8 * jb ==> self.keys@[#[trigger] flat_pos(
                        start as int,
                        off as int,
                        s2,
                        self.num_buckets(),
                    )] != key && self.keys@[flat_pos(
                        start as int,
                        off as int,
                        s2,
                        self.num_buckets(),
                    )] != 0,
            decreases nb - jb,
        {
            let mut jl: usize = 0;
            while jl < 8
                invariant
                    *self == *old(self),
                    self.wf(),
                    key != 0,
                    h == self.hash_of(key),
                    m64 == self.bucket_mask as u64,
                    nb == self.num_buckets(),
                    start as int == self.start_of(key),
                    start < self.num_buckets(),
                    off as int == self.off_of(key),
                    off < 8,
                    jb < nb,
                    jl <= 8,
                    forall|s2: int|
                        0 <= s2 < 8 * jb + jl ==> self.keys@[#[trigger] flat_pos(
                            start as int,
                            off as int,
                            s2,
                            self.num_buckets(),
                        )] != key && self.keys@[flat_pos(
                            start as int,
                            off as int,
                            s2,
                            self.num_buckets(),
                        )] != 0,
                decreases 8 - jl,
            {
                let pos = self.step_pos(start, off, jb, jl);
                let ghost s = 8 * jb as int + jl as int;
                let k_here = self.keys[pos];
                if k_here == key {
                    proof {
                        assert(self.slots@[pos as int] is Some);
                        assert(slot_key(self.slots@, pos as int) == key);
                        lemma_contains_at(self.slots@, pos as int, key);
                        self.lemma_view_nonzero(key);
                    }
                    self.update_slot(pos, key, value);
                    return Some((false, pos));
                }
                if k_here == 0 {
                    proof {
                        self.lemma_absent(key, s, true);
                        self.lemma_view_nonzero(key);
                        if self.slots@[pos as int] is Some {
                            assert(slot_key(self.slots@, pos as int) != 0);
                        }
                    }
                    self.fill_slot(pos, key, value, Ghost(s));
                    return Some((true, pos));
                }
                proof {
                    assert forall|s2: int|
                        0 <= s2 < 8 * jb + jl + 1 implies self.keys@[#[trigger] flat_pos(
                        start as int,
                        off as int,
                        s2,
                        self.num_buckets(),
                    )] != key && self.keys@[flat_pos(
                        start as int,
                        off as int,
                        s2,
                        self.num_buckets(),
                    )] != 0 by {
                        if s2 == 8 * jb + jl {
                            assert(flat_pos(start as int, off as int, s2, self.num_buckets())
                                == pos as int);
                        }
                    }
                }
                jl = jl + 1;
            }
            jb = jb + 1;
        }
        proof {
            self.lemma_absent(key, 8 * nb as int, false);
            self.lemma_view_nonzero(key);
        }
        None
    }

    /// Filling an empty lane with a fresh key, reached at probe step `s` of
    /// its run with no empty lane earlier, keeps every occupant reachable:
    /// existing runs only lose an empty lane, and the new key's own run is
    /// the recorded one.
    #[verifier::rlimit(100)]
    proof fn lemma_fill_preserves_reachability(pre: Self, post: Self, i: int, key: u64, v: V, s: int)
        requires
            pre.wf(),
            0 <= i < pre.num_lanes(),
            pre.slots@[i] is None,
            key != 0,
            0 <= s < 8 * pre.num_buckets(),
            flat_pos(pre.start_of(key), pre.off_of(key), s, pre.num_buckets()) == i,
            forall|s2: int|
                0 <= s2 < s ==> pre.keys@[#[trigger] flat_pos(
                    pre.start_of(key),
                    pre.off_of(key),
                    s2,
                    pre.num_buckets(),
                )] != 0,
            post.keys@ == pre.keys@.update(i, key),
            post.slots@ == pre.slots@.update(i, Some((key, v))),
            post.seed == pre.seed,
            post.bucket_mask == pre.bucket_mask,
        ensures
            forall|i2: int|
                0 <= i2 < post.num_lanes() && #[trigger] post.slots@[i2] is Some ==> slot_key(
                    post.slots@,
                    i2,
                ) != 0 && post.reachable(i2, slot_key(post.slots@, i2)),
    {
        let nb = post.num_buckets();
        assert(post.num_buckets() == pre.num_buckets());
        assert forall|i2: int|
            0 <= i2 < post.num_lanes() && #[trigger] post.slots@[i2] is Some implies slot_key(
            post.slots@,
            i2,
        ) != 0 && post.reachable(i2, slot_key(post.slots@, i2)) by {
            let k2 = slot_key(post.slots@, i2);
            let p2 = post.start_of(k2);
            let o2 = post.off_of(k2);
            assert(pre.start_of(k2) == p2);
            assert(pre.off_of(k2) == o2);
            let sk = if i2 != i {
                assert(post.slots@[i2] == pre.slots@[i2]);
                assert(slot_key(post.slots@, i2) == slot_key(pre.slots@, i2));
                assert(pre.reachable(i2, k2));
                choose|sk: int|
                    0 <= sk < 8 * pre.num_buckets() && #[trigger] flat_pos(
                        pre.start_of(k2),
                        pre.off_of(k2),
                        sk,
                        pre.num_buckets(),
                    ) == i2 && (forall|s2: int|
                        0 <= s2 < sk ==> pre.keys@[#[trigger] flat_pos(
                            pre.start_of(k2),
                            pre.off_of(k2),
                            s2,
                            pre.num_buckets(),
                        )] != 0)
            } else {
                assert(k2 == key);
                s
            };
            assert(flat_pos(p2, o2, sk, nb) == i2);
            assert forall|s2: int| 0 <= s2 < sk implies post.keys@[#[trigger] flat_pos(
                p2,
                o2,
                s2,
                nb,
            )] != 0 by {
                let fp = flat_pos(p2, o2, s2, nb);
                assert(fp == flat_pos(
                    pre.start_of(k2),
                    pre.off_of(k2),
                    s2,
                    pre.num_buckets(),
                ));
                assert(pre.keys@[fp] != 0);
                if fp != i {
                    assert(post.keys@[fp] == pre.keys@[fp]);
                }
            }
            assert(post.reachable(i2, k2));
        }
    }

    /// Writes `(key, value)` into the empty lane `i`, reached at probe step
    /// `s` of the key's run with no empty lane earlier in the run.
    fn fill_slot(&mut self, i: usize, key: u64, value: V, Ghost(s): Ghost<int>)
        requires
            old(self).wf(),
            i < old(self).num_lanes(),
            old(self).slots@[i as int] is None,
            !table_contains(old(self).slots@, key),
            key != 0,
            0 <= s < 8 * old(self).num_buckets(),
            flat_pos(
                old(self).start_of(key),
                old(self).off_of(key),
                s,
                old(self).num_buckets(),
            ) == i as int,
            forall|s2: int|
                0 <= s2 < s ==> old(self).keys@[#[trigger] flat_pos(
                    old(self).start_of(key),
                    old(self).off_of(key),
                    s2,
                    old(self).num_buckets(),
                )] != 0,
        ensures
            final(self).wf(),
            final(self).seed == old(self).seed,
            final(self).bucket_mask == old(self).bucket_mask,
            final(self).zero_value == old(self).zero_value,
            final(self).num_lanes() == old(self).num_lanes(),
            final(self)@ == old(self)@.insert(key, value),
            final(self).items == old(self).items + 1,
            live_at(final(self).slots@, i as int, key),
            slot_val(final(self).slots@, i as int) == value,
    {
        proof {
            lemma_count_le_len(self.slots@);
        }
        let ghost pre = *self;
        let ghost s0 = self.slots@;
        let ghost k0 = self.keys@;
        vec_set(&mut self.keys, i, key);
        vec_set(&mut self.slots, i, Some((key, value)));
        self.items = self.items + 1;
        proof {
            lemma_map_fill(s0, i as int, key, value);
            let nb = self.num_buckets();
            assert forall|i2: int|
                0 <= i2 < 8 * nb implies #[trigger] self.keys@[i2] == (if self.slots@[i2] is Some {
                slot_key(self.slots@, i2)
            } else {
                0u64
            }) by {
                if i2 != i {
                    assert(self.keys@[i2] == k0[i2]);
                    assert(self.slots@[i2] == s0[i2]);
                }
            }
            Self::lemma_fill_preserves_reachability(pre, *self, i as int, key, value, s);
            match self.zero_value {
                Some(zv) => {
                    assert(self@ =~= old(self)@.insert(key, value));
                },
                None => {},
            }
        }
    }

    /// Overwrites the value of the occupied lane `i`, which holds `key`.
    fn update_slot(&mut self, i: usize, key: u64, value: V)
        requires
            old(self).wf(),
            key != 0,
            live_at(old(self).slots@, i as int, key),
        ensures
            final(self).wf(),
            final(self).seed == old(self).seed,
            final(self).bucket_mask == old(self).bucket_mask,
            final(self).zero_value == old(self).zero_value,
            final(self).num_lanes() == old(self).num_lanes(),
            final(self)@ == old(self)@.insert(key, value),
            old(self)@.contains_key(key),
            final(self).items == old(self).items,
            live_at(final(self).slots@, i as int, key),
            slot_val(final(self).slots@, i as int) == value,
    {
        proof {
            lemma_contains_at(self.slots@, i as int, key);
            self.lemma_view_nonzero(key);
        }
        let ghost s0 = self.slots@;
        let ghost k0 = self.keys@;
        let ghost pre = *self;
        vec_set(&mut self.slots, i, Some((key, value)));
        proof {
            lemma_map_update_value(s0, i as int, key, value);
            let nb = self.num_buckets();
            assert forall|i2: int|
                0 <= i2 < 8 * nb implies #[trigger] self.keys@[i2] == (if self.slots@[i2] is Some {
                slot_key(self.slots@, i2)
            } else {
                0u64
            }) by {
                if i2 != i {
                    assert(self.slots@[i2] == s0[i2]);
                } else {
                    assert(slot_key(self.slots@, i2) == slot_key(s0, i2));
                }
            }
            assert(forall|i2: int|
                0 <= i2 < 8 * nb && #[trigger] self.slots@[i2] is Some ==> pre.slots@[i2] is Some
                    && slot_key(self.slots@, i2) == slot_key(pre.slots@, i2));
            assert forall|i2: int|
                0 <= i2 < 8 * nb && #[trigger] self.slots@[i2] is Some implies slot_key(
                self.slots@,
                i2,
            ) != 0 && self.reachable(i2, slot_key(self.slots@, i2)) by {
                let k2 = slot_key(self.slots@, i2);
                assert(pre.reachable(i2, k2));
                let p2 = self.start_of(k2);
                let o2 = self.off_of(k2);
                let sk = choose|sk: int|
                    0 <= sk < 8 * nb && #[trigger] flat_pos(p2, o2, sk, nb) == i2 && (forall|
                        s2: int,
                    |
                        0 <= s2 < sk ==> pre.keys@[#[trigger] flat_pos(p2, o2, s2, nb)] != 0);
                assert(flat_pos(p2, o2, sk, nb) == i2);
                assert(forall|s2: int|
                    0 <= s2 < sk ==> self.keys@[#[trigger] flat_pos(p2, o2, s2, nb)] != 0);
                assert(self.reachable(i2, k2));
            }
            match self.zero_value {
                Some(zv) => {
                    assert(self@ =~= old(self)@.insert(key, value));
                },
                None => {},
            }
        }
    }

    /// Looks up the current value bound to `key`, walking its probe run until
    /// a match or an empty lane.
    pub fn get(&self, key: &u64) -> (r: Option<&V>)
        requires
            self.wf(),
        ensures
            match r {
                Some(v) => self@.contains_key(*key) && *v == self@[*key],
                None => !self@.contains_key(*key),
            },
    {
        let k = *key;
        if k == 0 {
            proof {
                self.lemma_zero_not_in_lanes();
            }
            return self.zero_value.as_ref();
        }
        let h = fold_hash_fast(k, self.seed);
        let m64 = self.bucket_mask as u64;
        proof {
            lemma_masked_props(m64, h);
            crate::probe::lemma_top_bits(h);
        }
        let start = (h & m64) as usize;
        let off = (h >> 61) as usize;
        let nb = self.bucket_mask + 1;
        let mut jb: usize = 0;
        while jb < nb
            invariant
                self.wf(),
                k != 0,
                k == *key,
                h == self.hash_of(k),
                m64 == self.bucket_mask as u64,
                nb == self.num_buckets(),
                start as int == self.start_of(k),
                start < self.num_buckets(),
                off as int == self.off_of(k),
                off < 8,
                jb <= nb,
                forall|s2: int|
                    0 <= s2 < 8 * jb ==> self.keys@[#[trigger] flat_pos(
                        start as int,
                        off as int,
                        s2,
                        self.num_buckets(),
                    )] != k && self.keys@[flat_pos(
                        start as int,
                        off as int,
                        s2,
                        self.num_buckets(),
                    )] != 0,
            decreases nb - jb,
        {
            let mut jl: usize = 0;
            while jl < 8
                invariant
                    self.wf(),
                    k != 0,
                    k == *key,
                    h == self.hash_of(k),
                    m64 == self.bucket_mask as u64,
                    nb == self.num_buckets(),
                    start as int == self.start_of(k),
                    start < self.num_buckets(),
                    off as int == self.off_of(k),
                    off < 8,
                    jb < nb,
                    jl <= 8,
                    forall|s2: int|
                        0 <= s2 < 8 * jb + jl ==> self.keys@[#[trigger] flat_pos(
                            start as int,
                            off as int,
                            s2,
                            self.num_buckets(),
                        )] != k && self.keys@[flat_pos(
                            start as int,
                            off as int,
                            s2,
                            self.num_buckets(),
                        )] != 0,
                decreases 8 - jl,
            {
                let pos = self.step_pos(start, off, jb, jl);
                let ghost s = 8 * jb as int + jl as int;
                let k_here = self.keys[pos];
                if k_here == k {
                    proof {
                        assert(self.slots@[pos as int] is Some);
                        assert(slot_key(self.slots@, pos as int) == k);
                        lemma_contains_at(self.slots@, pos as int, k);
                        self.lemma_view_nonzero(k);
                    }
                    match &self.slots[pos] {
                        Some(pair) => {
                            return Some(&pair.1);
                        },
                        None => {
                            proof {
                                assert(false);
                            }
                            return None;
                        },
                    }
                }
                if k_here == 0 {
                    proof {
                        self.lemma_absent(k, s, true);
                        self.lemma_view_nonzero(k);
                    }
                    return None;
                }
                proof {
                    assert forall|s2: int|
                        0 <= s2 < 8 * jb + jl + 1 implies self.keys@[#[trigger] flat_pos(
                        start as int,
                        off as int,
                        s2,
                        self.num_buckets(),
                    )] != k && self.keys@[flat_pos(
                        start as int,
                        off as int,
                        s2,
                        self.num_buckets(),
                    )] != 0 by {
                        if s2 == 8 * jb + jl {
                            assert(flat_pos(start as int, off as int, s2, self.num_buckets())
                                == pos as int);
                        }
                    }
                }
                jl = jl + 1;
            }
            jb = jb + 1;
        }
        proof {
            self.lemma_absent(k, 8 * nb as int, false);
            self.lemma_view_nonzero(k);
        }
        None
    }
}

} // verus!
