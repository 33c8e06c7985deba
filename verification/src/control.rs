//! The control plane shared by the tag-based table variants: one metadata byte
//! (a tag) per slot, probed a whole group at a time.
//!
//! A tag is EMPTY (0xFF), DELETED (0x80) or FULL (high bit clear, carrying the
//! top seven bits of the slot's hash as a fingerprint). A group is a window of
//! eight consecutive tags; matching a group yields a bitmask with one bit per
//! lane. This is the portable eight-byte back-end: each operation is a short
//! verified loop with an exact per-lane contract.

use vstd::prelude::*;

use crate::u64_fold_hash_fast::FOLD_MUL;

verus! {

/// Tag of a slot that has never held an entry (or was reopened by an erase).
pub const TAG_EMPTY: u8 = 0xFF;

/// Tag of a slot whose entry was erased but which probing must step over.
pub const TAG_DELETED: u8 = 0x80;

/// Number of tags in a group.
pub const GROUP_WIDTH: usize = 8;

/// A tag is FULL exactly when its high bit is clear.
pub open spec fn tag_is_full(t: u8) -> bool {
    t & 0x80 == 0
}

/// The fingerprint stored for a hash: its top seven bits.
pub open spec fn spec_tag_of_hash(h: u64) -> u8 {
    (h >> 57) as u8
}

/// A hash fingerprint always has its high bit clear, so it is a FULL tag and
/// can never collide with EMPTY or DELETED.
pub proof fn lemma_tag_of_hash_is_full(h: u64)
    ensures
        tag_is_full(spec_tag_of_hash(h)),
        spec_tag_of_hash(h) != TAG_EMPTY,
        spec_tag_of_hash(h) != TAG_DELETED,
{
    assert(((h >> 57) as u8) & 0x80 == 0 && ((h >> 57) as u8) != 0xFF && ((h >> 57) as u8)
        != 0x80) by (bit_vector);
}

/// The two special tags have their high bit set, so neither is FULL, and
/// they differ from each other.
pub proof fn lemma_special_tags()
    ensures
        !tag_is_full(TAG_EMPTY),
        !tag_is_full(TAG_DELETED),
        TAG_EMPTY != TAG_DELETED,
{
    assert(0xFFu8 & 0x80 != 0 && 0x80u8 & 0x80 != 0) by (bit_vector);
}

/// Extracts the FULL tag for a hash.
pub fn tag_of_hash(h: u64) -> (t: u8)
    ensures
        t == spec_tag_of_hash(h),
        tag_is_full(t),
{
    proof {
        lemma_tag_of_hash_is_full(h);
    }
    #[verifier::truncate] ((h >> 57) as u8)
}

/// Tests whether a tag is FULL.
pub fn is_full_tag(t: u8) -> (b: bool)
    ensures
        b == tag_is_full(t),
{
    t & 0x80 == 0
}

/// Deterministic diffusion of a tag into a 64-bit value, used by the cuckoo
/// variants to derive a key's partner position from its fingerprint alone:
/// multiply by an odd constant (wrapping) and rotate by half a word.
pub open spec fn spec_scramble_tag(t: u8) -> u64 {
    let m = (((t as u128) * (FOLD_MUL as u128)) as u64) as u64;
    (m << 32) | (m >> 32)
}

/// Computes the tag scramble.
pub fn scramble_tag(t: u8) -> (r: u64)
    ensures
        r == spec_scramble_tag(t),
{
    proof {
        assert((t as u128) * (FOLD_MUL as u128) <= u128::MAX) by (nonlinear_arith)
            requires
                t as u128 <= 0xFF,
        ;
    }
    let m = #[verifier::truncate] (((t as u128) * (FOLD_MUL as u128)) as u64);
    (m << 32) | (m >> 32)
}

/// A set of matching lanes in a group, one bit per lane, stride one.
#[derive(Clone, Copy)]
pub struct BitMask {
    pub bits: u8,
}

/// No bit of the zero byte is set.
proof fn lemma_bits_zero()
    ensures
        forall|k: u8| k < 8 ==> (0u8 >> k) & 1u8 == 0,
{
    assert(forall|k: u8| k < 8 ==> (0u8 >> k) & 1u8 == 0) by (bit_vector);
}

impl BitMask {
    /// Whether lane `j` is in the set.
    pub open spec fn has(self, j: int) -> bool {
        0 <= j < 8 && (self.bits >> (j as u8)) & 1u8 == 1u8
    }

    /// The empty lane set.
    pub fn none() -> (m: BitMask)
        ensures
            forall|j: int| !m.has(j),
    {
        proof {
            lemma_bits_zero();
        }
        BitMask { bits: 0 }
    }

    /// Adds lane `j` to the set.
    pub fn with(self, j: usize) -> (m: BitMask)
        requires
            j < 8,
        ensures
            forall|k: int| #[trigger] m.has(k) <==> (self.has(k) || k == j),
    {
        let r = BitMask { bits: self.bits | (1u8 << (j as u8)) };
        proof {
            let b = self.bits;
            let ju = j as u8;
            assert forall|k: int| #[trigger] r.has(k) <==> (self.has(k) || k == j) by {
                if 0 <= k < 8 {
                    let ku = k as u8;
                    assert(((b | (1u8 << ju)) >> ku) & 1u8 == 1u8 <==> ((b >> ku) & 1u8 == 1u8
                        || ku == ju)) by (bit_vector)
                        requires
                            ju < 8,
                            ku < 8,
                    ;
                }
            }
        }
        r
    }

    /// Tests lane `j`.
    pub fn test(self, j: usize) -> (b: bool)
        requires
            j < 8,
        ensures
            b == self.has(j as int),
    {
        (self.bits >> (j as u8)) & 1u8 == 1u8
    }

    /// The lowest lane in the set, if any.
    pub fn lowest_set_bit(self) -> (r: Option<usize>)
        ensures
            match r {
                Some(j) => j < 8 && self.has(j as int) && forall|k: int|
                    0 <= k < j ==> !self.has(k),
                None => forall|k: int| !self.has(k),
            },
    {
        let mut j: usize = 0;
        while j < 8
            invariant
                j <= 8,
                forall|k: int| 0 <= k < j ==> !self.has(k),
            decreases 8 - j,
        {
            if self.test(j) {
                return Some(j);
            }
            j = j + 1;
        }
        None
    }

    /// Whether any lane is in the set.
    pub fn any_bit_set(self) -> (b: bool)
        ensures
            b == exists|j: int| self.has(j),
    {
        match self.lowest_set_bit() {
            Some(_) => true,
            None => false,
        }
    }

    /// Number of clear lanes below the lowest set lane (eight when none is set).
    pub fn trailing_zeros(self) -> (r: usize)
        ensures
            r <= 8,
            forall|k: int| 0 <= k < r ==> !self.has(k),
            r < 8 ==> self.has(r as int),
    {
        match self.lowest_set_bit() {
            Some(j) => j,
            None => 8,
        }
    }

    /// Number of clear lanes above the highest set lane (eight when none is set).
    pub fn leading_zeros(self) -> (r: usize)
        ensures
            r <= 8,
            forall|k: int| 8 - r <= k < 8 ==> !self.has(k),
            r < 8 ==> self.has(7 - r as int),
    {
        let mut j: usize = 8;
        while j > 0
            invariant
                j <= 8,
                forall|k: int| j <= k < 8 ==> !self.has(k),
            decreases j,
        {
            j = j - 1;
            if self.test(j) {
                return 7 - j;
            }
        }
        8
    }
}

/// A window of eight consecutive tags, loaded once and probed in parallel.
pub struct Group {
    pub lanes: [u8; GROUP_WIDTH],
}

impl Group {
    /// Loads the group starting at `tags[pos]`.
    pub fn load(tags: &Vec<u8>, pos: usize) -> (g: Group)
        requires
            pos + GROUP_WIDTH <= tags.len(),
        ensures
            forall|j: int| 0 <= j < 8 ==> g.lanes@[j] == tags@[pos + j],
    {
        let lanes: [u8; GROUP_WIDTH] = [
            tags[pos],
            tags[pos + 1],
            tags[pos + 2],
            tags[pos + 3],
            tags[pos + 4],
            tags[pos + 5],
            tags[pos + 6],
            tags[pos + 7],
        ];
        Group { lanes }
    }

    /// Reads one lane.
    pub fn lane(&self, j: usize) -> (t: u8)
        requires
            j < 8,
        ensures
            t == self.lanes@[j as int],
    {
        self.lanes[j]
    }

    /// The lanes whose tag equals `t`.
    pub fn match_tag(&self, t: u8) -> (m: BitMask)
        ensures
            forall|j: int| 0 <= j < 8 ==> (#[trigger] m.has(j) <==> self.lanes@[j] == t),
            forall|j: int| m.has(j) ==> 0 <= j < 8,
    {
        let mut m = BitMask::none();
        let mut j: usize = 0;
        while j < 8
            invariant
                j <= 8,
                forall|k: int| #[trigger] m.has(k) ==> 0 <= k < j,
                forall|k: int| 0 <= k < j ==> (#[trigger] m.has(k) <==> self.lanes@[k] == t),
            decreases 8 - j,
        {
            if self.lanes[j] == t {
                m = m.with(j);
            }
            j = j + 1;
        }
        m
    }

    /// The lanes holding an EMPTY tag.
    pub fn match_empty(&self) -> (m: BitMask)
        ensures
            forall|j: int| 0 <= j < 8 ==> (#[trigger] m.has(j) <==> self.lanes@[j] == TAG_EMPTY),
            forall|j: int| m.has(j) ==> 0 <= j < 8,
    {
        self.match_tag(TAG_EMPTY)
    }

    /// The lanes holding an EMPTY or DELETED tag (high bit set).
    pub fn match_empty_or_deleted(&self) -> (m: BitMask)
        ensures
            forall|j: int| 0 <= j < 8 ==> (#[trigger] m.has(j) <==> !tag_is_full(self.lanes@[j])),
            forall|j: int| m.has(j) ==> 0 <= j < 8,
    {
        let mut m = BitMask::none();
        let mut j: usize = 0;
        while j < 8
            invariant
                j <= 8,
                forall|k: int| #[trigger] m.has(k) ==> 0 <= k < j,
                forall|k: int| 0 <= k < j ==> (#[trigger] m.has(k) <==> !tag_is_full(
                    self.lanes@[k],
                )),
            decreases 8 - j,
        {
            if self.lanes[j] & 0x80 != 0 {
                m = m.with(j);
            }
            j = j + 1;
        }
        m
    }

    /// The lanes holding a FULL tag.
    pub fn match_full(&self) -> (m: BitMask)
        ensures
            forall|j: int| 0 <= j < 8 ==> (#[trigger] m.has(j) <==> tag_is_full(self.lanes@[j])),
            forall|j: int| m.has(j) ==> 0 <= j < 8,
    {
        let mut m = BitMask::none();
        let mut j: usize = 0;
        while j < 8
            invariant
                j <= 8,
                forall|k: int| #[trigger] m.has(k) ==> 0 <= k < j,
                forall|k: int| 0 <= k < j ==> (#[trigger] m.has(k) <==> tag_is_full(
                    self.lanes@[k],
                )),
            decreases 8 - j,
        {
            if self.lanes[j] & 0x80 == 0 {
                m = m.with(j);
            }
            j = j + 1;
        }
        m
    }
}

} // verus!
