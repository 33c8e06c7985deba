//! Position arithmetic for probing: facts about power-of-two table sizes, the
//! masks derived from them, and the XOR involution that pairs the two
//! candidate windows of a key in the cuckoo variants.

use vstd::prelude::*;

verus! {

/// `n` is a power of two.
pub open spec fn is_pow2(n: u64) -> bool {
    n > 0 && n & ((n - 1) as u64) == 0
}

/// The small table sizes the allocators start from are powers of two.
pub proof fn lemma_small_pow2()
    ensures
        is_pow2(1),
        is_pow2(4),
        is_pow2(8),
{
    assert(1u64 & 0u64 == 0 && 4u64 & 3u64 == 0 && 8u64 & 7u64 == 0) by (bit_vector);
}

/// The top three bits of a word are a lane index.
pub proof fn lemma_top_bits(h: u64)
    ensures
        h >> 61 < 8,
{
    assert(h >> 61 < 8) by (bit_vector);
}

/// Doubling preserves being a power of two.
pub proof fn lemma_pow2_double(n: u64)
    by (bit_vector)
    requires
        n > 0,
        n & ((n - 1) as u64) == 0,
        n <= 0x7fff_ffff_ffff_ffff,
    ensures
        ((n + n) as u64) & (((n + n) - 1) as u64) == 0,
{
}

/// Masking with `n - 8` yields a group-aligned position inside the table.
pub proof fn lemma_aligned_window(n: u64, x: u64)
    by (bit_vector)
    requires
        n >= 8,
        n & ((n - 1) as u64) == 0,
    ensures
        x & ((n - 8) as u64) <= n - 8,
        (x & ((n - 8) as u64)) % 8 == 0,
        (x & ((n - 8) as u64)) & ((n - 8) as u64) == x & ((n - 8) as u64),
{
}

/// XOR of a group-aligned position with a masked offset stays group-aligned.
pub proof fn lemma_window_xor(n: u64, a: u64, b: u64)
    by (bit_vector)
    requires
        n >= 8,
        n & ((n - 1) as u64) == 0,
        a & ((n - 8) as u64) == a,
    ensures
        (a ^ (b & ((n - 8) as u64))) & ((n - 8) as u64) == a ^ (b & ((n - 8) as u64)),
{
}

/// AND distributes over XOR.
pub proof fn lemma_xor_and_distribute(h: u64, s: u64, m: u64)
    by (bit_vector)
    ensures
        (h ^ s) & m == (h & m) ^ (s & m),
{
}

/// XOR by the same value twice is the identity.
pub proof fn lemma_xor_cancel(a: u64, b: u64)
    by (bit_vector)
    ensures
        (a ^ b) ^ b == a,
{
}

/// Masking with `n - 1` yields a position inside the table.
pub proof fn lemma_mask_in_range(n: u64, x: u64)
    by (bit_vector)
    requires
        n > 0,
        n & ((n - 1) as u64) == 0,
    ensures
        x & ((n - 1) as u64) < n,
{
}

/// A masked value is bounded by the mask and is a fixed point of masking.
pub proof fn lemma_masked_props(m: u64, x: u64)
    by (bit_vector)
    ensures
        x & m <= m,
        (x & m) & m == x & m,
{
}

/// A value below a power of two is a fixed point of masking with one less.
pub proof fn lemma_below_mask_fixed(n: u64, x: u64)
    by (bit_vector)
    requires
        n > 0,
        n & ((n - 1) as u64) == 0,
        x < n,
    ensures
        x & ((n - 1) as u64) == x,
{
}

/// XOR of a masked value into a mask fixed point stays under the mask.
pub proof fn lemma_window_xor_mask(m: u64, a: u64, b: u64)
    by (bit_vector)
    requires
        a & m == a,
    ensures
        (a ^ (b & m)) & m == a ^ (b & m),
        a ^ (b & m) <= m,
{
}

/// Rotation of a 64-bit word by half its width.
pub open spec fn spec_rotl32(x: u64) -> u64 {
    (x << 32) | (x >> 32)
}

/// Computes the half-word rotation.
pub fn rotl32(x: u64) -> (r: u64)
    ensures
        r == spec_rotl32(x),
{
    (x << 32) | (x >> 32)
}

/// Masking the sum of a window start and a lane offset with `n - 1` wraps it
/// around the table.
pub proof fn lemma_mask_wrap(n: u64, p: u64, j: u64)
    by (bit_vector)
    requires
        n >= 8,
        n & ((n - 1) as u64) == 0,
        p < n,
        j < 8,
    ensures
        ((p + j) as u64) & ((n - 1) as u64) == (if p + j < n {
            (p + j) as u64
        } else {
            ((p + j) - n) as u64
        }),
{
}

/// A group-aligned stride derived by masking and forcing the group bit is a
/// nonzero multiple of the group width, no larger than the table.
pub proof fn lemma_stride_props(n: u64, r: u64)
    by (bit_vector)
    requires
        n >= 8,
        n & ((n - 1) as u64) == 0,
    ensures
        ((r & ((n - 8) as u64)) | 8) % 8 == 0,
        8 <= ((r & ((n - 8) as u64)) | 8) <= n,
{
}

/// Advancing a group-aligned position by a group-aligned stride and masking
/// yields a group-aligned position inside the table.
pub proof fn lemma_stride_step(n: u64, p: u64, s: u64)
    by (bit_vector)
    requires
        n >= 8,
        n & ((n - 1) as u64) == 0,
        p % 8 == 0,
        p <= n - 8,
        s % 8 == 0,
        s <= n,
    ensures
        ((p + s) as u64) & ((n - 1) as u64) <= n - 8,
        (((p + s) as u64) & ((n - 1) as u64)) % 8 == 0,
{
}

/// Masking the sum of a position and any offset below the table size with
/// `n - 1` wraps it around the table.
pub proof fn lemma_mask_wrap_wide(n: u64, p: u64, j: u64)
    by (bit_vector)
    requires
        n > 0,
        n & ((n - 1) as u64) == 0,
        p < n,
        j < n,
    ensures
        ((p + j) as u64) & ((n - 1) as u64) == (if p + j < n {
            (p + j) as u64
        } else {
            ((p + j) - n) as u64
        }),
{
}

/// The slot `j` lanes past `p` in a table of `n` slots, with wrap-around:
/// both directions of the correspondence between lane offsets and slots.
pub proof fn lemma_mod_window(p: int, j: int, n: int)
    requires
        0 <= p < n,
        0 <= j < n,
    ensures
        ({
            let s = if p + j < n {
                p + j
            } else {
                p + j - n
            };
            0 <= s < n && (p + j) % n == s && (s - p) % n == j
        }),
{
    let s = if p + j < n {
        p + j
    } else {
        p + j - n
    };
    if p + j < n {
        vstd::arithmetic::div_mod::lemma_fundamental_div_mod_converse_mod(p + j, n, 0, p + j);
        vstd::arithmetic::div_mod::lemma_fundamental_div_mod_converse_mod(s - p, n, 0, j);
    } else {
        vstd::arithmetic::div_mod::lemma_fundamental_div_mod_converse_mod(p + j, n, 1, p + j - n);
        vstd::arithmetic::div_mod::lemma_fundamental_div_mod_converse_mod(s - p, n, -1, j);
    }
}

/// Any slot within eight lanes of `p` (modulo `n`) is reached by its lane
/// offset.
pub proof fn lemma_mod_window_inv(p: int, i: int, n: int)
    requires
        0 <= p < n,
        0 <= i < n,
    ensures
        ({
            let j = (i - p) % n;
            0 <= j < n && i == (if p + j < n {
                p + j
            } else {
                p + j - n
            })
        }),
{
    if i >= p {
        vstd::arithmetic::div_mod::lemma_fundamental_div_mod_converse_mod(i - p, n, 0, i - p);
    } else {
        vstd::arithmetic::div_mod::lemma_fundamental_div_mod_converse_mod(i - p, n, -1, i - p + n);
    }
}

/// Two group-aligned windows containing a common position coincide.
pub proof fn lemma_block_unique(p: int, q: int, i: int)
    requires
        p % 8 == 0,
        q % 8 == 0,
        p <= i < p + 8,
        q <= i < q + 8,
    ensures
        p == q,
{
    assert(p == q) by (nonlinear_arith)
        requires
            p % 8 == 0,
            q % 8 == 0,
            p <= i < p + 8,
            q <= i < q + 8,
    ;
}

} // verus!
