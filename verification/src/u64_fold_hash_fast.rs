//! The shared hash mixer: a 64-bit folding function combining a key and a
//! seed, using one 64x128-bit multiply and an XOR of the two halves.

use vstd::prelude::*;

verus! {

/// The odd multiplier used both by the mixer and by the tag scrambler.
pub const FOLD_MUL: u64 = 0x2d35_8dcc_aa6c_78a5;

/// Mathematical definition of the mixer: XOR the seed into the key, widen,
/// multiply by the folding constant, and fold the 128-bit product in half.
pub open spec fn spec_fold_hash(key: u64, seed: u64) -> u64 {
    let mixed = key ^ seed;
    let product = ((mixed as u128) * (FOLD_MUL as u128)) as u128;
    ((product >> 64) as u64) ^ (product as u64)
}

/// Mixes `key` and `seed` into a 64-bit hash.
pub fn fold_hash_fast(key: u64, seed: u64) -> (h: u64)
    ensures
        h == spec_fold_hash(key, seed),
{
    let mixed = key ^ seed;
    proof {
        assert((mixed as u128) * (FOLD_MUL as u128) <= u128::MAX) by (nonlinear_arith)
            requires
                mixed as u128 <= u64::MAX as u128,
        ;
    }
    let product = (mixed as u128) * (FOLD_MUL as u128);
    (#[verifier::truncate] ((product >> 64) as u64)) ^ (#[verifier::truncate] (product as u64))
}

} // verus!
