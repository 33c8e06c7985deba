//! Direct key search within a four-key bucket: the control plane of the
//! direct-SIMD table variants, where the key itself serves as the tag and
//! key zero marks an empty lane.

use vstd::prelude::*;

verus! {

/// Number of keys per bucket in the direct-SIMD layouts.
pub const BUCKET_SIZE: usize = 4;

/// Finds the first lane of `bucket` holding `key`, comparing all four keys of
/// the bucket in parallel.
pub fn search(key: u64, bucket: [u64; BUCKET_SIZE]) -> (r: Option<usize>)
    ensures
        match r {
            Some(i) => i < 4 && bucket@[i as int] == key && forall|j: int|
                0 <= j < i ==> bucket@[j] != key,
            None => forall|j: int| 0 <= j < 4 ==> bucket@[j] != key,
        },
{
    let mut i: usize = 0;
    while i < 4
        invariant
            i <= 4,
            forall|j: int| 0 <= j < i ==> bucket@[j] != key,
        decreases 4 - i,
    {
        if bucket[i] == key {
            return Some(i);
        }
        i = i + 1;
    }
    None
}

} // verus!
