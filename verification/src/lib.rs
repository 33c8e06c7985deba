//! A laboratory of specialized hash tables for 64-bit integer keys, sharing a
//! SwissTable-style control plane: one metadata byte per slot, probed a group
//! at a time, with quadratic-probing and cuckoo-displacement table variants.
//!
//! Every table exposes the same surface: `with_capacity`, `insert`, `get`,
//! `erase_index`, `insert_and_erase` and `len`, and every operation carries a
//! contract over a mathematical map view of the table.

pub mod aligned_cuckoo_table;
pub mod aligned_double_hashing_table;
pub mod balancing_cuckoo_table;
pub mod control;
pub mod control64;
pub mod direct_simd_cuckoo_table;
pub mod direct_simd_quadratic_probing;
pub mod laws;
pub mod localized_simd_cuckoo_table;
pub mod model;
pub mod probe;
pub mod rng;
pub mod scalar_cache_line_aligned_table;
pub mod scalar_cuckoo_table;
pub mod scalar_unaligned_table;
pub mod u64_fold_hash_fast;
pub mod uunwrap;
pub mod unaligned_cuckoo_table;

pub use u64_fold_hash_fast::fold_hash_fast;
