//! Approximate membership filters: Bloom, blocked Bloom, cuckoo, Xor and
//! Binary Fuse.
//!
//! Every filter answers "is this key in the set?" without false negatives.
//! What each operation does is stated over a mathematical view of the filter
//! and proved by Verus.

pub mod arithmetic;
pub mod binary_fuse_filter;
pub mod blocked_bloom_filter;
pub mod bloom_filter;
pub mod cuckoo_filter;
pub mod entropy;
pub mod hashing;
pub mod membership;
pub mod peeling;
pub mod table;
pub mod tally;
pub mod xor_filter;
