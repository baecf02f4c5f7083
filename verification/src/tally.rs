//! What a run of a filter over a range of positive and negative keys counts.

use vstd::prelude::*;

verus! {

/// Number of keys of the standard run of a Bloom filter.
pub const STANDARD_RUN_ITEMS: usize = 996_147;

/// How often the standard run of a static filter draws seeds before it
/// gives up.
pub const STANDARD_RUN_ATTEMPTS: usize = 1000;

/// The keys of a run over `n` keys: the integers from 1 to `n`.
pub open spec fn run_keys(n: nat) -> Seq<u32> {
    Seq::new(n, |j: int| (j + 1) as u32)
}

/// The counts of one run: `items` keys were added and queried, and as many
/// keys that were never added were queried too.
#[derive(Clone, Copy, Debug, PartialEq, Eq)]
pub struct Tally {
    /// Number of keys added.
    pub items: usize,
    /// Storage of the filter in bits.
    pub bits: usize,
    /// Added keys that the filter found.
    pub true_positives: usize,
    /// Keys never added that the filter found all the same.
    pub false_positives: usize,
}

/// The counts of one run of a filter that can delete.
#[derive(Clone, Copy, Debug, PartialEq, Eq)]
pub struct DeletionTally {
    /// Number of keys whose insertion was tried.
    pub items: usize,
    /// Storage of the filter in bits.
    pub bits: usize,
    /// Insertions that succeeded.
    pub inserted: usize,
    /// Keys that the filter found after all were inserted.
    pub true_positives: usize,
    /// Keys never inserted that the filter found all the same.
    pub false_positives: usize,
    /// Keys that the filter still found after all were deleted.
    pub positives_after_delete: usize,
}

} // verus!
