//! The library's source of randomness: three calls into the `rand` crate.
//!
//! Nothing here is proved. Each function states only what holds of every
//! value the generator may return, so everything that is proved about the
//! filters holds whatever the generator does. The generator is that of the
//! current thread; it fails only where the operating system cannot seed it.

use rand::Rng;
use vstd::prelude::*;

verus! {

/// Calls `rand::random::<u64>()`: one 64-bit value from the thread-local
/// generator. Nothing is claimed about the value.
#[verifier::external_body]
pub(crate) fn random_u64() -> (raw: u64) {
    rand::random::<u64>()
}

/// Calls `rand::random::<bool>()`: one coin flip from the thread-local
/// generator. Nothing is claimed about the value.
#[verifier::external_body]
pub(crate) fn random_bool() -> (coin: bool) {
    rand::random::<bool>()
}

/// Calls `Rng::gen_range` on `rand::thread_rng()` with the half-open range
/// `0..bound`. The generator panics on an empty range, which `requires` rules
/// out, and otherwise returns a value inside the range.
#[verifier::external_body]
pub(crate) fn random_below(bound: usize) -> (pick: usize)
    requires
        bound > 0,
    ensures
        pick < bound,
{
    rand::thread_rng().gen_range(0..bound)
}

} // verus!
