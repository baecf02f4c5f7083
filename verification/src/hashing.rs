//! The hash layer shared by every filter: a 64-bit digest of the key, a
//! seeded multiplicative mix, and a multiply-shift reduction to an index.

use std::collections::hash_map::DefaultHasher;
use std::hash::Hasher;
use vstd::bytes::{spec_u32_to_le_bytes, spec_u64_to_le_bytes, u32_to_le_bytes, u64_to_le_bytes};
use vstd::prelude::*;
use vstd::std_specs::hash::DefaultHasherAdditionalSpecFns;

verus! {

/// The digest of a key whose byte representation is `bytes`: what the
/// standard hasher returns after one write of exactly these bytes.
pub open spec fn digest_spec(bytes: Seq<u8>) -> u64 {
    DefaultHasher::spec_finish(seq![bytes])
}

/// `seed * h` modulo 2^64.
pub open spec fn mix_spec(seed: u64, h: u64) -> u64 {
    ((seed as int * h as int) % 0x1_0000_0000_0000_0000) as u64
}

/// The upper 32 bits of `x`, reduced modulo `range`.
pub open spec fn reduce_spec(x: u64, range: int) -> int {
    (x as int / 0x1_0000_0000) % range
}

/// The index in `[0, range)` that `seed` assigns to a key with digest `d`.
pub open spec fn index_spec(d: u64, seed: u64, range: int) -> int {
    reduce_spec(mix_spec(seed, d), range)
}

/// The seed derived from a raw 64-bit value: the value with its lowest bit set.
pub open spec fn odd_seed_spec(raw: u64) -> u64 {
    raw | 1
}

/// Whether a seed is odd.
pub open spec fn is_odd(seed: u64) -> bool {
    seed % 2 == 1
}

/// A derived seed is odd, hence nonzero.
pub proof fn lemma_odd_seed(raw: u64)
    ensures
        is_odd(odd_seed_spec(raw)),
        odd_seed_spec(raw) != 0,
{
    assert((raw | 1) % 2 == 1) by (bit_vector);
}

/// Digest of a byte string.
pub fn digest_bytes(bytes: &[u8]) -> (d: u64)
    ensures
        d == digest_spec(bytes@),
{
    let mut hasher = DefaultHasher::new();
    hasher.write(bytes);
    hasher.finish()
}

/// `seed * h`, wrapping at 64 bits.
pub fn mix(seed: u64, h: u64) -> (m: u64)
    ensures
        m == mix_spec(seed, h),
{
    seed.wrapping_mul(h)
}

/// Multiply-shift reduction of `x` to `[0, range)`.
pub fn reduce(x: u64, range: usize) -> (i: usize)
    requires
        range > 0,
    ensures
        i == reduce_spec(x, range as int),
        i < range,
{
    let upper: u64 = x >> 32;
    assert(upper == x / 0x1_0000_0000) by (bit_vector)
        requires
            upper == x >> 32,
    ;
    (upper % (range as u64)) as usize
}

/// The index of a digest under a seed.
pub fn index(d: u64, seed: u64, range: usize) -> (i: usize)
    requires
        range > 0,
    ensures
        i == index_spec(d, seed, range as int),
        i < range,
{
    reduce(mix(seed, d), range)
}

/// Makes a seed out of a raw 64-bit value by setting its lowest bit.
pub fn odd_seed(raw: u64) -> (seed: u64)
    ensures
        seed == odd_seed_spec(raw),
        is_odd(seed),
{
    proof {
        lemma_odd_seed(raw);
    }
    raw | 1
}

/// A value that can be a filter key. Only its digest is ever inspected.
pub trait FilterKey {
    /// The bytes that stand for the key.
    spec fn key_bytes(&self) -> Seq<u8>;

    /// The 64-bit digest of the key.
    fn digest(&self) -> (d: u64)
        ensures
            d == digest_spec(self.key_bytes()),
    ;
}

impl FilterKey for u64 {
    open spec fn key_bytes(&self) -> Seq<u8> {
        spec_u64_to_le_bytes(*self)
    }

    fn digest(&self) -> (d: u64) {
        let bytes = u64_to_le_bytes(*self);
        digest_bytes(bytes.as_slice())
    }
}

impl FilterKey for usize {
    open spec fn key_bytes(&self) -> Seq<u8> {
        spec_u64_to_le_bytes(*self as u64)
    }

    fn digest(&self) -> (d: u64) {
        let bytes = u64_to_le_bytes(*self as u64);
        digest_bytes(bytes.as_slice())
    }
}

impl FilterKey for u32 {
    open spec fn key_bytes(&self) -> Seq<u8> {
        spec_u32_to_le_bytes(*self)
    }

    fn digest(&self) -> (d: u64) {
        let bytes = u32_to_le_bytes(*self);
        digest_bytes(bytes.as_slice())
    }
}

impl FilterKey for i32 {
    open spec fn key_bytes(&self) -> Seq<u8> {
        spec_u32_to_le_bytes(*self as u32)
    }

    fn digest(&self) -> (d: u64) {
        let bytes = u32_to_le_bytes(#[verifier::truncate] (*self as u32));
        digest_bytes(bytes.as_slice())
    }
}

impl FilterKey for Vec<u8> {
    open spec fn key_bytes(&self) -> Seq<u8> {
        self@
    }

    fn digest(&self) -> (d: u64) {
        digest_bytes(self.as_slice())
    }
}

/// The digest of the integer key `i`.
pub open spec fn usize_digest(i: usize) -> u64 {
    digest_spec(i.key_bytes())
}

/// The digests of a sequence of keys.
pub open spec fn digests_of<K: FilterKey>(keys: Seq<K>) -> Seq<u64> {
    Seq::new(keys.len(), |k: int| digest_spec(keys[k].key_bytes()))
}

/// Computes the digest of every key, once.
pub fn digest_all<K: FilterKey>(keys: &[K]) -> (digests: Vec<u64>)
    ensures
        digests@ == digests_of(keys@),
{
    let mut digests: Vec<u64> = Vec::new();
    let mut k: usize = 0;
    while k < keys.len()
        invariant
            k <= keys@.len(),
            digests@.len() == k,
            forall|j: int| 0 <= j < k ==> #[trigger] digests@[j] == digest_spec(keys@[j].key_bytes()),
        decreases keys@.len() - k,
    {
        digests.push(keys[k].digest());
        k += 1;
    }
    digests
}

} // verus!
