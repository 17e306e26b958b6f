//! Pluggable hash-function providers.
//!
//! The container routes a key to a bucket by reducing a 64-bit digest modulo
//! the bucket count. The digest comes from an injected provider, so hash
//! quality and seeding stay decoupled from the container's structural logic:
//! a caller may install a reproducible provider for deterministic tests, or
//! keep the default provider, which draws a random seed per instance.

use core::hash::BuildHasher;
use vstd::prelude::*;

verus! {

/// The digest the seeded mixer assigns to `k`: the key xor-ed with the seed,
/// multiplied by an odd constant, modulo `2^64`.
pub open spec fn mix64(seed: u64, k: u64) -> u64 {
    vstd::wrapping::u64_specs::wrapping_mul(k ^ seed, 0x9E37_79B9_7F4A_7C15)
}

/// A hash-function provider: one instance assigns every key a stable 64-bit
/// digest, pinned down by `hash_spec`. Determinism per instance is what lets
/// the container find a key again in the bucket it was routed to.
pub trait HashProvider: Sized {
    /// The digest this provider assigns to `k`.
    spec fn hash_spec(&self, k: u64) -> u64;

    /// Computes the digest of `k`; equal keys get equal digests for as long
    /// as the provider instance is unchanged.
    fn hash(&self, k: &u64) -> (digest: u64)
        ensures
            digest == self.hash_spec(*k),
    ;
}

/// The digest the injected provider assigns to `val`: the one routing
/// digest, recomputed fresh wherever a bucket index is needed.
pub fn make_hash<S: HashProvider>(hash_builder: &S, val: &u64) -> (digest: u64)
    ensures
        digest == hash_builder.hash_spec(*val),
{
    hash_builder.hash(val)
}

/// Relies on std's `RandomState`: a hasher state seeded with fresh
/// randomness digests a fixed token, so nothing is promised of the seed
/// that comes back.
#[verifier::external_body]
fn fresh_seed() -> u64 {
    std::collections::hash_map::RandomState::new().hash_one(0x5eed_u64)
}

/// The default provider: a multiply-xor mixer over a seed drawn at random
/// when the provider is built, so that a fresh container does not expose a
/// routing an adversary could predict.
pub struct DefaultHashBuilder {
    pub seed: u64,
}

impl DefaultHashBuilder {
    /// A provider with a freshly drawn random seed.
    pub fn new() -> DefaultHashBuilder {
        DefaultHashBuilder { seed: fresh_seed() }
    }

    /// A provider with the given seed, for reproducible routing.
    pub fn with_seed(seed: u64) -> (p: DefaultHashBuilder)
        ensures
            p.seed == seed,
    {
        DefaultHashBuilder { seed }
    }
}

impl HashProvider for DefaultHashBuilder {
    open spec fn hash_spec(&self, k: u64) -> u64 {
        mix64(self.seed, k)
    }

    fn hash(&self, k: &u64) -> (digest: u64) {
        (*k ^ self.seed).wrapping_mul(0x9E37_79B9_7F4A_7C15)
    }
}

/// A provider that assigns the same digest to every key. It makes routing
/// fully deterministic for tests and exercises the worst case, where every
/// entry collides into a single bucket and correctness rests on the ordered
/// chain alone.
pub struct ConstantHashBuilder {
    pub digest: u64,
}

impl ConstantHashBuilder {
    /// A provider that answers `digest` for every key.
    pub fn new(digest: u64) -> (p: ConstantHashBuilder)
        ensures
            p.digest == digest,
    {
        ConstantHashBuilder { digest }
    }
}

impl HashProvider for ConstantHashBuilder {
    open spec fn hash_spec(&self, k: u64) -> u64 {
        self.digest
    }

    fn hash(&self, k: &u64) -> (digest: u64) {
        self.digest
    }
}

} // verus!
