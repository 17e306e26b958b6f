//! A resizable associative container whose buckets hold self-balancing
//! ordered trees instead of linked collision chains. Lookups inside a bucket
//! stay logarithmic even when every key collides, so the container degrades
//! gracefully under adversarial hashing.
//!
//! The bucket-management engine — hash routing, growth and shrink of the
//! bucket array, redistribution on resize, and the entry-count bookkeeping
//! that drives the triggers — lives in [`map`] and carries full functional
//! contracts. Hash-function providers live in [`hash`].

pub mod hash;
pub mod map;
