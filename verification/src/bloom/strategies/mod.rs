//! The hash strategies that a Bloom filter can be built on.

pub mod sfhash;
pub mod siphash;
pub mod xxhash;
