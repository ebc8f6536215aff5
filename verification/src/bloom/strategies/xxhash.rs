//! Slots from the 64-bit xxHash with seed zero.

use crate::bloom::{slots_from_digest, valid_params, HashStrategy};
use fasthash::xx::Hasher64;
use fasthash::FastHasher;
use std::hash::Hasher;
use vstd::prelude::*;

verus! {

/// The digest that the 64-bit xxHash with seed zero gives for a byte string.
pub uninterp spec fn xx_digest(message: Seq<u8>) -> u64;

/// `fasthash::xx::Hasher64`: a hasher made by `FastHasher::new`, which seeds
/// it with zero, fed the message once by `Hasher::write` and read by
/// `Hasher::finish`. The three calls reach the streaming xxHash of the C
/// library, whose digest depends on the seed and the bytes alone.
#[verifier::external_body]
fn xxhash64(message: &[u8]) -> (digest: u64)
    ensures
        digest == xx_digest(message@),
{
    let mut hasher = Hasher64::new();
    hasher.write(message);
    hasher.finish()
}

/// The strategy that takes its slots from xxHash.
pub struct XxHash<const ML: usize, const K: usize> {}

impl<const ML: usize, const K: usize> HashStrategy<ML, K> for XxHash<ML, K> {
    open spec fn digest(message: Seq<u8>) -> u64 {
        xx_digest(message)
    }

    fn hash(message: &[u8]) -> (slots: [u32; K]) {
        slots_from_digest::<ML, K>(xxhash64(message))
    }
}

} // verus!
