//! Slots from the standard library's SipHash-2-4 with an all-zero key.

use crate::bloom::{slots_from_digest, valid_params, HashStrategy};
#[allow(deprecated)]
use std::hash::SipHasher;
use std::hash::Hasher;
use vstd::prelude::*;

verus! {

#[verifier::external_type_specification]
#[verifier::external_body]
#[allow(deprecated)]
pub struct ExSipHasher(SipHasher);

/// The bytes that a hasher has been fed, in the order in which they came.
pub uninterp spec fn sip_written(hasher: SipHasher) -> Seq<u8>;

/// The digest that SipHash-2-4 with an all-zero key gives for a byte string.
pub uninterp spec fn sip_digest(message: Seq<u8>) -> u64;

/// `SipHasher::new`: a hasher with an all-zero key that has been fed nothing.
#[verifier::external_body]
#[allow(deprecated)]
fn sip_new() -> (hasher: SipHasher)
    ensures
        sip_written(hasher) == Seq::<u8>::empty(),
{
    SipHasher::new()
}

/// `Hasher::write` of `SipHasher`: the bytes are appended to what the hasher
/// has been fed.
#[verifier::external_body]
#[allow(deprecated)]
fn sip_write(hasher: &mut SipHasher, bytes: &[u8])
    ensures
        sip_written(*final(hasher)) == sip_written(*old(hasher)) + bytes@,
{
    hasher.write(bytes)
}

/// `Hasher::finish` of `SipHasher`: the digest of what the hasher has been
/// fed.
#[verifier::external_body]
#[allow(deprecated)]
fn sip_finish(hasher: &SipHasher) -> (digest: u64)
    ensures
        digest == sip_digest(sip_written(*hasher)),
{
    hasher.finish()
}

/// The SipHash digest of a message.
pub fn siphash64(message: &[u8]) -> (digest: u64)
    ensures
        digest == sip_digest(message@),
{
    let mut hasher = sip_new();
    sip_write(&mut hasher, message);
    assert(Seq::<u8>::empty() + message@ =~= message@);
    sip_finish(&hasher)
}

/// The strategy that takes its slots from SipHash.
pub struct SipHash<const ML: usize, const K: usize> {}

impl<const ML: usize, const K: usize> HashStrategy<ML, K> for SipHash<ML, K> {
    open spec fn digest(message: Seq<u8>) -> u64 {
        sip_digest(message)
    }

    fn hash(message: &[u8]) -> (slots: [u32; K]) {
        slots_from_digest::<ML, K>(siphash64(message))
    }
}

} // verus!
