//! Approximate-membership filters over byte strings.

pub mod fimpl;
pub mod strategies;

use crate::bloom::fimpl::BloomFilterImpl;
use crate::bloom::strategies::sfhash::SfHash64;
use vstd::prelude::*;

verus! {

/// The filter that the engine writes into its tables: 2^24 bits, two slots
/// per key.
pub type BloomFilter = BloomFilterImpl<SfHash64<24, 2>, 24, 2>;

/// The parameters that a filter of `2^ml` bits with `k` slots per key can be
/// built with: the slots of one key must come out of one 64-bit digest, a
/// slot must fit in 32 bits, and the filter holds whole bytes.
pub open spec fn valid_params(ml: usize, k: usize) -> bool {
    &&& 3 <= ml <= 32
    &&& ml * k <= 64
}

/// The low `ml` bits of a digest.
pub open spec fn slot_mask(ml: usize) -> u64 {
    ((1u64 << (ml as u64)) - 1) as u64
}

/// The digest after `i` slots have been taken out of it.
pub open spec fn digest_after(digest: u64, ml: usize, i: int) -> u64
    decreases i,
{
    if i <= 0 {
        digest
    } else {
        digest_after(digest, ml, i - 1) >> (ml as u64)
    }
}

/// The `i`-th slot taken out of a digest: its low `ml` bits once `i` slots
/// have been shifted out.
pub open spec fn slot_of(digest: u64, ml: usize, i: int) -> u32 {
    (digest_after(digest, ml, i) & slot_mask(ml)) as u32
}

/// The `k` slots of `ml` bits each that a digest gives.
pub open spec fn slots_of(digest: u64, ml: usize, k: usize) -> Seq<u32> {
    Seq::new(k as nat, |i: int| slot_of(digest, ml, i))
}

proof fn lemma_slot_bound(x: u64, ml: u64)
    by (bit_vector)
    requires
        3 <= ml <= 32,
    ensures
        1 <= (1u64 << ml) <= 0x1_0000_0000,
        (x & (((1u64 << ml) - 1) as u64)) < (1u64 << ml),
        (((x & (((1u64 << ml) - 1) as u64)) as u32) as u64) == x & (((1u64 << ml) - 1) as u64),
{
}

/// Every slot taken out of a digest is below `2^ml`.
pub proof fn lemma_slot_in_range(digest: u64, ml: usize, i: int)
    requires
        3 <= ml <= 32,
    ensures
        (slot_of(digest, ml, i) as u64) < (1u64 << (ml as u64)),
{
    lemma_slot_bound(digest_after(digest, ml, i), ml as u64);
}

/// Takes `K` slots of `ML` bits each out of a digest, lowest bits first.
pub fn slots_from_digest<const ML: usize, const K: usize>(digest: u64) -> (slots: [u32; K])
    requires
        valid_params(ML, K),
    ensures
        slots@ == slots_of(digest, ML, K),
        forall|i: int| 0 <= i < K ==> (#[trigger] slots@[i] as u64) < (1u64 << (ML as u64)),
{
    let mut finished: u64 = digest;
    let mut result: [u32; K] = [0u32;K];
    proof {
        lemma_slot_bound(0, ML as u64);
    }
    let mask: u64 = (1u64 << (ML as u64)) - 1;
    let mut i: usize = 0;
    while i < K
        invariant
            valid_params(ML, K),
            i <= K,
            mask == slot_mask(ML),
            finished == digest_after(digest, ML, i as int),
            forall|j: int| 0 <= j < i ==> result@[j] == slot_of(digest, ML, j),
        decreases K - i,
    {
        result[i] = (finished & mask) as u32;
        finished = finished >> (ML as u64);
        i += 1;
    }
    proof {
        assert(result@ =~= slots_of(digest, ML, K));
        assert forall|i: int| 0 <= i < K implies (#[trigger] result@[i] as u64) < (1u64 << (
        ML as u64)) by {
            lemma_slot_in_range(digest, ML, i);
        }
    }
    result
}

/// A way to turn a byte string into the `K` slots, each below `2^ML`, that
/// stand for it in a filter of `2^ML` bits.
pub trait HashStrategy<const ML: usize, const K: usize> {
    /// The 64-bit digest of a message.
    spec fn digest(message: Seq<u8>) -> u64;

    /// The slots of a message: those of its digest.
    fn hash(message: &[u8]) -> (slots: [u32; K])
        requires
            valid_params(ML, K),
        ensures
            slots@ == slots_of(Self::digest(message@), ML, K),
    ;
}

} // verus!
