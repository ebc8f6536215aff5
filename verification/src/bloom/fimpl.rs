//! The filter itself: a fixed array of bits and the two operations on it.

use crate::bloom::{slots_of, valid_params, HashStrategy};
use std::marker::PhantomData;
use vstd::prelude::*;

verus! {

/// Whether bit `position` is set in a bit array stored lowest bit first.
pub open spec fn bit_at(bytes: Seq<u8>, position: u32) -> bool {
    bytes[(position >> 3) as int] & (1u8 << ((position & 0x07) as u8)) != 0
}

/// Whether every one of the given slots is set.
pub open spec fn all_set(bytes: Seq<u8>, slots: Seq<u32>) -> bool {
    forall|i: int| 0 <= i < slots.len() ==> bit_at(bytes, #[trigger] slots[i])
}

/// What an insertion of a key with the given slots does to a bit array of
/// `2^ml` bits: the slots are set, and no other bit changes.
pub open spec fn after_insert(before: Seq<u8>, after: Seq<u8>, slots: Seq<u32>, ml: usize) -> bool {
    &&& after.len() == before.len()
    &&& forall|p: u32|
        (p as u64) < (1u64 << (ml as u64)) ==> (#[trigger] bit_at(after, p) <==> bit_at(before, p)
            || slots.contains(p))
}

/// The bit array with bit `position` set.
pub open spec fn with_bit(bytes: Seq<u8>, position: u32) -> Seq<u8> {
    bytes.update(
        (position >> 3) as int,
        bytes[(position >> 3) as int] | (1u8 << ((position & 0x07) as u8)),
    )
}

/// The bit array with the first `upto` of the given slots set.
pub open spec fn with_slots(bytes: Seq<u8>, slots: Seq<u32>, upto: int) -> Seq<u8>
    decreases upto,
{
    if upto <= 0 {
        bytes
    } else {
        with_bit(with_slots(bytes, slots, upto - 1), slots[upto - 1])
    }
}

/// Number of bytes of a filter of `2^ml` bits.
pub open spec fn filter_size(ml: usize) -> int {
    (1u64 << ((ml - 3) as u64)) as int
}

proof fn lemma_filter_size(ml: u64)
    by (bit_vector)
    requires
        3 <= ml <= 32,
    ensures
        1 <= (1u64 << ((ml - 3) as u64)) <= 0x2000_0000,
{
}

proof fn lemma_position(position: u32, ml: u64)
    by (bit_vector)
    requires
        3 <= ml <= 32,
        (position as u64) < (1u64 << ml),
    ensures
        ((position >> 3) as u64) < (1u64 << ((ml - 3) as u64)),
        (position & 0x07) < 8,
{
}

proof fn lemma_set_bit(x: u8, a: u32, b: u32)
    by (bit_vector)
    ensures
        (x | (1u8 << ((a & 0x07) as u8))) & (1u8 << ((a & 0x07) as u8)) != 0,
        x & (1u8 << ((b & 0x07) as u8)) != 0 ==> (x | (1u8 << ((a & 0x07) as u8))) & (1u8 << ((b
            & 0x07) as u8)) != 0,
        (a & 0x07) != (b & 0x07) && x & (1u8 << ((b & 0x07) as u8)) == 0 ==> (x | (1u8 << ((a
            & 0x07) as u8))) & (1u8 << ((b & 0x07) as u8)) == 0,
        a != b && (a >> 3) == (b >> 3) ==> (a & 0x07) != (b & 0x07),
{
}

/// A Bloom filter of `2^ML` bits that sets `K` bits per key, which the hash
/// strategy `Hasher` picks.
pub struct BloomFilterImpl<Hasher, const ML: usize, const K: usize> where
    Hasher: HashStrategy<ML, K>,
 {
    data: Vec<u8>,
    _marker: PhantomData<Hasher>,
}

impl<Hasher, const ML: usize, const K: usize> View for BloomFilterImpl<Hasher, ML, K> where
    Hasher: HashStrategy<ML, K>,
 {
    type V = Seq<u8>;

    /// The bytes of the bit array.
    closed spec fn view(&self) -> Seq<u8> {
        self.data@
    }
}

impl<Hasher, const ML: usize, const K: usize> BloomFilterImpl<Hasher, ML, K> where
    Hasher: HashStrategy<ML, K>,
 {
    /// The filter holds exactly `2^ML` bits.
    pub open spec fn wf(&self) -> bool {
        &&& valid_params(ML, K)
        &&& self@.len() == filter_size(ML)
    }

    /// The slots that stand for a message.
    pub open spec fn slots(message: Seq<u8>) -> Seq<u32> {
        slots_of(Hasher::digest(message), ML, K)
    }

    /// Whether bit `position` is set.
    pub open spec fn has_bit(&self, position: u32) -> bool {
        bit_at(self@, position)
    }

    /// The bit array of a filter once `message` has been inserted.
    pub open spec fn inserted(bytes: Seq<u8>, message: Seq<u8>) -> Seq<u8> {
        with_slots(bytes, Self::slots(message), K as int)
    }

    /// Whether the filter may hold the message: all of its slots are set.
    pub open spec fn may_contain(&self, message: Seq<u8>) -> bool {
        all_set(self@, Self::slots(message))
    }

    /// A filter with no bit set.
    pub fn new() -> (filter: Self)
        requires
            valid_params(ML, K),
        ensures
            filter.wf(),
            forall|i: int| 0 <= i < filter@.len() ==> filter@[i] == 0,
    {
        proof {
            lemma_filter_size(ML as u64);
        }
        let size: usize = (1u64 << ((ML - 3) as u64)) as usize;
        let mut data: Vec<u8> = Vec::new();
        data.resize(size, 0u8);
        Self { data, _marker: PhantomData }
    }

    /// The filter whose bit array is a copy of `region`.
    pub fn from_slice(region: &[u8]) -> (filter: Self)
        requires
            valid_params(ML, K),
            region@.len() == filter_size(ML),
        ensures
            filter.wf(),
            filter@ == region@,
    {
        Self { data: vstd::slice::slice_to_vec(region), _marker: PhantomData }
    }

    /// Sets the slots of `message`. Every bit that was set stays set, and no
    /// other bit changes.
    pub fn insert(&mut self, message: &[u8])
        requires
            old(self).wf(),
        ensures
            final(self).wf(),
            final(self)@ == Self::inserted(old(self)@, message@),
            final(self).may_contain(message@),
            after_insert(old(self)@, final(self)@, Self::slots(message@), ML),
    {
        let positions: [u32; K] = Hasher::hash(message);
        let ghost slots = Self::slots(message@);
        let mut i: usize = 0;
        while i < K
            invariant
                self.wf(),
                i <= K,
                positions@ == slots,
                slots == slots_of(Hasher::digest(message@), ML, K),
                self.data@ == with_slots(old(self).data@, slots, i as int),
                forall|p: u32|
                    (p as u64) < (1u64 << (ML as u64)) ==> (#[trigger] self.has_bit(p) <==> old(
                        self,
                    ).has_bit(p) || exists|j: int| 0 <= j < i && slots[j] == p),
            decreases K - i,
        {
            let position: u32 = positions[i];
            proof {
                crate::bloom::lemma_slot_in_range(Hasher::digest(message@), ML, i as int);
                lemma_position(position, ML as u64);
            }
            let mask: u8 = 1u8 << ((position & 0x07) as u8);
            let at: usize = (position >> 3) as usize;
            let ghost before = self.data@;
            let ghost prev = *self;
            let byte: u8 = self.data[at];
            self.data.set(at, byte | mask);
            proof {
                assert forall|p: u32| (p as u64) < (1u64 << (ML as u64)) implies (
                #[trigger] self.has_bit(p) <==> old(self).has_bit(p) || exists|j: int|
                    0 <= j < i + 1 && slots[j] == p) by {
                    lemma_position(p, ML as u64);
                    lemma_set_bit(before[at as int], position, p);
                    assert(prev.has_bit(p) <==> old(self).has_bit(p) || exists|j: int|
                        0 <= j < i && slots[j] == p);
                    assert(prev.has_bit(p) == bit_at(before, p));
                    if p == position {
                        assert(slots[i as int] == p);
                    } else if (p >> 3) == (position >> 3) {
                        assert(self.has_bit(p) == prev.has_bit(p));
                    } else {
                        assert(self.data@[(p >> 3) as int] == before[(p >> 3) as int]);
                        assert(self.has_bit(p) == prev.has_bit(p));
                    }
                }
            }
            i += 1;
        }
        proof {
            assert forall|j: int| 0 <= j < slots.len() implies bit_at(
                self@,
                #[trigger] slots[j],
            ) by {
                crate::bloom::lemma_slot_in_range(Hasher::digest(message@), ML, j);
                assert(self.has_bit(slots[j]));
            }
            assert forall|p: u32| (p as u64) < (1u64 << (ML as u64)) implies (#[trigger] bit_at(
                self@,
                p,
            ) <==> bit_at(old(self)@, p) || slots.contains(p)) by {
                assert(self.has_bit(p) <==> old(self).has_bit(p) || exists|j: int|
                    0 <= j < K && slots[j] == p);
            }
        }
    }

    /// Whether the filter may hold `message`. `false` is definite; `true` may
    /// be a false positive.
    pub fn query(&self, message: &[u8]) -> (found: bool)
        requires
            self.wf(),
        ensures
            found == self.may_contain(message@),
    {
        let positions: [u32; K] = Hasher::hash(message);
        let mut i: usize = 0;
        while i < K
            invariant
                self.wf(),
                i <= K,
                positions@ == Self::slots(message@),
                forall|j: int| 0 <= j < i ==> bit_at(self@, #[trigger] positions@[j]),
            decreases K - i,
        {
            let position: u32 = positions[i];
            proof {
                crate::bloom::lemma_slot_in_range(Hasher::digest(message@), ML, i as int);
                lemma_position(position, ML as u64);
            }
            let mask: u8 = 1u8 << ((position & 0x07) as u8);
            if self.data[(position >> 3) as usize] & mask == 0u8 {
                return false;
            }
            i += 1;
        }
        true
    }

    /// Size of the bit array in bytes.
    pub fn size(&self) -> (n: usize)
        requires
            self.wf(),
        ensures
            n == filter_size(ML),
            n == self@.len(),
    {
        Self::default_size()
    }

    /// Size in bytes of the bit array of every filter of this type.
    pub fn default_size() -> (n: usize)
        requires
            valid_params(ML, K),
        ensures
            n == filter_size(ML),
    {
        proof {
            lemma_filter_size(ML as u64);
        }
        (1u64 << ((ML - 3) as u64)) as usize
    }

    /// The bit array, as it is written to a file.
    pub fn as_bytes(&self) -> (bytes: &[u8])
        ensures
            bytes@ == self@,
    {
        self.data.as_slice()
    }
}

/// Setting slots keeps the length of the bit array, sets the slots, and
/// changes no other bit.
pub proof fn lemma_with_slots(bytes: Seq<u8>, slots: Seq<u32>, upto: int, ml: usize)
    requires
        3 <= ml <= 32,
        bytes.len() == filter_size(ml),
        0 <= upto <= slots.len(),
        forall|i: int| 0 <= i < slots.len() ==> (#[trigger] slots[i] as u64) < (1u64 << (ml as u64)),
    ensures
        with_slots(bytes, slots, upto).len() == bytes.len(),
        forall|p: u32|
            (p as u64) < (1u64 << (ml as u64)) ==> (#[trigger] bit_at(
                with_slots(bytes, slots, upto),
                p,
            ) <==> bit_at(bytes, p) || exists|j: int| 0 <= j < upto && slots[j] == p),
    decreases upto,
{
    if upto > 0 {
        lemma_with_slots(bytes, slots, upto - 1, ml);
        let before = with_slots(bytes, slots, upto - 1);
        let after = with_slots(bytes, slots, upto);
        let position = slots[upto - 1];
        lemma_position(position, ml as u64);
        assert forall|p: u32| (p as u64) < (1u64 << (ml as u64)) implies (#[trigger] bit_at(
            after,
            p,
        ) <==> bit_at(bytes, p) || exists|j: int| 0 <= j < upto && slots[j] == p) by {
            lemma_position(p, ml as u64);
            lemma_set_bit(before[(position >> 3) as int], position, p);
            assert(bit_at(before, p) <==> bit_at(bytes, p) || exists|j: int|
                0 <= j < upto - 1 && slots[j] == p);
            if p == position {
                assert(slots[upto - 1] == p);
            }
        }
    }
}

/// What an insertion does to the bit array of a filter: it keeps the length,
/// sets the slots of the message, and changes no other bit.
pub proof fn lemma_inserted<Hasher, const ML: usize, const K: usize>(
    bytes: Seq<u8>,
    message: Seq<u8>,
) where Hasher: HashStrategy<ML, K>
    requires
        valid_params(ML, K),
        bytes.len() == filter_size(ML),
    ensures
        BloomFilterImpl::<Hasher, ML, K>::inserted(bytes, message).len() == bytes.len(),
        after_insert(
            bytes,
            BloomFilterImpl::<Hasher, ML, K>::inserted(bytes, message),
            slots_of(Hasher::digest(message), ML, K),
            ML,
        ),
        all_set(
            BloomFilterImpl::<Hasher, ML, K>::inserted(bytes, message),
            slots_of(Hasher::digest(message), ML, K),
        ),
{
    let slots = slots_of(Hasher::digest(message), ML, K);
    let after = BloomFilterImpl::<Hasher, ML, K>::inserted(bytes, message);
    assert forall|i: int| 0 <= i < slots.len() implies (#[trigger] slots[i] as u64) < (1u64 << (
    ML as u64)) by {
        crate::bloom::lemma_slot_in_range(Hasher::digest(message), ML, i);
    }
    lemma_with_slots(bytes, slots, K as int, ML);
    assert forall|p: u32| (p as u64) < (1u64 << (ML as u64)) implies (#[trigger] bit_at(after, p)
        <==> bit_at(bytes, p) || slots.contains(p)) by {
        if slots.contains(p) {
            let j = choose|j: int| 0 <= j < slots.len() && slots[j] == p;
            assert(0 <= j < K && slots[j] == p);
        }
    }
    assert forall|i: int| 0 <= i < slots.len() implies bit_at(after, #[trigger] slots[i]) by {
        assert(slots.contains(slots[i]));
    }
}

/// Slots that are set stay set through a later insertion.
pub proof fn lemma_stays_after_insert(before: Seq<u8>, after: Seq<u8>, added: Seq<u32>, ml: usize, slots: Seq<u32>)
    requires
        after_insert(before, after, added, ml),
        all_set(before, slots),
        forall|i: int| 0 <= i < slots.len() ==> (#[trigger] slots[i] as u64) < (1u64 << (ml as u64)),
    ensures
        all_set(after, slots),
{
    assert forall|i: int| 0 <= i < slots.len() implies bit_at(after, #[trigger] slots[i]) by {
        assert(bit_at(before, slots[i]));
    }
}

/// A message that was inserted is found by every later query: the filter
/// gives no false negative. `states` are the bit arrays that a filter goes
/// through while `messages` are inserted one after the other.
pub proof fn lemma_no_false_negatives<Hasher, const ML: usize, const K: usize>(
    states: Seq<Seq<u8>>,
    messages: Seq<Seq<u8>>,
    i: int,
) where Hasher: HashStrategy<ML, K>
    requires
        valid_params(ML, K),
        states.len() == messages.len() + 1,
        forall|t: int|
            0 <= t < messages.len() ==> after_insert(
                #[trigger] states[t],
                states[t + 1],
                slots_of(Hasher::digest(messages[t]), ML, K),
                ML,
            ),
        0 <= i < messages.len(),
    ensures
        all_set(states.last(), slots_of(Hasher::digest(messages[i]), ML, K)),
{
    lemma_stays_set::<Hasher, ML, K>(states, messages, i, messages.len() as int);
}

proof fn lemma_stays_set<Hasher, const ML: usize, const K: usize>(
    states: Seq<Seq<u8>>,
    messages: Seq<Seq<u8>>,
    i: int,
    upto: int,
) where Hasher: HashStrategy<ML, K>
    requires
        valid_params(ML, K),
        states.len() == messages.len() + 1,
        forall|t: int|
            0 <= t < messages.len() ==> after_insert(
                #[trigger] states[t],
                states[t + 1],
                slots_of(Hasher::digest(messages[t]), ML, K),
                ML,
            ),
        0 <= i < upto <= messages.len(),
    ensures
        all_set(states[upto], slots_of(Hasher::digest(messages[i]), ML, K)),
    decreases upto,
{
    let slots = slots_of(Hasher::digest(messages[i]), ML, K);
    if upto > i + 1 {
        lemma_stays_set::<Hasher, ML, K>(states, messages, i, upto - 1);
    }
    assert(after_insert(
        states[upto - 1],
        states[upto],
        slots_of(Hasher::digest(messages[upto - 1]), ML, K),
        ML,
    ));
    assert forall|j: int| 0 <= j < slots.len() implies bit_at(states[upto], #[trigger] slots[j]) by {
        crate::bloom::lemma_slot_in_range(Hasher::digest(messages[i]), ML, j);
        if upto == i + 1 {
            assert(slots.contains(slots[j]));
        } else {
            assert(bit_at(states[upto - 1], slots[j]));
        }
    }
}

} // verus!
