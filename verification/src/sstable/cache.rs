//! The least-recently-used caches of a reader, kept by the `lru` crate.

use crate::record::iterator::Pair;
use crate::record::kventry::KvData;
use lru::LruCache;
use vstd::prelude::*;

verus! {

#[verifier::external_type_specification]
#[verifier::external_body]
#[verifier::reject_recursive_types(K)]
#[verifier::reject_recursive_types(V)]
#[verifier::reject_recursive_types(S)]
pub struct ExLruCache<K, V, S>(LruCache<K, V, S>);

#[verifier::external_type_specification]
#[verifier::external_body]
pub struct ExDefaultHasher(lru::DefaultHasher);

/// The pairs that a cache holds, the one used last first.
pub uninterp spec fn lru_entries(cache: LruCache<Vec<u8>, KvData>) -> Seq<Pair>;

/// The most pairs that a cache holds at a time, as it was made.
pub uninterp spec fn lru_cap(cache: LruCache<Vec<u8>, KvData>) -> nat;

/// Whether some pair has the key.
pub open spec fn has_key(entries: Seq<Pair>, key: Seq<u8>) -> bool {
    exists|i: int| 0 <= i < entries.len() && (#[trigger] entries[i]).0 == key
}

/// The place of a pair with the key.
pub open spec fn key_index(entries: Seq<Pair>, key: Seq<u8>) -> int {
    choose|i: int| 0 <= i < entries.len() && (#[trigger] entries[i]).0 == key
}

/// The pairs once the one at `i` has been used: it moves to the front.
pub open spec fn touched(entries: Seq<Pair>, i: int) -> Seq<Pair> {
    seq![entries[i]] + entries.remove(i)
}

/// The pairs once a pair has been put: it comes to the front, in place of the
/// pair that had its key or, where the cache is full, of the pair used least
/// recently. A cache that may hold nothing stays empty.
pub open spec fn after_put(entries: Seq<Pair>, cap: nat, pair: Pair) -> Seq<Pair> {
    if has_key(entries, pair.0) {
        seq![pair] + entries.remove(key_index(entries, pair.0))
    } else if cap == 0 {
        entries
    } else if entries.len() >= cap {
        seq![pair] + entries.drop_last()
    } else {
        seq![pair] + entries
    }
}

/// `LruCache::new`: an empty cache for at most `cap` pairs.
#[verifier::external_body]
pub(crate) fn lru_new(cap: usize) -> (cache: LruCache<Vec<u8>, KvData>)
    requires
        cap <= 0x10000,
    ensures
        lru_entries(cache) == Seq::<Pair>::empty(),
        lru_cap(cache) == cap,
{
    LruCache::new(cap)
}

/// `LruCache::get`: a copy of the value under `key`, whose pair becomes the
/// one used last; `None`, and no change, where the cache has no such key.
#[verifier::external_body]
pub(crate) fn lru_get(cache: &mut LruCache<Vec<u8>, KvData>, key: &[u8]) -> (found: Option<KvData>)
    ensures
        lru_cap(*final(cache)) == lru_cap(*old(cache)),
        match found {
            Some(value) => {
                &&& has_key(lru_entries(*old(cache)), key@)
                &&& value@ == lru_entries(*old(cache))[key_index(lru_entries(*old(cache)), key@)].1
                &&& lru_entries(*final(cache)) == touched(
                    lru_entries(*old(cache)),
                    key_index(lru_entries(*old(cache)), key@),
                )
            },
            None => {
                &&& !has_key(lru_entries(*old(cache)), key@)
                &&& lru_entries(*final(cache)) == lru_entries(*old(cache))
            },
        },
{
    cache.get(key).cloned()
}

/// `LruCache::put`: the pair becomes the one used last; it takes the place of
/// the pair with the same key or, in a full cache, of the pair used least
/// recently.
#[verifier::external_body]
pub(crate) fn lru_put(cache: &mut LruCache<Vec<u8>, KvData>, key: Vec<u8>, value: KvData)
    ensures
        lru_cap(*final(cache)) == lru_cap(*old(cache)),
        lru_entries(*final(cache)) == after_put(
            lru_entries(*old(cache)),
            lru_cap(*old(cache)),
            (key@, value@),
        ),
{
    cache.put(key, value);
}

/// Every pair behind a put was there before or is the pair that was put.
pub proof fn lemma_after_put(entries: Seq<Pair>, cap: nat, pair: Pair)
    ensures
        forall|i: int|
            0 <= i < after_put(entries, cap, pair).len() ==> (#[trigger] after_put(
                entries,
                cap,
                pair,
            )[i]) == pair || exists|j: int|
                0 <= j < entries.len() && entries[j] == after_put(entries, cap, pair)[i],
{
    let after = after_put(entries, cap, pair);
    assert forall|i: int| 0 <= i < after.len() implies (#[trigger] after[i]) == pair || exists|
        j: int,
    |
        0 <= j < entries.len() && entries[j] == after[i] by {
        if has_key(entries, pair.0) {
            let at = key_index(entries, pair.0);
            if i > 0 {
                let j = if i - 1 < at { i - 1 } else { i };
                assert(entries.remove(at)[i - 1] == entries[j]);
            }
        } else if cap == 0 {
            assert(entries[i] == after[i]);
        } else if entries.len() >= cap {
            if i > 0 {
                assert(entries.drop_last()[i - 1] == entries[i - 1]);
            }
        } else {
            if i > 0 {
                assert(entries[i - 1] == after[i]);
            }
        }
    }
}

/// Every pair behind a use was there before.
pub proof fn lemma_touched(entries: Seq<Pair>, at: int)
    requires
        0 <= at < entries.len(),
    ensures
        forall|i: int|
            0 <= i < touched(entries, at).len() ==> exists|j: int|
                0 <= j < entries.len() && entries[j] == #[trigger] touched(entries, at)[i],
{
    let after = touched(entries, at);
    assert forall|i: int| 0 <= i < after.len() implies exists|j: int|
        0 <= j < entries.len() && entries[j] == #[trigger] after[i] by {
        if i > 0 {
            let j = if i - 1 < at { i - 1 } else { i };
            assert(entries.remove(at)[i - 1] == entries[j]);
        } else {
            assert(entries[at] == after[0]);
        }
    }
}

} // verus!
