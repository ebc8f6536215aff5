//! In-memory ordered maps that buffer recent writes.

mod binary;
pub mod btree;
pub mod rbtree;
pub mod splay;

use crate::order::KeyOrder;
use vstd::prelude::*;

verus! {

/// An ordered map from keys to values, seen as a map from the keys' views.
pub trait MemTable<K: KeyOrder, V> {
    /// The invariant of the table.
    spec fn wf(&self) -> bool;

    /// What the table holds.
    spec fn contents(&self) -> Map<K::V, V>;

    /// The value under `key`, open to change, or `None` where the table holds
    /// no such key.
    fn get(&mut self, key: &K) -> (found: Option<&mut V>)
        requires
            old(self).wf(),
        ensures
            final(self).wf(),
            match found {
                Some(value) => {
                    &&& old(self).contents().contains_key(key@)
                    &&& *value == old(self).contents()[key@]
                    &&& final(self).contents() == old(self).contents().insert(key@, *final(value))
                },
                None => {
                    &&& !old(self).contents().contains_key(key@)
                    &&& final(self).contents() == old(self).contents()
                },
            },
    ;

    /// Sets the value under `key`. Returns `Some(())` where the table held
    /// the key before, and `None` where the pair is new.
    fn insert(&mut self, key: K, value: V) -> (replaced: Option<()>)
        requires
            old(self).wf(),
        ensures
            final(self).wf(),
            final(self).contents() == old(self).contents().insert(key@, value),
            replaced.is_some() <==> old(self).contents().contains_key(key@),
    ;

    /// Removes `key`. Returns `Ok(())` where the key left the table and
    /// `Err(())` where the table stays as it was.
    fn remove(&mut self, key: &K) -> (removed: Result<(), ()>)
        requires
            old(self).wf(),
        ensures
            final(self).wf(),
            removed.is_ok() ==> final(self).contents() == old(self).contents().remove(key@),
            removed.is_err() ==> final(self).contents() == old(self).contents(),
    ;
}

/// The map that `m` becomes once the pairs have been inserted one after the
/// other.
pub open spec fn after_inserts<A, B>(m: Map<A, B>, pairs: Seq<(A, B)>) -> Map<A, B>
    decreases pairs.len(),
{
    if pairs.len() == 0 {
        m
    } else {
        after_inserts(m, pairs.drop_last()).insert(pairs.last().0, pairs.last().1)
    }
}

/// A table gives back what was put into it: after a series of insertions,
/// the table holds under each key the value that was inserted under it last.
pub proof fn lemma_round_trip<A, B>(m: Map<A, B>, pairs: Seq<(A, B)>, i: int)
    requires
        0 <= i < pairs.len(),
        forall|j: int| i < j < pairs.len() ==> pairs[j].0 != pairs[i].0,
    ensures
        after_inserts(m, pairs).contains_key(pairs[i].0),
        after_inserts(m, pairs)[pairs[i].0] == pairs[i].1,
    decreases pairs.len(),
{
    if i < pairs.len() - 1 {
        let front = pairs.drop_last();
        assert(front[i] == pairs[i]);
        assert forall|j: int| i < j < front.len() implies front[j].0 != front[i].0 by {
            assert(front[j] == pairs[j]);
        }
        lemma_round_trip(m, front, i);
    }
}

} // verus!
