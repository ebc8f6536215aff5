//! Binary search trees: the nodes, the search, and the walk in key order
//! that the trees built of two-way nodes share.

use crate::memtable::btree::{above, below, lemma_order_laws};
use crate::order::{KeyOrder, Order};
use vstd::prelude::*;

verus! {

/// One node with its pair, the two subtrees under it, and a tag that the
/// kind of tree gives it.
pub(crate) struct Node<K: KeyOrder, V, T> {
    pub(crate) tag: T,
    pub(crate) key: K,
    pub(crate) value: V,
    pub(crate) left: Option<Box<Node<K, V, T>>>,
    pub(crate) right: Option<Box<Node<K, V, T>>>,
}

/// A subtree, or the empty place where one could hang.
pub(crate) type Link<K, V, T> = Option<Box<Node<K, V, T>>>;

/// What a search for `k` finds in the subtree.
pub(crate) open spec fn find<K: KeyOrder, V, T>(t: Link<K, V, T>, k: K::V) -> Option<V>
    decreases t,
{
    match t {
        None => None,
        Some(n) => if K::before(k, n.key@) {
            find(n.left, k)
        } else if K::before(n.key@, k) {
            find(n.right, k)
        } else {
            Some(n.value)
        },
    }
}

/// Every key of the subtree lies between the bounds, every key in a left
/// subtree below the key above it, and every key in a right subtree above.
pub(crate) open spec fn fits<K: KeyOrder, V, T>(t: Link<K, V, T>, lo: Option<K::V>, hi: Option<K::V>) -> bool
    decreases t,
{
    match t {
        None => true,
        Some(n) => {
            &&& above::<K>(lo, n.key@)
            &&& below::<K>(n.key@, hi)
            &&& fits(n.left, lo, Some(n.key@))
            &&& fits(n.right, Some(n.key@), hi)
        },
    }
}

/// What a search finds under a node with the given pair and subtrees.
pub(crate) open spec fn find_under<K: KeyOrder, V, T>(left: Link<K, V, T>, key: K::V, value: V, right: Link<K, V, T>, k: K::V) -> Option<V> {
    if K::before(k, key) {
        find(left, k)
    } else if K::before(key, k) {
        find(right, k)
    } else {
        Some(value)
    }
}

/// Searches the subtree for `key`.
pub(crate) fn search<'a, K: KeyOrder, V, T>(t: &'a Link<K, V, T>, key: &K) -> (found: Option<&'a V>)
    ensures
        match found {
            Some(v) => find(*t, key@) == Some(*v),
            None => find(*t, key@).is_none(),
        },
    decreases *t,
{
    match t {
        None => None,
        Some(n) => match key.compare(&n.key) {
            Order::Less => search(&n.left, key),
            Order::Greater => search(&n.right, key),
            Order::Equal => {
                proof {
                    K::lt_irreflexive(key@);
                }
                Some(&n.value)
            },
        },
    }
}

/// `after` is the subtree once the value that a search for `k` finds, if it
/// finds one, has been set to `v`; nothing else differs.
pub(crate) open spec fn path_changed<K: KeyOrder, V, T>(t: Link<K, V, T>, after: Link<K, V, T>, k: K::V, v: Option<V>) -> bool
    decreases t,
{
    match t {
        None => after is None && v is None,
        Some(n) => match after {
            None => false,
            Some(a) => {
                &&& a.tag == n.tag
                &&& a.key == n.key
                &&& if K::before(k, n.key@) {
                    &&& a.value == n.value
                    &&& a.right == n.right
                    &&& path_changed(n.left, a.left, k, v)
                } else if K::before(n.key@, k) {
                    &&& a.value == n.value
                    &&& a.left == n.left
                    &&& path_changed(n.right, a.right, k, v)
                } else {
                    &&& v == Some(a.value)
                    &&& a.left == n.left
                    &&& a.right == n.right
                }
            },
        },
    }
}

/// A change along the search path of `k` keeps the order of the subtree and
/// changes what a search finds for `k` alone.
pub(crate) proof fn lemma_path_changed<K: KeyOrder, V, T>(
    t: Link<K, V, T>,
    after: Link<K, V, T>,
    k: K::V,
    v: Option<V>,
    lo: Option<K::V>,
    hi: Option<K::V>,
)
    requires
        fits(t, lo, hi),
        path_changed(t, after, k, v),
    ensures
        fits(after, lo, hi),
        v is Some <==> find(t, k) is Some,
        forall|q: K::V|
            #[trigger] find(after, q) == (if q == k && v is Some {
                v
            } else {
                find(t, q)
            }),
    decreases t,
{
    lemma_order_laws::<K>();
    match t {
        None => {},
        Some(n) => {
            let a = after.unwrap();
            if K::before(k, n.key@) {
                lemma_path_changed(n.left, a.left, k, v, lo, Some(n.key@));
            } else if K::before(n.key@, k) {
                lemma_path_changed(n.right, a.right, k, v, Some(n.key@), hi);
            }
            assert forall|q: K::V|
                #[trigger] find(after, q) == (if q == k && v is Some {
                    v
                } else {
                    find(t, q)
                }) by {
                if K::before(k, n.key@) {
                    assert(find(after, q) == find_under(a.left, a.key@, a.value, a.right, q));
                    assert(find(t, q) == find_under(n.left, n.key@, n.value, n.right, q));
                    assert(find(a.left, q) == (if q == k && v is Some { v } else { find(n.left, q) }));
                } else if K::before(n.key@, k) {
                } else {
                }
            }
        },
    }
}

/// Searches the subtree for `key` and hands out its value for change.
pub(crate) fn search_mut<'a, K: KeyOrder, V, T>(t: &'a mut Link<K, V, T>, key: &K) -> (found: Option<&'a mut V>)
    ensures
        match found {
            Some(v) => find(*old(t), key@) == Some(*v) && path_changed(
                *old(t),
                *final(t),
                key@,
                Some(*final(v)),
            ),
            None => find(*old(t), key@).is_none() && path_changed(*old(t), *final(t), key@, None),
        },
    decreases *old(t),
{
    match t {
        None => None,
        Some(n) => match key.compare(&n.key) {
            Order::Less => search_mut(&mut n.left, key),
            Order::Greater => search_mut(&mut n.right, key),
            Order::Equal => {
                proof {
                    K::lt_irreflexive(key@);
                }
                Some(&mut n.value)
            },
        },
    }
}

/// The pairs of the subtree from left to right.
pub(crate) open spec fn walk<K: KeyOrder, V, T>(t: Link<K, V, T>) -> Seq<(K, V)>
    decreases t,
{
    match t {
        None => Seq::empty(),
        Some(n) => walk(n.left).push((n.key, n.value)) + walk(n.right),
    }
}

/// The walk of a subtree in search order lists its pairs in ascending key
/// order, each key between the bounds, and leaves none out.
pub(crate) proof fn lemma_walk<K: KeyOrder, V, T>(t: Link<K, V, T>, lo: Option<K::V>, hi: Option<K::V>)
    requires
        fits(t, lo, hi),
    ensures
        forall|i: int|
            0 <= i < walk(t).len() ==> above::<K>(lo, (#[trigger] walk(t)[i]).0@) && below::<K>(
                walk(t)[i].0@,
                hi,
            ) && find(t, walk(t)[i].0@) == Some(walk(t)[i].1),
        forall|i: int, j: int|
            0 <= i < j < walk(t).len() ==> K::before((#[trigger] walk(t)[i]).0@, (#[trigger] walk(t)[j]).0@),
        forall|k: K::V|
            find(t, k) is Some ==> exists|i: int| 0 <= i < walk(t).len() && (#[trigger] walk(t)[i]).0@ == k,
    decreases t,
{
    lemma_order_laws::<K>();
    match t {
        None => {},
        Some(n) => {
            let l = walk(n.left);
            let r = walk(n.right);
            let w = walk(t);
            lemma_walk(n.left, lo, Some(n.key@));
            lemma_walk(n.right, Some(n.key@), hi);
            assert forall|i: int| 0 <= i < w.len() implies above::<K>(lo, (#[trigger] w[i]).0@)
                && below::<K>(w[i].0@, hi) && find(t, w[i].0@) == Some(w[i].1) by {
                if i < l.len() {
                    assert(w[i] == l[i]);
                } else if i > l.len() {
                    assert(w[i] == r[i - l.len() - 1]);
                }
            }
            assert forall|i: int, j: int| 0 <= i < j < w.len() implies K::before(
                (#[trigger] w[i]).0@,
                (#[trigger] w[j]).0@,
            ) by {
                if i < l.len() {
                    assert(w[i] == l[i]);
                } else if i > l.len() {
                    assert(w[i] == r[i - l.len() - 1]);
                }
                if j < l.len() {
                    assert(w[j] == l[j]);
                } else if j > l.len() {
                    assert(w[j] == r[j - l.len() - 1]);
                }
            }
            assert forall|k: K::V| find(t, k) is Some implies exists|i: int|
                0 <= i < w.len() && (#[trigger] w[i]).0@ == k by {
                assert(find(t, k) == find_under(n.left, n.key@, n.value, n.right, k));
                if K::before(k, n.key@) {
                    let i = choose|i: int| 0 <= i < l.len() && (#[trigger] l[i]).0@ == k;
                    assert(w[i] == l[i]);
                } else if K::before(n.key@, k) {
                    let i = choose|i: int| 0 <= i < r.len() && (#[trigger] r[i]).0@ == k;
                    assert(w[l.len() + 1 + i] == r[i]);
                } else {
                    assert(w[l.len() as int] == (n.key, n.value));
                }
            }
        },
    }
}

/// Appends the pairs of the subtree to `out` from left to right.
pub(crate) fn collect<'a, K: KeyOrder, V, T>(t: &'a Link<K, V, T>, out: &mut Vec<(&'a K, &'a V)>)
    ensures
        final(out)@.len() == old(out)@.len() + walk(*t).len(),
        forall|i: int| 0 <= i < old(out)@.len() ==> final(out)@[i] == old(out)@[i],
        forall|i: int|
            0 <= i < walk(*t).len() ==> *(#[trigger] final(out)@[old(out)@.len() + i]).0 == walk(*t)[i].0
                && *final(out)@[old(out)@.len() + i].1 == walk(*t)[i].1,
    decreases *t,
{
    match t {
        None => {},
        Some(n) => {
            let ghost start = out@.len();
            let ghost l = walk(n.left);
            let ghost r = walk(n.right);
            collect(&n.left, out);
            out.push((&n.key, &n.value));
            let ghost mid = out@;
            collect(&n.right, out);
            proof {
                let w = walk(*t);
                assert forall|i: int| 0 <= i < w.len() implies *(#[trigger] out@[start + i]).0 == w[i].0
                    && *out@[start + i].1 == w[i].1 by {
                    if i < l.len() {
                        assert(out@[start + i] == mid[start + i]);
                        assert(w[i] == l[i]);
                    } else if i == l.len() {
                        assert(out@[start + i] == mid[start + i]);
                    } else {
                        assert(w[i] == r[i - l.len() - 1]);
                        assert(out@[start + i] == out@[mid.len() + (i - l.len() - 1)]);
                    }
                }
            }
        },
    }
}

} // verus!
