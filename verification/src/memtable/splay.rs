//! A splay tree: a binary search tree that moves every key that is asked
//! for or written to the root, so that keys in frequent use stay near it.

use crate::memtable::binary::{
    find, find_under, fits, lemma_path_changed, path_changed, search, search_mut, Link, Node,
};
use crate::memtable::btree::{above, below, lemma_order_laws};
use crate::memtable::MemTable;
use crate::order::{KeyOrder, Order};
use vstd::prelude::*;

verus! {

/// The key at the root of the subtree.
spec fn root_key<K: KeyOrder, V>(t: Link<K, V, ()>) -> Option<K::V> {
    match t {
        None => None,
        Some(n) => Some(n.key@),
    }
}

/// A node over two subtrees.
fn join<K: KeyOrder, V>(left: Link<K, V, ()>, key: K, value: V, right: Link<K, V, ()>) -> (t: Link<K, V, ()>)
    ensures
        t == Some(Box::new(Node { tag: (), key, value, left, right })),
{
    Some(Box::new(Node { tag: (), key, value, left, right }))
}

/// Moves `key` to the root of the subtree by rotations, two levels at a
/// time: where the key lies on the same side twice, the upper of the two
/// links is turned first, else the lower. A subtree without the key keeps
/// its pairs, and may change its shape along the path of the search.
fn splay<K: KeyOrder, V>(
    t: Link<K, V, ()>,
    key: &K,
    Ghost(lo): Ghost<Option<K::V>>,
    Ghost(hi): Ghost<Option<K::V>>,
) -> (out: Link<K, V, ()>)
    requires
        fits(t, lo, hi),
    ensures
        fits(out, lo, hi),
        forall|k: K::V| #[trigger] find(out, k) == find(t, k),
        find(t, key@) is Some ==> root_key(out) == Some(key@),
    decreases t,
{
    proof {
        lemma_order_laws::<K>();
        reveal_with_fuel(find, 4);
        reveal_with_fuel(fits, 4);
    }
    let ghost whole = t;
    let Some(top) = t else {
        return None;
    };
    let Node { tag: _, key: gk, value: gv, left: gl, right: gr } = *top;
    match key.compare(&gk) {
        Order::Equal => join(gl, gk, gv, gr),
        Order::Less => {
            let Some(child) = gl else {
                return join(None, gk, gv, gr);
            };
            let Node { tag: _, key: qk, value: qv, left: ql, right: qr } = *child;
            match key.compare(&qk) {
                Order::Equal => {
                    let upper = join(qr, gk, gv, gr);
                    join(ql, qk, qv, upper)
                },
                Order::Less => {
                    let ghost part = ql;
                    let inner = splay(ql, key, Ghost(lo), Ghost(Some(qk@)));
                    let ghost turned = inner;
                    let out = match inner {
                        None => {
                            let upper = join(qr, gk, gv, gr);
                            join(None, qk, qv, upper)
                        },
                        Some(x) => {
                            let Node { tag: _, key: xk, value: xv, left: xl, right: xr } = *x;
                            let upper = join(qr, gk, gv, gr);
                            let middle = join(xr, qk, qv, upper);
                            join(xl, xk, xv, middle)
                        },
                    };
                    proof {
                        assert forall|k: K::V| #[trigger] find(out, k) == find(whole, k) by {
                            assert(find(turned, k) == find(part, k));
                        }
                    }
                    out
                },
                Order::Greater => {
                    let ghost part = qr;
                    let inner = splay(qr, key, Ghost(Some(qk@)), Ghost(Some(gk@)));
                    let ghost turned = inner;
                    let out = match inner {
                        None => {
                            let upper = join(None, gk, gv, gr);
                            join(ql, qk, qv, upper)
                        },
                        Some(x) => {
                            let Node { tag: _, key: xk, value: xv, left: xl, right: xr } = *x;
                            let lower = join(ql, qk, qv, xl);
                            let upper = join(xr, gk, gv, gr);
                            join(lower, xk, xv, upper)
                        },
                    };
                    proof {
                        assert forall|k: K::V| #[trigger] find(out, k) == find(whole, k) by {
                            assert(find(turned, k) == find(part, k));
                        }
                    }
                    out
                },
            }
        },
        Order::Greater => {
            let Some(child) = gr else {
                return join(gl, gk, gv, None);
            };
            let Node { tag: _, key: qk, value: qv, left: ql, right: qr } = *child;
            match key.compare(&qk) {
                Order::Equal => {
                    let lower = join(gl, gk, gv, ql);
                    join(lower, qk, qv, qr)
                },
                Order::Greater => {
                    let ghost part = qr;
                    let inner = splay(qr, key, Ghost(Some(qk@)), Ghost(hi));
                    let ghost turned = inner;
                    let out = match inner {
                        None => {
                            let lower = join(gl, gk, gv, ql);
                            join(lower, qk, qv, None)
                        },
                        Some(x) => {
                            let Node { tag: _, key: xk, value: xv, left: xl, right: xr } = *x;
                            let lower = join(gl, gk, gv, ql);
                            let middle = join(lower, qk, qv, xl);
                            join(middle, xk, xv, xr)
                        },
                    };
                    proof {
                        assert forall|k: K::V| #[trigger] find(out, k) == find(whole, k) by {
                            assert(find(turned, k) == find(part, k));
                        }
                    }
                    out
                },
                Order::Less => {
                    let ghost part = ql;
                    let inner = splay(ql, key, Ghost(Some(gk@)), Ghost(Some(qk@)));
                    let ghost turned = inner;
                    let out = match inner {
                        None => {
                            let lower = join(gl, gk, gv, None);
                            join(lower, qk, qv, qr)
                        },
                        Some(x) => {
                            let Node { tag: _, key: xk, value: xv, left: xl, right: xr } = *x;
                            let lower = join(gl, gk, gv, xl);
                            let upper = join(xr, qk, qv, qr);
                            join(lower, xk, xv, upper)
                        },
                    };
                    proof {
                        assert forall|k: K::V| #[trigger] find(out, k) == find(whole, k) by {
                            assert(find(turned, k) == find(part, k));
                        }
                    }
                    out
                },
            }
        },
    }
}

/// Puts the pair where a search for its key ends, and says whether the key
/// was there.
fn place<K: KeyOrder, V>(
    t: &mut Link<K, V, ()>,
    key: K,
    value: V,
    Ghost(lo): Ghost<Option<K::V>>,
    Ghost(hi): Ghost<Option<K::V>>,
) -> (replaced: bool)
    requires
        fits(*old(t), lo, hi),
        above::<K>(lo, key@),
        below::<K>(key@, hi),
    ensures
        fits(*final(t), lo, hi),
        replaced == find(*old(t), key@).is_some(),
        forall|k: K::V|
            #[trigger] find(*final(t), k) == (if k == key@ {
                Some(value)
            } else {
                find(*old(t), k)
            }),
    decreases *old(t),
{
    proof {
        lemma_order_laws::<K>();
        reveal_with_fuel(find, 2);
        reveal_with_fuel(fits, 2);
    }
    match t {
        None => {
            *t = join(None, key, value, None);
            false
        },
        Some(n) => {
            let ghost was = *n;
            let replaced = match key.compare(&n.key) {
                Order::Less => place(&mut n.left, key, value, Ghost(lo), Ghost(Some(n.key@))),
                Order::Greater => place(&mut n.right, key, value, Ghost(Some(n.key@)), Ghost(hi)),
                Order::Equal => {
                    n.value = value;
                    true
                },
            };
            proof {
                assert forall|k: K::V|
                    #[trigger] find(Some(*n), k) == (if k == key@ {
                        Some(value)
                    } else {
                        find(Some(was), k)
                    }) by {
                    assert(find(Some(*n), k) == find_under(n.left, n.key@, n.value, n.right, k));
                    assert(find(Some(was), k) == find_under(was.left, was.key@, was.value, was.right, k));
                }
            }
            replaced
        },
    }
}

/// A splay tree.
pub struct SplayTree<K: KeyOrder, V> {
    root: Option<Box<Node<K, V, ()>>>,
}

impl<K: KeyOrder, V> View for SplayTree<K, V> {
    type V = Map<K::V, V>;

    /// The pairs that the tree holds.
    closed spec fn view(&self) -> Map<K::V, V> {
        Map::new(|k: K::V| find(self.root, k).is_some(), |k: K::V| find(self.root, k).unwrap())
    }
}

impl<K: KeyOrder, V> SplayTree<K, V> {
    /// The invariant of the tree: the keys are in search order.
    pub closed spec fn well_formed(&self) -> bool {
        fits(self.root, None, None)
    }

    /// The key at the root, if the tree holds a pair.
    pub closed spec fn top(&self) -> Option<K::V> {
        root_key(self.root)
    }

    /// A tree without pairs.
    pub fn new() -> (tree: Self)
        ensures
            tree.well_formed(),
            tree.top().is_none(),
            tree@ == Map::<K::V, V>::empty(),
    {
        let tree = Self { root: None };
        assert(tree@ =~= Map::<K::V, V>::empty());
        tree
    }

    /// The value under `key`, or `None` where the tree holds no such key.
    /// The tree stays as it is.
    pub fn lookup(&self, key: &K) -> (found: Option<&V>)
        ensures
            match found {
                Some(value) => self@.contains_key(key@) && *value == self@[key@],
                None => !self@.contains_key(key@),
            },
    {
        search(&self.root, key)
    }

    /// The value under `key`, open to change, with the key moved to the
    /// root; or `None` where the tree holds no such key, and then it stays as
    /// it is.
    fn access(&mut self, key: &K) -> (found: Option<&mut V>)
        requires
            old(self).well_formed(),
        ensures
            final(self).well_formed(),
            match found {
                Some(value) => {
                    &&& old(self)@.contains_key(key@)
                    &&& *value == old(self)@[key@]
                    &&& final(self)@ == old(self)@.insert(key@, *final(value))
                    &&& final(self).top() == Some(key@)
                },
                None => {
                    &&& !old(self)@.contains_key(key@)
                    &&& final(self)@ == old(self)@
                    &&& final(self).top() == old(self).top()
                },
            },
    {
        if search(&self.root, key).is_none() {
            return None;
        }
        let before = self.root.take();
        self.root = splay(before, key, Ghost(None), Ghost(None));
        let ghost root = self.root;
        proof {
            assert(self@ =~= old(self)@);
            assert forall|after: Link<K, V, ()>, v: Option<V>| #[trigger]
                path_changed(root, after, key@, v) implies {
                &&& fits(after, None, None)
                &&& root_key(after) == root_key(root)
                &&& forall|q: K::V|
                    #[trigger] find(after, q) == (if q == key@ && v is Some {
                        v
                    } else {
                        find(root, q)
                    })
            } by {
                lemma_path_changed(root, after, key@, v, None, None);
            }
        }
        search_mut(&mut self.root, key)
    }

    /// Sets the value under `key` and moves the key to the root; `Some(())`
    /// where the key was there.
    fn insert_wrap(&mut self, key: K, value: V) -> (replaced: Option<()>)
        requires
            old(self).well_formed(),
        ensures
            final(self).well_formed(),
            final(self)@ == old(self)@.insert(key@, value),
            final(self).top() == Some(key@),
            replaced.is_some() <==> old(self)@.contains_key(key@),
    {
        let probe = key.duplicate();
        let replaced = place(&mut self.root, key, value, Ghost(None), Ghost(None));
        let placed = self.root.take();
        self.root = splay(placed, &probe, Ghost(None), Ghost(None));
        proof {
            assert(self@ =~= old(self)@.insert(key@, value));
        }
        if replaced {
            Some(())
        } else {
            None
        }
    }
}

impl<K: KeyOrder, V> MemTable<K, V> for SplayTree<K, V> {
    open spec fn wf(&self) -> bool {
        self.well_formed()
    }

    open spec fn contents(&self) -> Map<K::V, V> {
        self@
    }

    fn get(&mut self, key: &K) -> (found: Option<&mut V>)
        ensures
            found is Some ==> final(self).top() == Some(key@),
            found is None ==> final(self).top() == old(self).top(),
    {
        self.access(key)
    }

    fn insert(&mut self, key: K, value: V) -> (replaced: Option<()>)
        ensures
            final(self).top() == Some(key@),
    {
        self.insert_wrap(key, value)
    }

    /// Nothing is removed: a pair leaves a table by a tombstone written
    /// over it.
    fn remove(&mut self, _key: &K) -> (removed: Result<(), ()>)
        ensures
            removed.is_err(),
    {
        Err(())
    }
}

} // verus!
