//! A red-black tree: a binary search tree whose nodes are red or black, in
//! which no red node has a red child and every path from the root down to
//! an empty place passes the same number of black nodes.

use crate::memtable::binary::{
    collect, find, find_under, fits, lemma_path_changed, lemma_walk, path_changed, search, search_mut, walk,
    Link, Node,
};
use crate::memtable::btree::{above, below, lemma_order_laws};
use crate::memtable::MemTable;
use crate::order::{KeyOrder, Order};
use crate::record::bytestream::ByteStream;
use crate::record::iterator::{lists_table, KvPointer, KvSource, Pair};
use crate::record::kventry::{KvDataRef, KvEntry, RecordView};
use vstd::prelude::*;

verus! {

/// The colour of a node.
#[derive(Clone, Copy, Debug, PartialEq, Eq, Structural)]
enum Color {
    Red,
    Black,
}

/// The subtree is there and its root is red.
spec fn is_red<K: KeyOrder, V>(t: Link<K, V, Color>) -> bool {
    match t {
        None => false,
        Some(n) => n.tag == Color::Red,
    }
}

/// The number of black nodes on the leftmost path of the subtree.
spec fn black_height<K: KeyOrder, V>(t: Link<K, V, Color>) -> nat
    decreases t,
{
    match t {
        None => 0,
        Some(n) => black_height(n.left) + if n.tag == Color::Black {
            1nat
        } else {
            0nat
        },
    }
}

/// The colour rules hold below the root of the subtree; the root itself may
/// be red above a red child.
spec fn balanced_below<K: KeyOrder, V>(t: Link<K, V, Color>) -> bool
    decreases t,
{
    match t {
        None => true,
        Some(n) => {
            &&& balanced(n.left)
            &&& balanced(n.right)
            &&& black_height(n.left) == black_height(n.right)
        },
    }
}

/// The colour rules hold in the whole subtree: no red node has a red child,
/// and every path down passes the same number of black nodes.
spec fn balanced<K: KeyOrder, V>(t: Link<K, V, Color>) -> bool
    decreases t,
{
    match t {
        None => true,
        Some(n) => {
            &&& balanced(n.left)
            &&& balanced(n.right)
            &&& black_height(n.left) == black_height(n.right)
            &&& n.tag == Color::Red ==> !is_red(n.left) && !is_red(n.right)
        },
    }
}

/// The number of nodes on the longest path of the subtree.
spec fn height<K: KeyOrder, V>(t: Link<K, V, Color>) -> nat
    decreases t,
{
    match t {
        None => 0,
        Some(n) => 1 + if height(n.left) >= height(n.right) {
            height(n.left)
        } else {
            height(n.right)
        },
    }
}

/// Under the colour rules no path is longer than twice the black height,
/// and one node more below a red root.
proof fn lemma_height<K: KeyOrder, V>(t: Link<K, V, Color>)
    requires
        balanced(t),
    ensures
        height(t) <= 2 * black_height(t) + if is_red(t) {
            1nat
        } else {
            0nat
        },
    decreases t,
{
    match t {
        None => {},
        Some(n) => {
            lemma_height(n.left);
            lemma_height(n.right);
        },
    }
}

/// Whether the subtree is there with a red root.
fn red<K: KeyOrder, V>(t: &Link<K, V, Color>) -> (r: bool)
    ensures
        r == is_red(*t),
{
    match t {
        None => false,
        Some(n) => match n.tag {
            Color::Red => true,
            Color::Black => false,
        },
    }
}

/// A black node over `left` and `right`, where the colour rules may fail at
/// the root of `left`: a red root with a red child there is turned into a
/// red node over two black ones.
fn balance_left<K: KeyOrder, V>(
    key: K,
    value: V,
    left: Box<Node<K, V, Color>>,
    right: Link<K, V, Color>,
    Ghost(lo): Ghost<Option<K::V>>,
    Ghost(hi): Ghost<Option<K::V>>,
) -> (node: Box<Node<K, V, Color>>)
    requires
        above::<K>(lo, key@),
        below::<K>(key@, hi),
        fits(Some(left), lo, Some(key@)),
        fits(right, Some(key@), hi),
        balanced_below(Some(left)),
        balanced(right),
        black_height(Some(left)) == black_height(right),
    ensures
        fits(Some(node), lo, hi),
        balanced(Some(node)),
        black_height(Some(node)) == black_height(right) + 1,
        forall|k: K::V| #[trigger] find(Some(node), k) == find_under(Some(left), key@, value, right, k),
{
    proof {
        lemma_order_laws::<K>();
        reveal_with_fuel(find, 4);
        reveal_with_fuel(fits, 4);
        reveal_with_fuel(black_height, 4);
        reveal_with_fuel(balanced, 3);
    }
    let Node { tag: lc, key: lk, value: lv, left: ll, right: lr } = *left;
    let reddened = match lc {
        Color::Red => true,
        Color::Black => false,
    };
    if reddened && red(&ll) {
        let Node { tag: _, key: ak, value: av, left: al, right: ar } = *ll.unwrap();
        let lower = Node { tag: Color::Black, key: ak, value: av, left: al, right: ar };
        let upper = Node { tag: Color::Black, key, value, left: lr, right };
        Box::new(
            Node { tag: Color::Red, key: lk, value: lv, left: Some(Box::new(lower)), right: Some(Box::new(upper)) },
        )
    } else if reddened && red(&lr) {
        let Node { tag: _, key: bk, value: bv, left: bl, right: br } = *lr.unwrap();
        let lower = Node { tag: Color::Black, key: lk, value: lv, left: ll, right: bl };
        let upper = Node { tag: Color::Black, key, value, left: br, right };
        Box::new(
            Node { tag: Color::Red, key: bk, value: bv, left: Some(Box::new(lower)), right: Some(Box::new(upper)) },
        )
    } else {
        let lower = Node { tag: lc, key: lk, value: lv, left: ll, right: lr };
        Box::new(Node { tag: Color::Black, key, value, left: Some(Box::new(lower)), right })
    }
}

/// A black node over `left` and `right`, where the colour rules may fail at
/// the root of `right`: a red root with a red child there is turned into a
/// red node over two black ones.
fn balance_right<K: KeyOrder, V>(
    key: K,
    value: V,
    left: Link<K, V, Color>,
    right: Box<Node<K, V, Color>>,
    Ghost(lo): Ghost<Option<K::V>>,
    Ghost(hi): Ghost<Option<K::V>>,
) -> (node: Box<Node<K, V, Color>>)
    requires
        above::<K>(lo, key@),
        below::<K>(key@, hi),
        fits(left, lo, Some(key@)),
        fits(Some(right), Some(key@), hi),
        balanced(left),
        balanced_below(Some(right)),
        black_height(left) == black_height(Some(right)),
    ensures
        fits(Some(node), lo, hi),
        balanced(Some(node)),
        black_height(Some(node)) == black_height(left) + 1,
        forall|k: K::V| #[trigger] find(Some(node), k) == find_under(left, key@, value, Some(right), k),
{
    proof {
        lemma_order_laws::<K>();
        reveal_with_fuel(find, 4);
        reveal_with_fuel(fits, 4);
        reveal_with_fuel(black_height, 4);
        reveal_with_fuel(balanced, 3);
    }
    let Node { tag: rc, key: rk, value: rv, left: rl, right: rr } = *right;
    let reddened = match rc {
        Color::Red => true,
        Color::Black => false,
    };
    if reddened && red(&rr) {
        let Node { tag: _, key: ak, value: av, left: al, right: ar } = *rr.unwrap();
        let lower = Node { tag: Color::Black, key, value, left, right: rl };
        let upper = Node { tag: Color::Black, key: ak, value: av, left: al, right: ar };
        Box::new(
            Node { tag: Color::Red, key: rk, value: rv, left: Some(Box::new(lower)), right: Some(Box::new(upper)) },
        )
    } else if reddened && red(&rl) {
        let Node { tag: _, key: bk, value: bv, left: bl, right: br } = *rl.unwrap();
        let lower = Node { tag: Color::Black, key, value, left, right: bl };
        let upper = Node { tag: Color::Black, key: rk, value: rv, left: br, right: rr };
        Box::new(
            Node { tag: Color::Red, key: bk, value: bv, left: Some(Box::new(lower)), right: Some(Box::new(upper)) },
        )
    } else {
        let upper = Node { tag: rc, key: rk, value: rv, left: rl, right: rr };
        Box::new(Node { tag: Color::Black, key, value, left, right: Some(Box::new(upper)) })
    }
}

/// Puts the pair into the subtree and says whether the key was there. The
/// black height stays; the colour rules hold below the new root, and at it
/// too unless the old root was red.
fn ins<K: KeyOrder, V>(
    t: Link<K, V, Color>,
    key: K,
    value: V,
    Ghost(lo): Ghost<Option<K::V>>,
    Ghost(hi): Ghost<Option<K::V>>,
) -> (out: (Box<Node<K, V, Color>>, bool))
    requires
        fits(t, lo, hi),
        balanced(t),
        above::<K>(lo, key@),
        below::<K>(key@, hi),
    ensures
        fits(Some(out.0), lo, hi),
        balanced_below(Some(out.0)),
        !is_red(t) ==> balanced(Some(out.0)),
        black_height(Some(out.0)) == black_height(t),
        out.1 == find(t, key@).is_some(),
        forall|k: K::V|
            #[trigger] find(Some(out.0), k) == (if k == key@ {
                Some(value)
            } else {
                find(t, k)
            }),
    decreases t,
{
    proof {
        lemma_order_laws::<K>();
        reveal_with_fuel(find, 2);
        reveal_with_fuel(fits, 2);
    }
    match t {
        None => {
            let leaf = Box::new(Node { tag: Color::Red, key, value, left: None, right: None });
            proof {
                assert forall|k: K::V|
                    #[trigger] find(Some(leaf), k) == (if k == key@ {
                        Some(value)
                    } else {
                        None
                    }) by {
                    assert(find(Some(leaf), k) == find_under::<K, V, Color>(None, key@, value, None, k));
                    assert(find::<K, V, Color>(None, k) == None::<V>);
                }
            }
            (leaf, false)
        },
        Some(node) => {
            let Node { tag: color, key: nk, value: nv, left, right } = *node;
            match key.compare(&nk) {
                Order::Less => {
                    let (lower, replaced) = ins(left, key, value, Ghost(lo), Ghost(Some(nk@)));
                    let out = match color {
                        Color::Black => balance_left(nk, nv, lower, right, Ghost(lo), Ghost(hi)),
                        Color::Red => Box::new(
                            Node { tag: Color::Red, key: nk, value: nv, left: Some(lower), right },
                        ),
                    };
                    proof {
                        assert forall|k: K::V|
                            #[trigger] find(Some(out), k) == (if k == key@ {
                                Some(value)
                            } else {
                                find(t, k)
                            }) by {
                            assert(find(Some(out), k) == find_under(Some(lower), nk@, nv, right, k));
                            assert(find(t, k) == find_under(left, nk@, nv, right, k));
                        }
                    }
                    (out, replaced)
                },
                Order::Greater => {
                    let (upper, replaced) = ins(right, key, value, Ghost(Some(nk@)), Ghost(hi));
                    let out = match color {
                        Color::Black => balance_right(nk, nv, left, upper, Ghost(lo), Ghost(hi)),
                        Color::Red => Box::new(
                            Node { tag: Color::Red, key: nk, value: nv, left, right: Some(upper) },
                        ),
                    };
                    proof {
                        assert forall|k: K::V|
                            #[trigger] find(Some(out), k) == (if k == key@ {
                                Some(value)
                            } else {
                                find(t, k)
                            }) by {
                            assert(find(Some(out), k) == find_under(left, nk@, nv, Some(upper), k));
                            assert(find(t, k) == find_under(left, nk@, nv, right, k));
                        }
                    }
                    (out, replaced)
                },
                Order::Equal => {
                    let out = Box::new(Node { tag: color, key: nk, value, left, right });
                    proof {
                        assert forall|k: K::V|
                            #[trigger] find(Some(out), k) == (if k == key@ {
                                Some(value)
                            } else {
                                find(t, k)
                            }) by {
                            assert(find(Some(out), k) == find_under(left, nk@, value, right, k));
                            assert(find(t, k) == find_under(left, nk@, nv, right, k));
                        }
                    }
                    (out, true)
                },
            }
        },
    }
}

/// A change of the value under one key keeps the colours.
proof fn lemma_colours_kept<K: KeyOrder, V>(
    t: Link<K, V, Color>,
    after: Link<K, V, Color>,
    k: K::V,
    v: Option<V>,
)
    requires
        balanced(t),
        path_changed(t, after, k, v),
    ensures
        balanced(after),
        black_height(after) == black_height(t),
        is_red(after) == is_red(t),
    decreases t,
{
    match t {
        None => {},
        Some(n) => {
            let a = after.unwrap();
            if K::before(k, n.key@) {
                lemma_colours_kept(n.left, a.left, k, v);
            } else if K::before(n.key@, k) {
                lemma_colours_kept(n.right, a.right, k, v);
            }
        },
    }
}

/// A red-black tree.
pub struct RBTree<K: KeyOrder, V> {
    root: Option<Box<Node<K, V, Color>>>,
}

impl<K: KeyOrder, V> View for RBTree<K, V> {
    type V = Map<K::V, V>;

    /// The pairs that the tree holds.
    closed spec fn view(&self) -> Map<K::V, V> {
        Map::new(|k: K::V| find(self.root, k).is_some(), |k: K::V| find(self.root, k).unwrap())
    }
}

impl<K: KeyOrder, V> RBTree<K, V> {
    /// The invariant of the tree: the keys are in search order, the root is
    /// black, no red node has a red child, and every path from the root
    /// down to an empty place passes the same number of black nodes.
    pub closed spec fn well_formed(&self) -> bool {
        &&& fits(self.root, None, None)
        &&& balanced(self.root)
        &&& !is_red(self.root)
    }

    /// The number of black nodes on each path from the root down to an
    /// empty place.
    pub closed spec fn black_depth(&self) -> nat {
        black_height(self.root)
    }

    /// The number of nodes on the longest path from the root down.
    pub closed spec fn depth(&self) -> nat {
        height(self.root)
    }

    /// The tree is shallow: no path from the root down holds more than twice
    /// as many nodes as every path holds black ones.
    pub proof fn lemma_depth_bounded(&self)
        requires
            self.well_formed(),
        ensures
            self.depth() <= 2 * self.black_depth(),
    {
        lemma_height(self.root);
    }

    /// A tree without pairs.
    pub fn new() -> (tree: Self)
        ensures
            tree.well_formed(),
            tree.black_depth() == 0,
            tree@ == Map::<K::V, V>::empty(),
    {
        let tree = Self { root: None };
        assert(tree@ =~= Map::<K::V, V>::empty());
        tree
    }

    /// The value under `key`, or `None` where the tree holds no such key.
    pub fn lookup(&self, key: &K) -> (found: Option<&V>)
        ensures
            match found {
                Some(value) => self@.contains_key(key@) && *value == self@[key@],
                None => !self@.contains_key(key@),
            },
    {
        search(&self.root, key)
    }

    /// The pairs of the tree in ascending key order.
    pub fn entries(&self) -> (out: Vec<(&K, &V)>)
        requires
            self.well_formed(),
        ensures
            forall|i: int, j: int|
                0 <= i < j < out@.len() ==> K::before((#[trigger] out@[i]).0@, (#[trigger] out@[j]).0@),
            forall|i: int|
                0 <= i < out@.len() ==> self@.contains_key((#[trigger] out@[i]).0@) && self@[out@[i].0@]
                    == *out@[i].1,
            forall|k: K::V|
                self@.contains_key(k) ==> exists|i: int|
                    0 <= i < out@.len() && (#[trigger] out@[i]).0@ == k,
    {
        let mut out: Vec<(&K, &V)> = Vec::new();
        collect(&self.root, &mut out);
        proof {
            let w = walk(self.root);
            lemma_walk(self.root, None, None);
            assert forall|i: int| 0 <= i < out@.len() implies *(#[trigger] out@[i]).0 == w[i].0
                && *out@[i].1 == w[i].1 by {
                assert(out@[0 + i] == out@[i]);
            }
            assert forall|k: K::V| self@.contains_key(k) implies exists|i: int|
                0 <= i < out@.len() && (#[trigger] out@[i]).0@ == k by {
                let i = choose|i: int| 0 <= i < w.len() && (#[trigger] w[i]).0@ == k;
                assert(out@[i].0@ == k);
            }
        }
        out
    }

    /// The value under `key`, open to change, or `None` where the tree holds
    /// no such key.
    fn access(&mut self, key: &K) -> (found: Option<&mut V>)
        requires
            old(self).well_formed(),
        ensures
            final(self).well_formed(),
            final(self).black_depth() == old(self).black_depth(),
            match found {
                Some(value) => {
                    &&& old(self)@.contains_key(key@)
                    &&& *value == old(self)@[key@]
                    &&& final(self)@ == old(self)@.insert(key@, *final(value))
                },
                None => {
                    &&& !old(self)@.contains_key(key@)
                    &&& final(self)@ == old(self)@
                },
            },
    {
        let ghost root = self.root;
        proof {
            assert forall|after: Link<K, V, Color>, v: Option<V>| #[trigger]
                path_changed(root, after, key@, v) implies {
                &&& fits(after, None, None)
                &&& balanced(after)
                &&& !is_red(after)
                &&& black_height(after) == black_height(root)
                &&& forall|q: K::V|
                    #[trigger] find(after, q) == (if q == key@ && v is Some {
                        v
                    } else {
                        find(root, q)
                    })
            } by {
                lemma_path_changed(root, after, key@, v, None, None);
                lemma_colours_kept(root, after, key@, v);
            }
        }
        search_mut(&mut self.root, key)
    }

    /// Sets the value under `key`; `Some(())` where the key was there.
    fn insert_wrap(&mut self, key: K, value: V) -> (replaced: Option<()>)
        requires
            old(self).well_formed(),
        ensures
            final(self).well_formed(),
            final(self)@ == old(self)@.insert(key@, value),
            replaced.is_some() <==> old(self)@.contains_key(key@),
            old(self).black_depth() <= final(self).black_depth() <= old(self).black_depth() + 1,
    {
        let root = self.root.take();
        let (top, replaced) = ins(root, key, value, Ghost(None), Ghost(None));
        let Node { tag: _, key: tk, value: tv, left, right } = *top;
        self.root = Some(Box::new(Node { tag: Color::Black, key: tk, value: tv, left, right }));
        proof {
            assert(root == old(self).root);
            assert forall|k: K::V|
                #[trigger] find(self.root, k) == (if k == key@ {
                    Some(value)
                } else {
                    find(root, k)
                }) by {
                assert(find(self.root, k) == find_under(left, tk@, tv, right, k));
                assert(find(Some(top), k) == find_under(left, tk@, tv, right, k));
            }
            assert(self@ =~= old(self)@.insert(key@, value));
        }
        if replaced {
            Some(())
        } else {
            None
        }
    }
}

impl<K: KeyOrder, V> MemTable<K, V> for RBTree<K, V> {
    open spec fn wf(&self) -> bool {
        self.well_formed()
    }

    open spec fn contents(&self) -> Map<K::V, V> {
        self@
    }

    fn get(&mut self, key: &K) -> (found: Option<&mut V>) {
        self.access(key)
    }

    fn insert(&mut self, key: K, value: V) -> (replaced: Option<()>) {
        self.insert_wrap(key, value)
    }

    /// Nothing is removed: a pair leaves a table by a tombstone written
    /// over it.
    fn remove(&mut self, _key: &K) -> (removed: Result<(), ()>)
        ensures
            removed.is_err(),
    {
        Err(())
    }
}

/// The pair that a key and the entry under it stand for.
pub open spec fn entry_pair(key: ByteStream, entry: KvEntry) -> Pair {
    (key@, entry@.record)
}

/// Tree iterator (pointer) interface: one pair of a tree of entries.
pub struct RBTreePointer<'a> {
    key: &'a ByteStream,
    entry: &'a KvEntry,
}

impl<'a> KvPointer for RBTreePointer<'a> {
    closed spec fn spec_key(&self) -> Seq<u8> {
        self.key@
    }

    closed spec fn spec_value(&self) -> RecordView {
        self.entry.record@
    }

    /// Get key where iterator points to.
    fn key(&self) -> (k: &[u8]) {
        self.key.as_ref()
    }

    /// Gets a reference to the pointing value.
    fn value(&self) -> (v: KvDataRef<'_>) {
        self.entry.record.as_ref()
    }
}

/// Tree node iterator manager: yields the pairs of a tree of entries in
/// ascending key order, from some pair on.
pub struct RBTreeIterator<'a> {
    items: Vec<(&'a ByteStream, &'a KvEntry)>,
    at: usize,
}

/// The pairs that the items stand for.
pub open spec fn entry_pairs(items: Seq<(&ByteStream, &KvEntry)>) -> Seq<Pair> {
    Seq::new(items.len(), |i: int| entry_pair(*items[i].0, *items[i].1))
}

impl<'a> KvSource for RBTreeIterator<'a> {
    type Pointer = RBTreePointer<'a>;

    closed spec fn wf(&self) -> bool {
        self.at <= self.items@.len()
    }

    closed spec fn remaining(&self) -> Seq<Pair> {
        entry_pairs(self.items@).skip(self.at as int)
    }

    fn next(&mut self) -> (item: Option<Self::Pointer>) {
        if self.at < self.items.len() {
            let (key, entry) = self.items[self.at];
            proof {
                let all = entry_pairs(self.items@);
                assert(all.skip(self.at as int).skip(1) =~= all.skip(self.at + 1));
            }
            self.at += 1;
            Some(RBTreePointer { key, entry })
        } else {
            None
        }
    }
}

/// Additional (special) implementations for RB tree.
impl RBTree<ByteStream, KvEntry> {
    /// The pairs of the tree in ascending key order.
    pub closed spec fn run(&self) -> Seq<Pair> {
        Seq::new(walk(self.root).len(), |i: int| entry_pair(walk(self.root)[i].0, walk(self.root)[i].1))
    }

    /// The run of a tree lists what the tree holds.
    pub proof fn lemma_run(&self)
        requires
            self.well_formed(),
        ensures
            lists_table(self@, self.run()),
    {
        let w = walk(self.root);
        let run = self.run();
        lemma_walk(self.root, None, None);
        assert forall|k: Seq<u8>| self@.contains_key(k) implies exists|i: int|
            0 <= i < run.len() && (#[trigger] run[i]).0 == k by {
            let i = choose|i: int| 0 <= i < w.len() && (#[trigger] w[i]).0@ == k;
            assert(run[i].0 == k);
        }
    }

    /// The pairs of the tree as items of an iterator.
    fn items(&self) -> (items: Vec<(&ByteStream, &KvEntry)>)
        ensures
            entry_pairs(items@) == self.run(),
    {
        let mut items: Vec<(&ByteStream, &KvEntry)> = Vec::new();
        collect(&self.root, &mut items);
        proof {
            let w = walk(self.root);
            assert forall|i: int| 0 <= i < items@.len() implies *(#[trigger] items@[i]).0 == w[i].0
                && *items@[i].1 == w[i].1 by {
                assert(items@[0 + i] == items@[i]);
            }
            assert(entry_pairs(items@) =~= self.run());
        }
        items
    }

    /// Accesses iterator at `table[key] -> value`: it yields the pair under
    /// `key` and then the pairs behind it. `None` where the tree holds no
    /// such key.
    pub fn get_iter(&self, key: &ByteStream) -> (it: Option<RBTreeIterator<'_>>)
        requires
            self.well_formed(),
        ensures
            it is Some <==> self@.contains_key(key@),
            match it {
                Some(i) => {
                    &&& i.wf()
                    &&& exists|at: int|
                        0 <= at < self.run().len() && (#[trigger] self.run()[at]).0 == key@
                            && i.remaining() == self.run().skip(at)
                },
                None => true,
            },
    {
        let items = self.items();
        proof {
            self.lemma_run();
        }
        let n: usize = items.len();
        let mut at: usize = 0;
        while at < n
            invariant
                at <= n,
                n == items@.len(),
                entry_pairs(items@) == self.run(),
                lists_table(self@, self.run()),
                forall|j: int| 0 <= j < at ==> (#[trigger] self.run()[j]).0 != key@,
            decreases n - at,
        {
            proof {
                assert(self.run()[at as int] == entry_pair(*items@[at as int].0, *items@[at as int].1));
            }
            match key.compare(items[at].0) {
                Order::Equal => {
                    return Some(RBTreeIterator { items, at });
                },
                _ => {},
            }
            at += 1;
        }
        None
    }

    /// Access full-scan iterator: it yields every pair of the tree.
    pub fn iter_mut(&self) -> (it: Option<RBTreeIterator<'_>>)
        ensures
            match it {
                Some(i) => i.wf() && i.remaining() == self.run(),
                None => false,
            },
    {
        let items = self.items();
        proof {
            assert(entry_pairs(items@).skip(0) =~= entry_pairs(items@));
        }
        Some(RBTreeIterator { items, at: 0 })
    }
}

} // verus!
