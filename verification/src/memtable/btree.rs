//! A B-tree whose nodes hold up to `2N` pairs and up to `2N + 1` children.

use crate::memtable::MemTable;
use crate::order::{KeyOrder, Order};
use vstd::prelude::*;

verus! {

/// `k` lies above the lower bound, if there is one.
pub open spec fn above<K: KeyOrder>(lo: Option<K::V>, k: K::V) -> bool {
    match lo {
        None => true,
        Some(l) => K::before(l, k),
    }
}

/// `k` lies below the upper bound, if there is one.
pub open spec fn below<K: KeyOrder>(k: K::V, hi: Option<K::V>) -> bool {
    match hi {
        None => true,
        Some(h) => K::before(k, h),
    }
}

/// The laws of the strict order of `K`, for every choice of keys at once.
pub proof fn lemma_order_laws<K: KeyOrder>()
    ensures
        forall|a: K::V| !#[trigger] K::before(a, a),
        forall|a: K::V, b: K::V, c: K::V| #[trigger] K::before(a, b) && #[trigger] K::before(b, c) ==> K::before(a, c),
        forall|a: K::V, b: K::V| #[trigger] K::before(a, b) || a == b || K::before(b, a),
{
    assert forall|a: K::V| !#[trigger] K::before(a, a) by {
        K::lt_irreflexive(a);
    }
    assert forall|a: K::V, b: K::V, c: K::V| #[trigger] K::before(a, b) && #[trigger] K::before(
        b,
        c,
    ) implies K::before(a, c) by {
        K::lt_transitive(a, b, c);
    }
    assert forall|a: K::V, b: K::V| #[trigger] K::before(a, b) || a == b || K::before(b, a) by {
        K::lt_total(a, b);
    }
}

/// How a full node splits around a new pair. The node holds `2n` slots, and
/// the new pair belongs at `idx`. With the pair in its place the node holds
/// one slot too many: the `n` slots before the middle stay, the slot in the
/// middle goes up to the parent, and the `n` slots behind it go to a new
/// node. In terms of the slots from before:
///
/// - `idx < n`: the left node keeps the slots before `n - 1`, with the new
///   pair among them; the slot at `n - 1` goes up; the right node gets the
///   slots from `n` on.
/// - `idx == n`: the left node keeps the slots before `n`; the new pair goes
///   up; the right node gets the slots from `n` on.
/// - `idx > n`: the left node keeps the slots before `n`; the slot at `n`
///   goes up; the right node gets the slots behind `n`, with the new pair
///   among them.
pub proof fn lemma_split_cases<T>(slots: Seq<T>, idx: int, pair: T, n: int)
    requires
        n >= 1,
        slots.len() == 2 * n,
        0 <= idx <= 2 * n,
    ensures
        ({
            let full = slots.insert(idx, pair);
            let left = full.subrange(0, n);
            let middle = full[n];
            let right = full.subrange(n + 1, 2 * n + 1);
            if idx < n {
                &&& left == slots.subrange(0, n - 1).insert(idx, pair)
                &&& middle == slots[n - 1]
                &&& right == slots.subrange(n, 2 * n)
            } else if idx == n {
                &&& left == slots.subrange(0, n)
                &&& middle == pair
                &&& right == slots.subrange(n, 2 * n)
            } else {
                &&& left == slots.subrange(0, n)
                &&& middle == slots[n]
                &&& right == slots.subrange(n + 1, 2 * n).insert(idx - n - 1, pair)
            }
        }),
{
    let full = slots.insert(idx, pair);
    let left = full.subrange(0, n);
    let right = full.subrange(n + 1, 2 * n + 1);
    if idx < n {
        assert(left =~= slots.subrange(0, n - 1).insert(idx, pair));
        assert(right =~= slots.subrange(n, 2 * n));
    } else if idx == n {
        assert(left =~= slots.subrange(0, n));
        assert(right =~= slots.subrange(n, 2 * n));
    } else {
        assert(left =~= slots.subrange(0, n));
        assert(right =~= slots.subrange(n + 1, 2 * n).insert(idx - n - 1, pair));
    }
}

/// One node: its pairs in key order and, unless it is a leaf, one child
/// before each pair and one behind the last.
struct Node<K: KeyOrder, V> {
    keys: Vec<K>,
    values: Vec<V>,
    children: Vec<Node<K, V>>,
}

/// What an insertion into a subtree did to it.
enum InsertResult<K: KeyOrder, V> {
    /// The node was full and has been split. It keeps its lower half; the
    /// pair in the middle and the new node with the upper half go to the
    /// parent.
    Split { key: K, value: V, rchild: Node<K, V> },
    /// The key was there, and its value has been replaced.
    Replaced,
    /// The pair has been added, and the node had room for it.
    Finished,
}

impl<K: KeyOrder, V> Node<K, V> {
    /// The first index at or behind `i` whose key is not below `k`.
    spec fn rank_from(self, k: K::V, i: int) -> int
        decreases self.keys.len() - i,
    {
        if i < 0 || i >= self.keys.len() || !K::before(self.keys[i]@, k) {
            i
        } else {
            self.rank_from(k, i + 1)
        }
    }

    /// The number of keys of this node that are below `k`: the place of `k`
    /// among them.
    spec fn rank(self, k: K::V) -> int {
        self.rank_from(k, 0)
    }

    /// `r` is the first index whose key is not below `k`.
    spec fn is_rank(self, k: K::V, r: int) -> bool {
        &&& 0 <= r <= self.keys.len()
        &&& forall|i: int| 0 <= i < r ==> K::before(#[trigger] self.keys[i]@, k)
        &&& r < self.keys.len() ==> !K::before(self.keys[r]@, k)
    }

    /// The value that a search for `k` from this node finds.
    spec fn find(self, k: K::V) -> Option<V>
        decreases self,
    {
        let r = self.rank(k);
        if 0 <= r < self.keys.len() && r < self.values.len() && self.keys[r]@ == k {
            Some(self.values[r])
        } else if 0 <= r < self.children.len() {
            self.children[r].find(k)
        } else {
            None
        }
    }

    /// The bound below child `j`.
    spec fn lower(self, lo: Option<K::V>, j: int) -> Option<K::V> {
        if j <= 0 {
            lo
        } else {
            Some(self.keys[j - 1]@)
        }
    }

    /// The bound above child `j`.
    spec fn upper(self, hi: Option<K::V>, j: int) -> Option<K::V> {
        if j >= self.keys.len() {
            hi
        } else {
            Some(self.keys[j]@)
        }
    }

    /// The node is the root of a subtree of the given height whose keys all
    /// lie strictly between `lo` and `hi`: its keys ascend and number between
    /// `min` and `max`; a leaf has no children, another node has one more
    /// child than pairs, and each child is a well-formed subtree whose keys
    /// lie between the keys around it.
    spec fn fits(
        self,
        lo: Option<K::V>,
        hi: Option<K::V>,
        height: nat,
        n: int,
        min: int,
        max: int,
    ) -> bool
        decreases self,
    {
        &&& self.values.len() == self.keys.len()
        &&& min <= self.keys.len() <= max
        &&& forall|i: int, j: int|
            0 <= i < j < self.keys.len() ==> K::before(#[trigger] self.keys[i]@, #[trigger] self.keys[j]@)
        &&& forall|i: int|
            0 <= i < self.keys.len() ==> above::<K>(lo, #[trigger] self.keys[i]@) && below::<K>(
                self.keys[i]@,
                hi,
            )
        &&& if height == 0 {
            self.children.len() == 0
        } else {
            &&& self.children.len() == self.keys.len() + 1
            &&& forall|j: int|
                0 <= j < self.children.len() ==> (#[trigger] self.children[j]).fits(
                    self.lower(lo, j),
                    self.upper(hi, j),
                    (height - 1) as nat,
                    n,
                    n,
                    2 * n,
                )
        }
    }

    /// The node is the root of a well-formed subtree: it holds at most `2n`
    /// pairs and, unless it is the root of the tree, at least `n`.
    spec fn wf(self, lo: Option<K::V>, hi: Option<K::V>, height: nat, n: int, is_root: bool) -> bool {
        self.fits(lo, hi, height, n, if is_root { 0 } else { n }, 2 * n)
    }

    proof fn lemma_rank_from(self, k: K::V, i: int)
        requires
            0 <= i <= self.keys.len(),
            forall|j: int| 0 <= j < i ==> K::before(#[trigger] self.keys[j]@, k),
        ensures
            self.is_rank(k, self.rank_from(k, i)),
        decreases self.keys.len() - i,
    {
        if i >= self.keys.len() || !K::before(self.keys[i]@, k) {
        } else {
            self.lemma_rank_from(k, i + 1);
        }
    }

    /// The rank of `k` is the one index that `is_rank` describes.
    proof fn lemma_rank(self, k: K::V)
        ensures
            self.is_rank(k, self.rank(k)),
            forall|r: int| self.is_rank(k, r) ==> r == self.rank(k),
    {
        self.lemma_rank_from(k, 0);
    }

    /// A search for `k` passes this node by and goes on in child `j`.
    spec fn descends(self, k: K::V, j: int) -> bool {
        &&& self.rank(k) == j
        &&& !(j < self.keys.len() && self.keys[j]@ == k)
    }

    /// What a search finds once the value at index `idx` has been replaced.
    proof fn lemma_value_replaced(self, after: Self, idx: int, value: V)
        requires
            0 <= idx < self.keys.len(),
            self.values.len() == self.keys.len(),
            forall|i: int, j: int|
                0 <= i < j < self.keys.len() ==> K::before(
                    #[trigger] self.keys[i]@,
                    #[trigger] self.keys[j]@,
                ),
            after.keys@ == self.keys@,
            after.children@ == self.children@,
            after.values@ == self.values@.update(idx, value),
        ensures
            forall|k: K::V|
                #[trigger] after.find(k) == (if k == self.keys[idx]@ {
                    Some(value)
                } else {
                    self.find(k)
                }),
            forall|lo: Option<K::V>, hi: Option<K::V>, h: nat, n: int, min: int, max: int|
                self.fits(lo, hi, h, n, min, max) ==> #[trigger] after.fits(lo, hi, h, n, min, max),
    {
        lemma_order_laws::<K>();
        assert forall|k: K::V|
            #[trigger] after.find(k) == (if k == self.keys[idx]@ {
                Some(value)
            } else {
                self.find(k)
            }) by {
            self.lemma_rank(k);
            after.lemma_rank(k);
            assert(after.is_rank(k, self.rank(k)));
        }
        assert forall|lo: Option<K::V>, hi: Option<K::V>, h: nat, n: int, min: int, max: int|
            self.fits(lo, hi, h, n, min, max) implies #[trigger] after.fits(
            lo,
            hi,
            h,
            n,
            min,
            max,
        ) by {
            assert forall|j: int| 0 <= j < after.children.len() implies (
            #[trigger] after.children[j]).fits(
                after.lower(lo, j),
                after.upper(hi, j),
                (h - 1) as nat,
                n,
                n,
                2 * n,
            ) by {
                assert(after.children[j] == self.children[j]);
            }
        }
    }

    /// What a search finds once child `idx` has been replaced by a subtree
    /// within the same bounds.
    proof fn lemma_child_replaced(
        self,
        after: Self,
        idx: int,
        lo: Option<K::V>,
        hi: Option<K::V>,
        h: nat,
        n: int,
        min: int,
        max: int,
    )
        requires
            self.fits(lo, hi, h, n, min, max),
            0 <= idx < self.children.len(),
            after.keys@ == self.keys@,
            after.values@ == self.values@,
            after.children@ == self.children@.update(idx, after.children[idx]),
            after.children[idx].fits(
                self.lower(lo, idx),
                self.upper(hi, idx),
                (h - 1) as nat,
                n,
                n,
                2 * n,
            ),
        ensures
            after.fits(lo, hi, h, n, min, max),
            forall|k: K::V|
                #[trigger] after.find(k) == (if self.descends(k, idx) {
                    after.children[idx].find(k)
                } else {
                    self.find(k)
                }),
            forall|k: K::V| self.descends(k, idx) ==> self.find(k) == self.children[idx].find(k),
    {
        assert forall|k: K::V|
            #[trigger] after.find(k) == (if self.descends(k, idx) {
                after.children[idx].find(k)
            } else {
                self.find(k)
            }) by {
            self.lemma_rank(k);
            after.lemma_rank(k);
            assert(after.is_rank(k, self.rank(k)));
            let r = self.rank(k);
            if 0 <= r < self.children.len() && r != idx {
                assert(after.children[r] == self.children[r]);
            }
        }
        assert forall|j: int| 0 <= j < after.children.len() implies (
        #[trigger] after.children[j]).fits(
            after.lower(lo, j),
            after.upper(hi, j),
            (h - 1) as nat,
            n,
            n,
            2 * n,
        ) by {
            if j != idx {
                assert(after.children[j] == self.children[j]);
            }
        }
        assert forall|k: K::V| self.descends(k, idx) implies self.find(k) == self.children[idx].find(
            k,
        ) by {
            self.lemma_rank(k);
        }
    }

    /// What a search finds once a pair has been added at index `idx`, with
    /// the two subtrees that come to stand around it where the node is no
    /// leaf.
    proof fn lemma_pair_added(
        self,
        after: Self,
        idx: int,
        nk: K::V,
        nv: V,
        lo: Option<K::V>,
        hi: Option<K::V>,
        h: nat,
        n: int,
        min: int,
        max: int,
    )
        requires
            self.fits(lo, hi, h, n, min, max),
            0 <= idx <= self.keys.len(),
            above::<K>(self.lower(lo, idx), nk),
            below::<K>(nk, self.upper(hi, idx)),
            after.keys.len() == self.keys.len() + 1,
            after.keys[idx]@ == nk,
            forall|i: int| 0 <= i < idx ==> (#[trigger] after.keys[i])@ == self.keys[i]@,
            forall|i: int|
                idx < i < after.keys.len() ==> (#[trigger] after.keys[i])@ == self.keys[i - 1]@,
            after.values@ == self.values@.insert(idx, nv),
            h == 0 ==> after.children.len() == 0,
            h > 0 ==> {
                &&& after.children.len() == self.children.len() + 1
                &&& forall|j: int| 0 <= j < idx ==> #[trigger] after.children[j] == self.children[j]
                &&& forall|j: int|
                    idx + 1 < j < after.children.len() ==> #[trigger] after.children[j]
                        == self.children[j - 1]
                &&& after.children[idx].fits(self.lower(lo, idx), Some(nk), (h - 1) as nat, n, n, 2 * n)
                &&& after.children[idx + 1].fits(
                    Some(nk),
                    self.upper(hi, idx),
                    (h - 1) as nat,
                    n,
                    n,
                    2 * n,
                )
            },
        ensures
            after.fits(lo, hi, h, n, min, max + 1),
            above::<K>(lo, nk),
            below::<K>(nk, hi),
            self.descends(nk, idx),
            after.find(nk) == Some(nv),
            forall|k: K::V|
                k != nk ==> #[trigger] after.find(k) == (if self.descends(k, idx) {
                    if h == 0 {
                        None
                    } else if K::before(k, nk) {
                        after.children[idx].find(k)
                    } else {
                        after.children[idx + 1].find(k)
                    }
                } else {
                    self.find(k)
                }),
            forall|k: K::V|
                self.descends(k, idx) ==> self.find(k) == (if h == 0 {
                    None
                } else {
                    self.children[idx].find(k)
                }),
    {
        lemma_order_laws::<K>();
        let len = self.keys.len() as int;
        // the new key stands between its neighbours
        assert(forall|i: int| 0 <= i < idx ==> K::before(#[trigger] self.keys[i]@, nk)) by {
            if idx > 0 {
                assert(K::before(self.keys[idx - 1]@, nk));
                assert forall|i: int| 0 <= i < idx implies K::before(#[trigger] self.keys[i]@, nk) by {
                    if i < idx - 1 {
                        assert(K::before(self.keys[i]@, self.keys[idx - 1]@));
                    }
                }
            }
        }
        assert(forall|i: int| idx <= i < len ==> K::before(nk, #[trigger] self.keys[i]@)) by {
            if idx < len {
                assert(K::before(nk, self.keys[idx]@));
                assert forall|i: int| idx <= i < len implies K::before(nk, #[trigger] self.keys[i]@) by {
                    if i > idx {
                        assert(K::before(self.keys[idx]@, self.keys[i]@));
                    }
                }
            }
        }
        assert(above::<K>(lo, nk) && below::<K>(nk, hi)) by {
            if idx > 0 {
                assert(above::<K>(lo, self.keys[idx - 1]@));
            }
            if idx < len {
                assert(below::<K>(self.keys[idx]@, hi));
            }
        }
        self.lemma_rank(nk);
        assert(self.is_rank(nk, idx));
        after.lemma_rank(nk);
        assert(after.is_rank(nk, idx)) by {
            assert forall|i: int| 0 <= i < idx implies K::before(#[trigger] after.keys[i]@, nk) by {
                assert(after.keys[i]@ == self.keys[i]@);
            }
        }
        // the keys still ascend
        assert forall|i: int, j: int| 0 <= i < j < after.keys.len() implies K::before(
            #[trigger] after.keys[i]@,
            #[trigger] after.keys[j]@,
        ) by {
            let a = if i < idx { i } else { i - 1 };
            let b = if j < idx { j } else { j - 1 };
            if i != idx && j != idx {
                assert(after.keys[i]@ == self.keys[a]@);
                assert(after.keys[j]@ == self.keys[b]@);
                assert(K::before(self.keys[a]@, self.keys[b]@));
            } else if i == idx {
                assert(after.keys[j]@ == self.keys[b]@);
            } else {
                assert(after.keys[i]@ == self.keys[a]@);
            }
        }
        assert forall|i: int| 0 <= i < after.keys.len() implies above::<K>(
            lo,
            #[trigger] after.keys[i]@,
        ) && below::<K>(after.keys[i]@, hi) by {
            if i < idx {
                assert(after.keys[i]@ == self.keys[i]@);
            } else if i > idx {
                assert(after.keys[i]@ == self.keys[i - 1]@);
            }
        }
        if h > 0 {
            assert forall|j: int| 0 <= j < after.children.len() implies (
            #[trigger] after.children[j]).fits(
                after.lower(lo, j),
                after.upper(hi, j),
                (h - 1) as nat,
                n,
                n,
                2 * n,
            ) by {
                if j < idx {
                    assert(after.children[j] == self.children[j]);
                    assert(after.keys[j]@ == self.keys[j]@);
                    if j > 0 {
                        assert(after.keys[j - 1]@ == self.keys[j - 1]@);
                    }
                } else if j > idx + 1 {
                    assert(after.children[j] == self.children[j - 1]);
                    assert(after.keys[j - 1]@ == self.keys[j - 2]@);
                    if j < after.keys.len() {
                        assert(after.keys[j]@ == self.keys[j - 1]@);
                    }
                } else if j == idx {
                    if j > 0 {
                        assert(after.keys[j - 1]@ == self.keys[j - 1]@);
                    }
                } else {
                    if j < after.keys.len() {
                        assert(after.keys[j]@ == self.keys[j - 1]@);
                    }
                }
            }
        }
        assert forall|k: K::V|
            k != nk implies #[trigger] after.find(k) == (if self.descends(k, idx) {
                if h == 0 {
                    None
                } else if K::before(k, nk) {
                    after.children[idx].find(k)
                } else {
                    after.children[idx + 1].find(k)
                }
            } else {
                self.find(k)
            }) by {
            self.lemma_rank(k);
            after.lemma_rank(k);
            let r = self.rank(k);
            if r < idx {
                assert(after.is_rank(k, r)) by {
                    assert(after.keys[r]@ == self.keys[r]@);
                    assert forall|i: int| 0 <= i < r implies K::before(#[trigger] after.keys[i]@, k) by {
                        assert(after.keys[i]@ == self.keys[i]@);
                    }
                }
                assert(after.values[r] == self.values[r]);
                if h > 0 {
                    assert(after.children[r] == self.children[r]);
                }
            } else if r > idx || (r == idx && !K::before(k, nk)) {
                assert(K::before(nk, k)) by {
                    if r > idx {
                        assert(K::before(self.keys[idx]@, k));
                    }
                }
                assert(after.is_rank(k, r + 1)) by {
                    if r < len {
                        assert(after.keys[r + 1]@ == self.keys[r]@);
                    }
                    assert forall|i: int| 0 <= i < r + 1 implies K::before(
                        #[trigger] after.keys[i]@,
                        k,
                    ) by {
                        if i < idx {
                            assert(after.keys[i]@ == self.keys[i]@);
                        } else if i > idx {
                            assert(after.keys[i]@ == self.keys[i - 1]@);
                        }
                    }
                }
                if r < len {
                    assert(after.values[r + 1] == self.values[r]);
                }
                if h > 0 && r > idx {
                    assert(after.children[r + 1] == self.children[r]);
                }
            } else {
                assert(after.is_rank(k, idx)) by {
                    assert forall|i: int| 0 <= i < idx implies K::before(
                        #[trigger] after.keys[i]@,
                        k,
                    ) by {
                        assert(after.keys[i]@ == self.keys[i]@);
                    }
                }
            }
        }
        assert forall|k: K::V| self.descends(k, idx) implies self.find(k) == (if h == 0 {
            None
        } else {
            self.children[idx].find(k)
        }) by {
            self.lemma_rank(k);
        }
    }

    /// What a search finds once an overfull node has been split around its
    /// middle pair.
    proof fn lemma_split(
        self,
        left: Self,
        right: Self,
        lo: Option<K::V>,
        hi: Option<K::V>,
        h: nat,
        n: int,
    )
        requires
            n >= 1,
            self.fits(lo, hi, h, n, 2 * n + 1, 2 * n + 1),
            left.keys@ == self.keys@.subrange(0, n),
            left.values@ == self.values@.subrange(0, n),
            right.keys@ == self.keys@.subrange(n + 1, 2 * n + 1),
            right.values@ == self.values@.subrange(n + 1, 2 * n + 1),
            h == 0 ==> left.children.len() == 0 && right.children.len() == 0,
            h > 0 ==> left.children@ == self.children@.subrange(0, n + 1) && right.children@
                == self.children@.subrange(n + 1, 2 * n + 2),
        ensures
            left.fits(lo, Some(self.keys[n]@), h, n, n, 2 * n),
            right.fits(Some(self.keys[n]@), hi, h, n, n, 2 * n),
            above::<K>(lo, self.keys[n]@),
            below::<K>(self.keys[n]@, hi),
            forall|k: K::V|
                self.find(k) == (if K::before(k, self.keys[n]@) {
                    #[trigger] left.find(k)
                } else if k == self.keys[n]@ {
                    Some(self.values[n])
                } else {
                    right.find(k)
                }),
            forall|k: K::V|
                self.find(k) == (if K::before(k, self.keys[n]@) {
                    left.find(k)
                } else if k == self.keys[n]@ {
                    Some(self.values[n])
                } else {
                    #[trigger] right.find(k)
                }),
    {
        lemma_order_laws::<K>();
        let mk = self.keys[n]@;
        assert forall|i: int| 0 <= i < n implies (#[trigger] left.keys[i]) == self.keys[i] by {}
        assert forall|i: int| 0 <= i < n implies (#[trigger] right.keys[i]) == self.keys[i + n
            + 1] by {}
        assert forall|i: int, j: int| 0 <= i < j < left.keys.len() implies K::before(
            #[trigger] left.keys[i]@,
            #[trigger] left.keys[j]@,
        ) by {
            assert(K::before(self.keys[i]@, self.keys[j]@));
        }
        assert forall|i: int, j: int| 0 <= i < j < right.keys.len() implies K::before(
            #[trigger] right.keys[i]@,
            #[trigger] right.keys[j]@,
        ) by {
            assert(K::before(self.keys[i + n + 1]@, self.keys[j + n + 1]@));
        }
        assert forall|i: int| 0 <= i < left.keys.len() implies above::<K>(
            lo,
            #[trigger] left.keys[i]@,
        ) && below::<K>(left.keys[i]@, Some(mk)) by {
            assert(K::before(self.keys[i]@, self.keys[n]@));
            assert(above::<K>(lo, self.keys[i]@));
        }
        assert forall|i: int| 0 <= i < right.keys.len() implies above::<K>(
            Some(mk),
            #[trigger] right.keys[i]@,
        ) && below::<K>(right.keys[i]@, hi) by {
            assert(K::before(self.keys[n]@, self.keys[i + n + 1]@));
            assert(below::<K>(self.keys[i + n + 1]@, hi));
        }
        if h > 0 {
            assert forall|j: int| 0 <= j < left.children.len() implies (
            #[trigger] left.children[j]).fits(
                left.lower(lo, j),
                left.upper(Some(mk), j),
                (h - 1) as nat,
                n,
                n,
                2 * n,
            ) by {
                assert(left.children[j] == self.children[j]);
                assert(self.children[j].fits(
                    self.lower(lo, j),
                    self.upper(hi, j),
                    (h - 1) as nat,
                    n,
                    n,
                    2 * n,
                ));
            }
            assert forall|j: int| 0 <= j < right.children.len() implies (
            #[trigger] right.children[j]).fits(
                right.lower(Some(mk), j),
                right.upper(hi, j),
                (h - 1) as nat,
                n,
                n,
                2 * n,
            ) by {
                assert(right.children[j] == self.children[j + n + 1]);
                assert(self.children[j + n + 1].fits(
                    self.lower(lo, j + n + 1),
                    self.upper(hi, j + n + 1),
                    (h - 1) as nat,
                    n,
                    n,
                    2 * n,
                ));
            }
        }
        assert forall|k: K::V|
            self.find(k) == (if K::before(k, self.keys[n]@) {
                left.find(k)
            } else if k == self.keys[n]@ {
                Some(self.values[n])
            } else {
                right.find(k)
            }) by {
            self.lemma_rank(k);
            left.lemma_rank(k);
            right.lemma_rank(k);
            let r = self.rank(k);
            if K::before(k, mk) {
                assert(r <= n) by {
                    if r > n {
                        assert(K::before(self.keys[n]@, k));
                    }
                }
                assert(left.is_rank(k, r)) by {
                    assert forall|i: int| 0 <= i < r implies K::before(#[trigger] left.keys[i]@, k) by {
                        assert(K::before(self.keys[i]@, k));
                    }
                }
                if r < n {
                    assert(left.values[r] == self.values[r]);
                }
                if h > 0 {
                    assert(left.children[r] == self.children[r]);
                }
            } else if k == mk {
                assert(self.is_rank(k, n)) by {
                    assert forall|i: int| 0 <= i < n implies K::before(#[trigger] self.keys[i]@, k) by {
                        assert(K::before(self.keys[i]@, self.keys[n]@));
                    }
                }
            } else {
                assert(K::before(mk, k));
                assert(r >= n + 1) by {
                    if r <= n {
                        if r < n {
                            assert(K::before(self.keys[r]@, self.keys[n]@));
                        }
                    }
                }
                assert(right.is_rank(k, r - n - 1)) by {
                    assert forall|i: int| 0 <= i < r - n - 1 implies K::before(
                        #[trigger] right.keys[i]@,
                        k,
                    ) by {
                        assert(K::before(self.keys[i + n + 1]@, k));
                    }
                }
                if r < 2 * n + 1 {
                    assert(right.values[r - n - 1] == self.values[r]);
                }
                if h > 0 {
                    assert(right.children[r - n - 1] == self.children[r]);
                }
            }
        }
    }

    /// A node with no pair and no child.
    fn empty() -> (node: Self)
        ensures
            forall|lo: Option<K::V>, hi: Option<K::V>, n: int|
                0 <= n ==> #[trigger] node.wf(lo, hi, 0, n, true),
            forall|k: K::V| #[trigger] node.find(k) == None::<V>,
    {
        let node = Node { keys: Vec::new(), values: Vec::new(), children: Vec::new() };
        assert forall|k: K::V| #[trigger] node.find(k) == None::<V> by {
            node.lemma_rank(k);
        }
        node
    }

    /// The place of `key` among the keys of this node, and whether the key at
    /// that place is `key` itself.
    fn position(&self, key: &K) -> (at: (usize, bool))
        ensures
            at.0 == self.rank(key@),
            at.0 <= self.keys.len(),
            at.1 <==> at.0 < self.keys.len() && self.keys[at.0 as int]@ == key@,
    {
        let count: usize = self.keys.len();
        let mut idx: usize = 0;
        proof {
            self.lemma_rank(key@);
            lemma_order_laws::<K>();
        }
        while idx < count
            invariant
                count == self.keys.len(),
                idx <= count,
                forall|j: int| 0 <= j < idx ==> K::before(#[trigger] self.keys[j]@, key@),
                forall|r: int| self.is_rank(key@, r) ==> r == self.rank(key@),
                forall|a: K::V| !#[trigger] K::before(a, a),
            decreases count - idx,
        {
            match key.compare(&self.keys[idx]) {
                Order::Less => {
                    assert(self.is_rank(key@, idx as int));
                    return (idx, false);
                },
                Order::Equal => {
                    assert(self.is_rank(key@, idx as int));
                    return (idx, true);
                },
                Order::Greater => {},
            }
            idx += 1;
        }
        assert(self.is_rank(key@, idx as int));
        (idx, false)
    }

    /// Searches the subtree for `key`.
    fn search(&self, key: &K) -> (found: Option<&V>)
        ensures
            match found {
                Some(v) => self.find(key@) == Some(*v),
                None => self.find(key@).is_none(),
            },
        decreases self,
    {
        let (idx, hit) = self.position(key);
        if hit && idx < self.values.len() {
            Some(&self.values[idx])
        } else if idx < self.children.len() {
            self.children[idx].search(key)
        } else {
            None
        }
    }

    /// `after` is this subtree once the value that a search for `k` finds, if
    /// it finds one, has been set to `v`; nothing else differs.
    spec fn path_changed(self, after: Self, k: K::V, v: Option<V>) -> bool
        decreases self,
    {
        let r = self.rank(k);
        &&& after.keys@ == self.keys@
        &&& if 0 <= r < self.keys.len() && r < self.values.len() && self.keys[r]@ == k {
            &&& v is Some
            &&& after.values@ == self.values@.update(r, v.unwrap())
            &&& after.children@ == self.children@
        } else if 0 <= r < self.children.len() {
            &&& after.values@ == self.values@
            &&& after.children@ == self.children@.update(r, after.children[r])
            &&& self.children[r].path_changed(after.children[r], k, v)
        } else {
            &&& v is None
            &&& after.values@ == self.values@
            &&& after.children@ == self.children@
        }
    }

    /// A change along the search path of `k` keeps the subtree well-formed
    /// and changes what a search finds for `k` alone.
    proof fn lemma_path_changed(
        self,
        after: Self,
        k: K::V,
        v: Option<V>,
        lo: Option<K::V>,
        hi: Option<K::V>,
        h: nat,
        n: int,
        min: int,
        max: int,
    )
        requires
            self.fits(lo, hi, h, n, min, max),
            self.path_changed(after, k, v),
        ensures
            after.fits(lo, hi, h, n, min, max),
            v is Some <==> self.find(k) is Some,
            forall|q: K::V|
                #[trigger] after.find(q) == (if q == k && v is Some {
                    v
                } else {
                    self.find(q)
                }),
        decreases self,
    {
        let r = self.rank(k);
        self.lemma_rank(k);
        if 0 <= r < self.keys.len() && r < self.values.len() && self.keys[r]@ == k {
            self.lemma_value_replaced(after, r, v.unwrap());
        } else if 0 <= r < self.children.len() {
            assert(h > 0);
            assert(self.children[r].fits(
                self.lower(lo, r),
                self.upper(hi, r),
                (h - 1) as nat,
                n,
                n,
                2 * n,
            ));
            self.children[r].lemma_path_changed(
                after.children[r],
                k,
                v,
                self.lower(lo, r),
                self.upper(hi, r),
                (h - 1) as nat,
                n,
                n,
                2 * n,
            );
            self.lemma_child_replaced(after, r, lo, hi, h, n, min, max);
            assert forall|q: K::V|
                #[trigger] after.find(q) == (if q == k && v is Some {
                    v
                } else {
                    self.find(q)
                }) by {
                self.lemma_rank(q);
            }
        } else {
            assert forall|q: K::V| #[trigger] after.find(q) == self.find(q) by {
                self.lemma_rank(q);
                after.lemma_rank(q);
                assert(after.is_rank(q, self.rank(q)));
            }
            assert forall|j: int| 0 <= j < after.children.len() implies (
            #[trigger] after.children[j]).fits(
                after.lower(lo, j),
                after.upper(hi, j),
                (h - 1) as nat,
                n,
                n,
                2 * n,
            ) by {
                assert(after.children[j] == self.children[j]);
            }
        }
    }

    /// Searches the subtree for `key` and hands out its value for change.
    fn search_mut(&mut self, key: &K) -> (found: Option<&mut V>)
        ensures
            match found {
                Some(v) => old(self).find(key@) == Some(*v) && old(self).path_changed(
                    *final(self),
                    key@,
                    Some(*final(v)),
                ),
                None => old(self).find(key@).is_none() && old(self).path_changed(
                    *final(self),
                    key@,
                    None,
                ),
            },
        decreases *old(self),
    {
        let (idx, hit) = self.position(key);
        if hit && idx < self.values.len() {
            Some(&mut self.values[idx])
        } else if idx < self.children.len() {
            self.children[idx].search_mut(key)
        } else {
            None
        }
    }

    /// The pairs of the first `j` children and of the first `j` places of
    /// this node, in key order.
    spec fn walk_upto(self, j: int) -> Seq<(K, V)>
        decreases self, j,
    {
        if j <= 0 || j > self.keys.len() || j > self.values.len() {
            Seq::empty()
        } else {
            self.walk_upto(j - 1) + self.walk_child(j - 1) + seq![(self.keys[j - 1], self.values[j - 1])]
        }
    }

    /// The pairs of child `j` in key order; none where there is no such child.
    spec fn walk_child(self, j: int) -> Seq<(K, V)>
        decreases self, 0int,
    {
        if 0 <= j < self.children.len() {
            self.children[j].walk()
        } else {
            Seq::empty()
        }
    }

    /// The pairs of the subtree in key order.
    spec fn walk(self) -> Seq<(K, V)>
        decreases self, self.keys.len() + 1,
    {
        self.walk_upto(self.keys.len() as int) + self.walk_child(self.keys.len() as int)
    }

    /// The pairs in `pairs` ascend by key, lie between the bounds, and are
    /// found by a search from this node.
    spec fn lists(self, pairs: Seq<(K, V)>, lo: Option<K::V>, hi: Option<K::V>) -> bool {
        &&& forall|i: int, j: int|
            0 <= i < j < pairs.len() ==> K::before((#[trigger] pairs[i]).0@, (#[trigger] pairs[j]).0@)
        &&& forall|i: int|
            0 <= i < pairs.len() ==> {
                &&& above::<K>(lo, (#[trigger] pairs[i]).0@)
                &&& below::<K>(pairs[i].0@, hi)
                &&& self.find(pairs[i].0@) == Some(pairs[i].1)
            }
    }

    /// The walk of a well-formed subtree ascends by key, stays between the
    /// bounds of the subtree, and holds exactly the pairs that a search finds.
    proof fn lemma_walk(self, lo: Option<K::V>, hi: Option<K::V>, h: nat, n: int, min: int, max: int)
        requires
            self.fits(lo, hi, h, n, min, max),
        ensures
            self.lists(self.walk(), lo, hi),
            forall|k: K::V|
                self.find(k) is Some ==> exists|i: int|
                    0 <= i < self.walk().len() && (#[trigger] self.walk()[i]).0@ == k,
        decreases self, self.keys.len() + 2,
    {
        let len = self.keys.len() as int;
        self.lemma_walk_upto(len, lo, hi, h, n, min, max);
        self.lemma_walk_child(len, lo, hi, h, n, min, max);
        let a = self.walk_upto(len);
        let b = self.walk_child(len);
        let w = self.walk();
        lemma_order_laws::<K>();
        assert forall|i: int, j: int| 0 <= i < j < w.len() implies K::before(
            (#[trigger] w[i]).0@,
            (#[trigger] w[j]).0@,
        ) by {
            if j >= a.len() && i < a.len() {
                assert(w[i] == a[i]);
                assert(w[j] == b[j - a.len()]);
                assert(len > 0);
                assert(K::before(a[i].0@, self.keys[len - 1]@) || a[i].0@ == self.keys[len - 1]@);
                assert(above::<K>(self.lower(lo, len), b[j - a.len()].0@));
            } else if i >= a.len() {
                assert(w[i] == b[i - a.len()]);
                assert(w[j] == b[j - a.len()]);
            } else {
                assert(w[i] == a[i]);
                assert(w[j] == a[j]);
            }
        }
        assert forall|i: int| 0 <= i < w.len() implies {
            &&& above::<K>(lo, (#[trigger] w[i]).0@)
            &&& below::<K>(w[i].0@, hi)
            &&& self.find(w[i].0@) == Some(w[i].1)
        } by {
            if i < a.len() {
                assert(w[i] == a[i]);
            } else {
                assert(w[i] == b[i - a.len()]);
            }
        }
        assert forall|k: K::V| self.find(k) is Some implies exists|i: int|
            0 <= i < self.walk().len() && (#[trigger] self.walk()[i]).0@ == k by {
            self.lemma_rank(k);
            let r = self.rank(k);
            if r < len {
                let i = choose|i: int| 0 <= i < a.len() && (#[trigger] a[i]).0@ == k;
                assert(w[i] == a[i]);
            } else {
                assert(self.descends(k, len));
                let i = choose|i: int| 0 <= i < b.len() && (#[trigger] b[i]).0@ == k;
                assert(w[a.len() + i] == b[i]);
            }
        }
    }

    /// The walk of child `j`, seen from this node.
    proof fn lemma_walk_child(
        self,
        j: int,
        lo: Option<K::V>,
        hi: Option<K::V>,
        h: nat,
        n: int,
        min: int,
        max: int,
    )
        requires
            self.fits(lo, hi, h, n, min, max),
            0 <= j <= self.keys.len(),
        ensures
            self.lists(self.walk_child(j), self.lower(lo, j), self.upper(hi, j)),
            forall|k: K::V|
                self.find(k) is Some && self.descends(k, j) ==> exists|i: int|
                    0 <= i < self.walk_child(j).len() && (#[trigger] self.walk_child(j)[i]).0@ == k,
        decreases self, 0int,
    {
        lemma_order_laws::<K>();
        if h > 0 {
            let c = self.children[j];
            c.lemma_walk(self.lower(lo, j), self.upper(hi, j), (h - 1) as nat, n, n, 2 * n);
            let w = c.walk();
            assert forall|i: int| 0 <= i < w.len() implies self.find((#[trigger] w[i]).0@) == Some(
                w[i].1,
            ) by {
                let k = w[i].0@;
                self.lemma_rank(k);
                assert(self.is_rank(k, j)) by {
                    assert forall|t: int| 0 <= t < j implies K::before(
                        #[trigger] self.keys[t]@,
                        k,
                    ) by {
                        if t < j - 1 {
                            assert(K::before(self.keys[t]@, self.keys[j - 1]@));
                        }
                    }
                }
            }
            assert forall|k: K::V| self.find(k) is Some && self.descends(k, j) implies exists|
                i: int,
            |
                0 <= i < self.walk_child(j).len() && (#[trigger] self.walk_child(j)[i]).0@ == k by {
                self.lemma_rank(k);
                assert(c.find(k) is Some);
                assert(self.walk_child(j) == w);
                let i = choose|i: int| 0 <= i < w.len() && (#[trigger] w[i]).0@ == k;
                assert(self.walk_child(j)[i] == w[i]);
            }
        } else {
            assert forall|k: K::V| self.find(k) is Some && self.descends(k, j) implies exists|
                i: int,
            |
                0 <= i < self.walk_child(j).len() && (#[trigger] self.walk_child(j)[i]).0@ == k by {
                self.lemma_rank(k);
            }
        }
    }

    /// The walk of the first `j` children and places.
    proof fn lemma_walk_upto(
        self,
        j: int,
        lo: Option<K::V>,
        hi: Option<K::V>,
        h: nat,
        n: int,
        min: int,
        max: int,
    )
        requires
            self.fits(lo, hi, h, n, min, max),
            0 <= j <= self.keys.len(),
        ensures
            self.lists(self.walk_upto(j), lo, if j == 0 { lo } else { self.upper(hi, j) }) || j == 0,
            self.lists(self.walk_upto(j), lo, hi),
            j > 0 ==> forall|i: int|
                0 <= i < self.walk_upto(j).len() ==> K::before(
                    (#[trigger] self.walk_upto(j)[i]).0@,
                    self.keys[j - 1]@,
                ) || self.walk_upto(j)[i].0@ == self.keys[j - 1]@,
            forall|k: K::V|
                self.find(k) is Some && self.rank(k) < j ==> exists|i: int|
                    0 <= i < self.walk_upto(j).len() && (#[trigger] self.walk_upto(j)[i]).0@ == k,
        decreases self, j + 1,
    {
        lemma_order_laws::<K>();
        if j > 0 {
            self.lemma_walk_upto(j - 1, lo, hi, h, n, min, max);
            self.lemma_walk_child(j - 1, lo, hi, h, n, min, max);
            let a = self.walk_upto(j - 1);
            let b = self.walk_child(j - 1);
            let me = (self.keys[j - 1], self.values[j - 1]);
            let mk = self.keys[j - 1]@;
            let w = self.walk_upto(j);
            assert(w == a + b + seq![me]);
            assert(w.len() == a.len() + b.len() + 1);
            assert forall|i: int| 0 <= i < w.len() implies w[i] == (if i < a.len() {
                a[i]
            } else if i < a.len() + b.len() {
                b[i - a.len()]
            } else {
                me
            }) by {}
            self.lemma_rank(mk);
            assert(self.is_rank(mk, j - 1)) by {
                assert forall|t: int| 0 <= t < j - 1 implies K::before(#[trigger] self.keys[t]@, mk) by {
                    assert(K::before(self.keys[t]@, self.keys[j - 1]@));
                }
            }
            assert(self.find(mk) == Some(me.1));
            assert(above::<K>(lo, mk) && below::<K>(mk, hi));
            // everything before the pair at `j - 1` is below its key
            assert forall|i: int| 0 <= i < a.len() + b.len() implies K::before(
                (#[trigger] w[i]).0@,
                mk,
            ) by {
                if i < a.len() {
                    if j - 1 > 0 {
                        assert(K::before(a[i].0@, self.keys[j - 2]@) || a[i].0@ == self.keys[j - 2]@);
                        assert(K::before(self.keys[j - 2]@, self.keys[j - 1]@));
                    }
                } else {
                    assert(below::<K>(b[i - a.len()].0@, self.upper(hi, j - 1)));
                }
            }
            assert forall|i: int, t: int| 0 <= i < t < w.len() implies K::before(
                (#[trigger] w[i]).0@,
                (#[trigger] w[t]).0@,
            ) by {
                if t < a.len() {
                    assert(K::before(a[i].0@, a[t].0@));
                } else if t < a.len() + b.len() {
                    if i < a.len() {
                        if j - 1 > 0 {
                            assert(K::before(a[i].0@, self.keys[j - 2]@) || a[i].0@ == self.keys[j
                                - 2]@);
                            assert(above::<K>(self.lower(lo, j - 1), b[t - a.len()].0@));
                        }
                    } else {
                        assert(K::before(b[i - a.len()].0@, b[t - a.len()].0@));
                    }
                } else {
                    assert(K::before(w[i].0@, mk));
                }
            }
            assert forall|i: int| 0 <= i < w.len() implies {
                &&& above::<K>(lo, (#[trigger] w[i]).0@)
                &&& below::<K>(w[i].0@, hi)
                &&& self.find(w[i].0@) == Some(w[i].1)
            } by {
                if i < a.len() {
                } else if i < a.len() + b.len() {
                    let x = b[i - a.len()];
                    assert(above::<K>(self.lower(lo, j - 1), x.0@));
                    assert(below::<K>(x.0@, self.upper(hi, j - 1)));
                    if j - 1 > 0 {
                        assert(above::<K>(lo, self.keys[j - 2]@));
                    }
                }
            }
            assert forall|k: K::V| self.find(k) is Some && self.rank(k) < j implies exists|i: int|
                0 <= i < self.walk_upto(j).len() && (#[trigger] self.walk_upto(j)[i]).0@ == k by {
                self.lemma_rank(k);
                let r = self.rank(k);
                if r < j - 1 {
                    let i = choose|i: int| 0 <= i < a.len() && (#[trigger] a[i]).0@ == k;
                    assert(w[i] == a[i]);
                } else if self.keys[j - 1]@ == k {
                    assert(w[(a.len() + b.len()) as int] == me);
                } else {
                    assert(self.descends(k, j - 1));
                    let i = choose|i: int| 0 <= i < b.len() && (#[trigger] b[i]).0@ == k;
                    assert(w[a.len() + i] == b[i]);
                }
            }
        } else {
            assert forall|k: K::V| self.find(k) is Some && self.rank(k) < j implies exists|i: int|
                0 <= i < self.walk_upto(j).len() && (#[trigger] self.walk_upto(j)[i]).0@ == k by {
                self.lemma_rank(k);
            }
        }
    }

    /// Appends the pairs of the subtree to `out` in key order.
    fn collect<'a>(
        &'a self,
        out: &mut Vec<(&'a K, &'a V)>,
        Ghost(lo): Ghost<Option<K::V>>,
        Ghost(hi): Ghost<Option<K::V>>,
        Ghost(h): Ghost<nat>,
        Ghost(n): Ghost<int>,
        Ghost(min): Ghost<int>,
    )
        requires
            self.fits(lo, hi, h, n, min, 2 * n),
        ensures
            final(out)@.len() == old(out)@.len() + self.walk().len(),
            forall|i: int| 0 <= i < old(out)@.len() ==> final(out)@[i] == old(out)@[i],
            forall|i: int|
                0 <= i < self.walk().len() ==> *(#[trigger] final(out)@[old(out)@.len() + i]).0
                    == self.walk()[i].0 && *final(out)@[old(out)@.len() + i].1 == self.walk()[i].1,
        decreases self,
    {
        let count: usize = self.keys.len();
        let mut j: usize = 0;
        let ghost start = out@.len();
        while j < count
            invariant
                j <= count,
                count == self.keys.len(),
                self.fits(lo, hi, h, n, min, 2 * n),
                start == old(out)@.len(),
                out@.len() == start + self.walk_upto(j as int).len(),
                forall|i: int| 0 <= i < start ==> out@[i] == old(out)@[i],
                forall|i: int|
                    0 <= i < self.walk_upto(j as int).len() ==> *(#[trigger] out@[start + i]).0
                        == self.walk_upto(j as int)[i].0 && *out@[start + i].1 == self.walk_upto(
                        j as int,
                    )[i].1,
            decreases count - j,
        {
            let ghost before = out@;
            if j < self.children.len() {
                assert(self.children[j as int].fits(
                    self.lower(lo, j as int),
                    self.upper(hi, j as int),
                    (h - 1) as nat,
                    n,
                    n,
                    2 * n,
                ));
                self.children[j].collect(
                    out,
                    Ghost(self.lower(lo, j as int)),
                    Ghost(self.upper(hi, j as int)),
                    Ghost((h - 1) as nat),
                    Ghost(n),
                    Ghost(n),
                );
            }
            out.push((&self.keys[j], &self.values[j]));
            proof {
                let a = self.walk_upto(j as int);
                let b = self.walk_child(j as int);
                let w = self.walk_upto(j + 1);
                assert(w == a + b + seq![(self.keys[j as int], self.values[j as int])]);
                assert forall|i: int| 0 <= i < w.len() implies *(#[trigger] out@[start + i]).0
                    == w[i].0 && *out@[start + i].1 == w[i].1 by {
                    if i < a.len() {
                        assert(out@[start + i] == before[start + i]);
                        assert(w[i] == a[i]);
                    } else if i < a.len() + b.len() {
                        assert(w[i] == b[i - a.len()]);
                        assert(out@[before.len() + (i - a.len())] == out@[start + i]);
                    } else {
                    }
                }
            }
            j += 1;
        }
        let ghost before = out@;
        if count < self.children.len() {
            assert(self.children[count as int].fits(
                self.lower(lo, count as int),
                self.upper(hi, count as int),
                (h - 1) as nat,
                n,
                n,
                2 * n,
            ));
            self.children[count].collect(
                out,
                Ghost(self.lower(lo, count as int)),
                Ghost(self.upper(hi, count as int)),
                Ghost((h - 1) as nat),
                Ghost(n),
                Ghost(n),
            );
        }
        proof {
            let len = self.keys.len() as int;
            let a = self.walk_upto(len);
            let b = self.walk_child(len);
            let w = self.walk();
            assert forall|i: int| 0 <= i < w.len() implies *(#[trigger] out@[start + i]).0
                == w[i].0 && *out@[start + i].1 == w[i].1 by {
                if i < a.len() {
                    assert(out@[start + i] == before[start + i]);
                    assert(w[i] == a[i]);
                } else {
                    assert(w[i] == b[i - a.len()]);
                    assert(out@[before.len() + (i - a.len())] == out@[start + i]);
                }
            }
        }
    }

    /// A search in `self` finds what it found in `before`, but for `k`, under
    /// which it finds `v`.
    spec fn finds_with(self, before: Self, k: K::V, v: V) -> bool {
        forall|q: K::V|
            #[trigger] self.find(q) == (if q == k {
                Some(v)
            } else {
                before.find(q)
            })
    }

    /// What a search finds in two subtrees with one pair between them.
    spec fn find_around(self, mk: K::V, mv: V, right: Self, q: K::V) -> Option<V> {
        if K::before(q, mk) {
            self.find(q)
        } else if q == mk {
            Some(mv)
        } else {
            right.find(q)
        }
    }

    /// A search in the two halves of a split finds what it found in `before`,
    /// but for `k`, under which it finds `v`.
    spec fn halves_find_with(self, mk: K::V, mv: V, right: Self, before: Self, k: K::V, v: V) -> bool {
        forall|q: K::V|
            #[trigger] self.find_around(mk, mv, right, q) == (if q == k {
                Some(v)
            } else {
                before.find(q)
            })
    }

    /// The step of an insertion at a node whose child `idx` took the pair
    /// without a split.
    proof fn lemma_insert_below(
        self,
        after: Self,
        idx: int,
        k: K::V,
        v: V,
        lo: Option<K::V>,
        hi: Option<K::V>,
        h: nat,
        n: int,
        min: int,
        max: int,
    )
        requires
            self.fits(lo, hi, h, n, min, max),
            0 <= idx < self.children.len(),
            self.descends(k, idx),
            after.keys@ == self.keys@,
            after.values@ == self.values@,
            after.children@ == self.children@.update(idx, after.children[idx]),
            after.children[idx].fits(
                self.lower(lo, idx),
                self.upper(hi, idx),
                (h - 1) as nat,
                n,
                n,
                2 * n,
            ),
            after.children[idx].finds_with(self.children[idx], k, v),
        ensures
            after.fits(lo, hi, h, n, min, max),
            after.finds_with(self, k, v),
            self.find(k) == self.children[idx].find(k),
    {
        self.lemma_child_replaced(after, idx, lo, hi, h, n, min, max);
        assert forall|q: K::V|
            #[trigger] after.find(q) == (if q == k {
                Some(v)
            } else {
                self.find(q)
            }) by {
            assert(after.children[idx].find(q) == (if q == k {
                Some(v)
            } else {
                self.children[idx].find(q)
            }));
        }
    }

    /// The step of an insertion at a node that took a pair at `idx`: the pair
    /// itself at a leaf, or else the middle pair of child `idx`, which was
    /// split.
    proof fn lemma_insert_here(
        self,
        after: Self,
        idx: int,
        nk: K::V,
        nv: V,
        k: K::V,
        v: V,
        lo: Option<K::V>,
        hi: Option<K::V>,
        h: nat,
        n: int,
        min: int,
        max: int,
    )
        requires
            self.fits(lo, hi, h, n, min, max),
            0 <= idx <= self.keys.len(),
            self.descends(k, idx),
            above::<K>(self.lower(lo, idx), nk),
            below::<K>(nk, self.upper(hi, idx)),
            after.keys@.len() == self.keys@.len() + 1,
            after.keys[idx]@ == nk,
            forall|i: int| 0 <= i < idx ==> (#[trigger] after.keys[i])@ == self.keys[i]@,
            forall|i: int|
                idx < i < after.keys.len() ==> (#[trigger] after.keys[i])@ == self.keys[i - 1]@,
            after.values@ == self.values@.insert(idx, nv),
            h == 0 ==> after.children.len() == 0 && nk == k && nv == v,
            h > 0 ==> {
                &&& after.children.len() == self.children.len() + 1
                &&& forall|j: int| 0 <= j < idx ==> #[trigger] after.children[j] == self.children[j]
                &&& forall|j: int|
                    idx + 1 < j < after.children.len() ==> #[trigger] after.children[j]
                        == self.children[j - 1]
                &&& after.children[idx].fits(self.lower(lo, idx), Some(nk), (h - 1) as nat, n, n, 2 * n)
                &&& after.children[idx + 1].fits(
                    Some(nk),
                    self.upper(hi, idx),
                    (h - 1) as nat,
                    n,
                    n,
                    2 * n,
                )
                &&& after.children[idx].halves_find_with(
                    nk,
                    nv,
                    after.children[idx + 1],
                    self.children[idx],
                    k,
                    v,
                )
            },
        ensures
            after.fits(lo, hi, h, n, min, max + 1),
            after.finds_with(self, k, v),
            self.find(k) == (if h == 0 {
                None
            } else {
                self.children[idx].find(k)
            }),
    {
        self.lemma_pair_added(after, idx, nk, nv, lo, hi, h, n, min, max);
        K::lt_irreflexive(nk);
        assert forall|q: K::V|
            #[trigger] after.find(q) == (if q == k {
                Some(v)
            } else {
                self.find(q)
            }) by {
            if h > 0 {
                let l = after.children[idx];
                let r = after.children[idx + 1];
                assert(l.find_around(nk, nv, r, q) == (if q == k {
                    Some(v)
                } else {
                    self.children[idx].find(q)
                }));
                assert(l.find_around(nk, nv, r, nk) == (if nk == k {
                    Some(v)
                } else {
                    self.children[idx].find(nk)
                }));
            }
        }
    }

    /// The last step of an insertion that split the node: what the parent
    /// gets back.
    proof fn lemma_insert_split(
        self,
        full: Self,
        left: Self,
        right: Self,
        k: K::V,
        v: V,
        lo: Option<K::V>,
        hi: Option<K::V>,
        h: nat,
        n: int,
    )
        requires
            n >= 1,
            full.fits(lo, hi, h, n, 2 * n + 1, 2 * n + 1),
            full.finds_with(self, k, v),
            left.keys@ == full.keys@.subrange(0, n),
            left.values@ == full.values@.subrange(0, n),
            right.keys@ == full.keys@.subrange(n + 1, 2 * n + 1),
            right.values@ == full.values@.subrange(n + 1, 2 * n + 1),
            h == 0 ==> left.children.len() == 0 && right.children.len() == 0,
            h > 0 ==> left.children@ == full.children@.subrange(0, n + 1) && right.children@
                == full.children@.subrange(n + 1, 2 * n + 2),
        ensures
            left.fits(lo, Some(full.keys[n]@), h, n, n, 2 * n),
            right.fits(Some(full.keys[n]@), hi, h, n, n, 2 * n),
            above::<K>(lo, full.keys[n]@),
            below::<K>(full.keys[n]@, hi),
            left.halves_find_with(full.keys[n]@, full.values[n], right, self, k, v),
    {
        full.lemma_split(left, right, lo, hi, h, n);
        let mk = full.keys[n]@;
        let mv = full.values[n];
        assert forall|q: K::V|
            #[trigger] left.find_around(mk, mv, right, q) == (if q == k {
                Some(v)
            } else {
                self.find(q)
            }) by {
            assert(full.find(q) == (if q == k {
                Some(v)
            } else {
                self.find(q)
            }));
            assert(full.find(q) == (if K::before(q, mk) {
                left.find(q)
            } else if q == mk {
                Some(mv)
            } else {
                right.find(q)
            }));
        }
    }

    /// The key that a search did not find at its place `idx` lies strictly
    /// between the keys around that place.
    proof fn lemma_place(self, k: K::V, idx: int, lo: Option<K::V>, hi: Option<K::V>)
        requires
            self.is_rank(k, idx),
            !(idx < self.keys.len() && self.keys[idx]@ == k),
            above::<K>(lo, k),
            below::<K>(k, hi),
        ensures
            above::<K>(self.lower(lo, idx), k),
            below::<K>(k, self.upper(hi, idx)),
            self.descends(k, idx),
    {
        self.lemma_rank(k);
        if idx < self.keys.len() {
            K::lt_total(k, self.keys[idx]@);
        }
    }

    /// Inserts a pair into the subtree under `p`, splitting nodes on the way
    /// back up. `n` is half the most pairs that a node may hold.
    #[verifier::rlimit(50)]
    fn insert_r(
        p: &mut Node<K, V>,
        key: K,
        value: V,
        n: usize,
        Ghost(lo): Ghost<Option<K::V>>,
        Ghost(hi): Ghost<Option<K::V>>,
        Ghost(h): Ghost<nat>,
        Ghost(min): Ghost<int>,
    ) -> (res: InsertResult<K, V>)
        requires
            1 <= n,
            2 * n + 2 <= usize::MAX,
            0 <= min <= n,
            old(p).fits(lo, hi, h, n as int, min, 2 * n),
            above::<K>(lo, key@),
            below::<K>(key@, hi),
        ensures
            match res {
                InsertResult::Replaced => {
                    &&& final(p).fits(lo, hi, h, n as int, min, 2 * n)
                    &&& old(p).find(key@).is_some()
                    &&& final(p).finds_with(*old(p), key@, value)
                },
                InsertResult::Finished => {
                    &&& final(p).fits(lo, hi, h, n as int, min, 2 * n)
                    &&& old(p).find(key@).is_none()
                    &&& final(p).finds_with(*old(p), key@, value)
                },
                InsertResult::Split { key: mk, value: mv, rchild } => {
                    &&& final(p).fits(lo, Some(mk@), h, n as int, n as int, 2 * n)
                    &&& rchild.fits(Some(mk@), hi, h, n as int, n as int, 2 * n)
                    &&& above::<K>(lo, mk@)
                    &&& below::<K>(mk@, hi)
                    &&& old(p).find(key@).is_none()
                    &&& final(p).halves_find_with(mk@, mv, rchild, *old(p), key@, value)
                },
            },
        decreases *old(p),
    {
        let ghost p0 = *p;
        let ghost gk = key@;
        let ghost gv = value;
        let (idx, hit) = p.position(&key);
        proof {
            p0.lemma_rank(gk);
        }
        if hit {
            p.values[idx] = value;
            proof {
                p0.lemma_value_replaced(*p, idx as int, gv);
            }
            return InsertResult::Replaced;
        }
        proof {
            p0.lemma_place(gk, idx as int, lo, hi);
        }
        let (new_key, new_value, rchild): (K, V, Option<Node<K, V>>) = if p.children.len() > 0 {
            assert(h > 0);
            assert(p0.children[idx as int].fits(
                p0.lower(lo, idx as int),
                p0.upper(hi, idx as int),
                (h - 1) as nat,
                n as int,
                n as int,
                2 * n,
            ));
            let res = Self::insert_r(
                &mut p.children[idx],
                key,
                value,
                n,
                Ghost(p0.lower(lo, idx as int)),
                Ghost(p0.upper(hi, idx as int)),
                Ghost((h - 1) as nat),
                Ghost(n as int),
            );
            match res {
                InsertResult::Split { key: k, value: v, rchild: rc } => (k, v, Some(rc)),
                InsertResult::Replaced => {
                    proof {
                        p0.lemma_insert_below(*p, idx as int, gk, gv, lo, hi, h, n as int, min, 2 * n);
                    }
                    return InsertResult::Replaced;
                },
                InsertResult::Finished => {
                    proof {
                        p0.lemma_insert_below(*p, idx as int, gk, gv, lo, hi, h, n as int, min, 2 * n);
                    }
                    return InsertResult::Finished;
                },
            }
        } else {
            assert(h == 0);
            (key, value, None)
        };
        let ghost nk = new_key@;
        let ghost nv = new_value;
        p.keys.insert(idx, new_key);
        p.values.insert(idx, new_value);
        match rchild {
            Some(rc) => {
                p.children.insert(idx + 1, rc);
            },
            None => {},
        }
        let ghost p2 = *p;
        proof {
            p0.lemma_insert_here(p2, idx as int, nk, nv, gk, gv, lo, hi, h, n as int, min, 2 * n);
        }
        if p.keys.len() <= 2 * n {
            return InsertResult::Finished;
        }
        let right_keys: Vec<K> = p.keys.split_off(n + 1);
        let right_values: Vec<V> = p.values.split_off(n + 1);
        let median_key: K = p.keys.pop().unwrap();
        let median_value: V = p.values.pop().unwrap();
        let right_children: Vec<Node<K, V>> = if p.children.len() > 0 {
            p.children.split_off(n + 1)
        } else {
            Vec::new()
        };
        let right = Node { keys: right_keys, values: right_values, children: right_children };
        proof {
            assert(p.keys@ =~= p2.keys@.subrange(0, n as int));
            assert(p.values@ =~= p2.values@.subrange(0, n as int));
            p0.lemma_insert_split(p2, *p, right, gk, gv, lo, hi, h, n as int);
        }
        InsertResult::Split { key: median_key, value: median_value, rchild: right }
    }
}

/// The most that half a node may hold.
pub const MAX_HALF_WIDTH: usize = 16384;

/// A B-tree with at most `2N` pairs and at most `2N + 1` children per node.
pub struct BTreeImpl<K: KeyOrder, V, const N: usize> {
    root: Node<K, V>,
    height: Ghost<nat>,
}

/// The tree with the branching that does best in practice: fifteen children
/// per node at most.
pub type BTree<K, V> = BTreeImpl<K, V, 7>;

impl<K: KeyOrder, V, const N: usize> View for BTreeImpl<K, V, N> {
    type V = Map<K::V, V>;

    /// The pairs that the tree holds.
    closed spec fn view(&self) -> Map<K::V, V> {
        Map::new(|k: K::V| self.root.find(k).is_some(), |k: K::V| self.root.find(k).unwrap())
    }
}

impl<K: KeyOrder, V, const N: usize> BTreeImpl<K, V, N> {
    /// The invariant of the tree: every leaf lies at the same depth, the keys
    /// of every node ascend and lie between the keys around the node in its
    /// parent, and every node but the root holds between `N` and `2N` pairs.
    pub closed spec fn well_formed(&self) -> bool {
        &&& 2 <= N <= MAX_HALF_WIDTH
        &&& self.root.wf(None, None, self.height@, N as int, true)
    }

    /// A tree without pairs.
    pub fn new() -> (tree: Self)
        requires
            2 <= N <= MAX_HALF_WIDTH,
        ensures
            tree.well_formed(),
            tree@ == Map::<K::V, V>::empty(),
    {
        let tree = Self { root: Node::empty(), height: Ghost(0) };
        assert(tree@ =~= Map::<K::V, V>::empty());
        tree
    }

    /// The value under `key`, or `None` where the tree holds no such key.
    pub fn lookup(&self, key: &K) -> (found: Option<&V>)
        ensures
            match found {
                Some(value) => self@.contains_key(key@) && *value == self@[key@],
                None => !self@.contains_key(key@),
            },
    {
        self.root.search(key)
    }

    /// The pairs of the tree in ascending key order.
    pub fn entries(&self) -> (out: Vec<(&K, &V)>)
        requires
            self.well_formed(),
        ensures
            forall|i: int, j: int|
                0 <= i < j < out@.len() ==> K::before((#[trigger] out@[i]).0@, (#[trigger] out@[j]).0@),
            forall|i: int|
                0 <= i < out@.len() ==> self@.contains_key((#[trigger] out@[i]).0@) && self@[out@[i].0@]
                    == *out@[i].1,
            forall|k: K::V|
                self@.contains_key(k) ==> exists|i: int|
                    0 <= i < out@.len() && (#[trigger] out@[i]).0@ == k,
    {
        let mut out: Vec<(&K, &V)> = Vec::new();
        self.root.collect(
            &mut out,
            Ghost(None),
            Ghost(None),
            Ghost(self.height@),
            Ghost(N as int),
            Ghost(0),
        );
        proof {
            let w = self.root.walk();
            self.root.lemma_walk(None, None, self.height@, N as int, 0, 2 * N);
            assert forall|i: int| 0 <= i < out@.len() implies *(#[trigger] out@[i]).0 == w[i].0
                && *out@[i].1 == w[i].1 by {
                assert(out@[0 + i] == out@[i]);
            }
            assert forall|k: K::V| self@.contains_key(k) implies exists|i: int|
                0 <= i < out@.len() && (#[trigger] out@[i]).0@ == k by {
                let i = choose|i: int| 0 <= i < w.len() && (#[trigger] w[i]).0@ == k;
                assert(out@[i].0@ == k);
            }
        }
        out
    }

    /// The value under `key`, open to change, or `None` where the tree holds
    /// no such key.
    fn access(&mut self, key: &K) -> (found: Option<&mut V>)
        requires
            old(self).well_formed(),
        ensures
            final(self).well_formed(),
            match found {
                Some(value) => {
                    &&& old(self)@.contains_key(key@)
                    &&& *value == old(self)@[key@]
                    &&& final(self)@ == old(self)@.insert(key@, *final(value))
                },
                None => {
                    &&& !old(self)@.contains_key(key@)
                    &&& final(self)@ == old(self)@
                },
            },
    {
        let ghost root = self.root;
        let ghost h = self.height@;
        proof {
            assert forall|after: Node<K, V>, v: Option<V>| #[trigger]
                root.path_changed(after, key@, v) implies {
                &&& after.wf(None, None, h, N as int, true)
                &&& forall|q: K::V|
                    #[trigger] after.find(q) == (if q == key@ && v is Some {
                        v
                    } else {
                        root.find(q)
                    })
            } by {
                root.lemma_path_changed(after, key@, v, None, None, h, N as int, 0, 2 * N);
            }
        }
        self.root.search_mut(key)
    }

    /// Sets the value under `key`; `Some(())` where the key was there.
    fn insert_wrap(&mut self, k: K, v: V) -> (replaced: Option<()>)
        requires
            old(self).well_formed(),
        ensures
            final(self).well_formed(),
            final(self)@ == old(self)@.insert(k@, v),
            replaced.is_some() <==> old(self)@.contains_key(k@),
    {
        let ghost before = self.root;
        let res = Node::insert_r(
            &mut self.root,
            k,
            v,
            N,
            Ghost(None),
            Ghost(None),
            Ghost(self.height@),
            Ghost(0),
        );
        match res {
            InsertResult::Split { key, value, rchild } => {
                let ghost left = self.root;
                let ghost mk = key@;
                let mut keys: Vec<K> = Vec::new();
                keys.push(key);
                let mut values: Vec<V> = Vec::new();
                values.push(value);
                let mut children: Vec<Node<K, V>> = Vec::new();
                let mut lower = Node::empty();
                std::mem::swap(&mut lower, &mut self.root);
                children.push(lower);
                children.push(rchild);
                self.root = Node { keys, values, children };
                self.height = Ghost((self.height@ + 1) as nat);
                proof {
                    let root = self.root;
                    K::lt_irreflexive(mk);
                    assert(root.children[0] == left);
                    assert(root.children[1] == rchild);
                    assert forall|j: int| 0 <= j < root.children.len() implies (
                    #[trigger] root.children[j]).fits(
                        root.lower(None, j),
                        root.upper(None, j),
                        (self.height@ - 1) as nat,
                        N as int,
                        N as int,
                        2 * N,
                    ) by {}
                    assert forall|q: K::V|
                        #[trigger] root.find(q) == (if q == k@ {
                            Some(v)
                        } else {
                            before.find(q)
                        }) by {
                        root.lemma_rank(q);
                        K::lt_total(q, mk);
                        K::lt_irreflexive(q);
                        if K::before(q, mk) && K::before(mk, q) {
                            K::lt_transitive(q, mk, q);
                        }
                        assert(root.keys[0]@ == mk);
                        if K::before(q, mk) || q == mk {
                            assert(root.is_rank(q, 0));
                        } else {
                            assert(root.is_rank(q, 1));
                        }
                        assert(root.find(q) == left.find_around(mk, value, rchild, q));
                    }
                    assert(self@ =~= old(self)@.insert(k@, v));
                }
                None
            },
            InsertResult::Replaced => {
                assert(self@ =~= old(self)@.insert(k@, v));
                Some(())
            },
            InsertResult::Finished => {
                assert(self@ =~= old(self)@.insert(k@, v));
                None
            },
        }
    }
}

impl<K: KeyOrder, V, const N: usize> MemTable<K, V> for BTreeImpl<K, V, N> {
    open spec fn wf(&self) -> bool {
        self.well_formed()
    }

    open spec fn contents(&self) -> Map<K::V, V> {
        self@
    }

    fn get(&mut self, key: &K) -> (found: Option<&mut V>) {
        self.access(key)
    }

    fn insert(&mut self, key: K, value: V) -> (replaced: Option<()>) {
        self.insert_wrap(key, value)
    }

    /// Pairs are taken out of sight by a tombstone, never out of the tree:
    /// nothing is removed.
    fn remove(&mut self, _key: &K) -> (removed: Result<(), ()>)
        ensures
            removed.is_err(),
    {
        Err(())
    }
}

} // verus!
