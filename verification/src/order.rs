//! Total orders on keys, stated over the keys' views.

use vstd::prelude::*;

verus! {

/// How one key stands to another.
#[derive(Clone, Copy, Debug, PartialEq, Eq, Structural)]
pub enum Order {
    Less,
    Equal,
    Greater,
}

/// A key type with a strict total order on its views and an executable
/// three-way comparison that decides it.
pub trait KeyOrder: View + Sized {
    /// The strict order.
    spec fn before(a: Self::V, b: Self::V) -> bool;

    proof fn lt_irreflexive(a: Self::V)
        ensures
            !Self::before(a, a),
    ;

    proof fn lt_transitive(a: Self::V, b: Self::V, c: Self::V)
        requires
            Self::before(a, b),
            Self::before(b, c),
        ensures
            Self::before(a, c),
    ;

    proof fn lt_total(a: Self::V, b: Self::V)
        ensures
            Self::before(a, b) || a == b || Self::before(b, a),
    ;

    /// Compares two keys.
    fn compare(&self, other: &Self) -> (o: Order)
        ensures
            o == Order::Less <==> Self::before(self@, other@),
            o == Order::Equal <==> self@ == other@,
            o == Order::Greater <==> Self::before(other@, self@),
    ;

    /// A copy of the key.
    fn duplicate(&self) -> (k: Self)
        ensures
            k@ == self@,
    ;
}

/// The keys ascend strictly.
pub open spec fn keys_ascend<K: KeyOrder>(keys: Seq<K>) -> bool {
    forall|i: int, j: int|
        0 <= i < j < keys.len() ==> K::before((#[trigger] keys[i])@, (#[trigger] keys[j])@)
}

/// The place of the last key that is not above `value`, or -1 where every
/// key is above it.
pub fn lower_bound<K: KeyOrder>(vec: &Vec<K>, value: K) -> (at: i64)
    requires
        keys_ascend(vec@),
        vec@.len() <= i64::MAX,
    ensures
        -1 <= at < vec@.len(),
        forall|i: int| 0 <= i <= at ==> !K::before(value@, (#[trigger] vec@[i])@),
        forall|i: int| at < i < vec@.len() ==> K::before(value@, (#[trigger] vec@[i])@),
{
    let len: usize = vec.len();
    let mut left: usize = 0;
    let mut right: usize = len;
    while left < right
        invariant
            left <= right <= len,
            len == vec@.len(),
            len <= i64::MAX,
            keys_ascend(vec@),
            forall|i: int| 0 <= i < left ==> !K::before(value@, (#[trigger] vec@[i])@),
            forall|i: int| right <= i < len ==> K::before(value@, (#[trigger] vec@[i])@),
        decreases right - left,
    {
        let mid: usize = left + (right - left) / 2;
        let ghost m = vec@[mid as int]@;
        proof {
            K::lt_irreflexive(value@);
            K::lt_total(value@, m);
        }
        match value.compare(&vec[mid]) {
            Order::Less => {
                proof {
                    assert forall|i: int| mid <= i < len implies K::before(
                        value@,
                        (#[trigger] vec@[i])@,
                    ) by {
                        if i > mid {
                            K::lt_transitive(value@, m, vec@[i]@);
                        }
                    }
                }
                right = mid;
            },
            Order::Greater => {
                proof {
                    assert forall|i: int| 0 <= i < mid + 1 implies !K::before(
                        value@,
                        (#[trigger] vec@[i])@,
                    ) by {
                        if K::before(value@, vec@[i]@) {
                            if i < mid {
                                K::lt_transitive(value@, vec@[i]@, m);
                            }
                            K::lt_transitive(value@, m, value@);
                        }
                    }
                }
                left = mid + 1;
            },
            Order::Equal => {
                proof {
                    assert forall|i: int| 0 <= i <= mid implies !K::before(
                        value@,
                        (#[trigger] vec@[i])@,
                    ) by {
                        if i < mid && K::before(value@, vec@[i]@) {
                            K::lt_transitive(m, vec@[i]@, m);
                            K::lt_irreflexive(m);
                        }
                    }
                    assert forall|i: int| mid < i < len implies K::before(
                        value@,
                        (#[trigger] vec@[i])@,
                    ) by {}
                }
                return mid as i64;
            },
        }
    }
    left as i64 - 1
}

impl KeyOrder for u64 {
    open spec fn before(a: u64, b: u64) -> bool {
        a < b
    }

    proof fn lt_irreflexive(a: u64) {
    }

    proof fn lt_transitive(a: u64, b: u64, c: u64) {
    }

    proof fn lt_total(a: u64, b: u64) {
    }

    fn compare(&self, other: &u64) -> (o: Order) {
        if *self < *other {
            Order::Less
        } else if *self == *other {
            Order::Equal
        } else {
            Order::Greater
        }
    }

    fn duplicate(&self) -> (k: u64) {
        *self
    }
}

} // verus!
