//! Owned byte strings, ordered lexicographically by unsigned byte value.

use crate::order::{KeyOrder, Order};
use std::cmp::Ordering;
use vstd::prelude::*;
use vstd::std_specs::cmp::{PartialEqSpecImpl, PartialOrdSpecImpl};

verus! {

/// Width in bytes of the chunks that comparisons take at once.
pub const LANE: usize = 16;

/// The first index at or behind `i` at which `a` and `b` stop agreeing: where
/// they differ, or where the shorter one ends.
pub open spec fn mismatch_from(a: Seq<u8>, b: Seq<u8>, i: int) -> int
    decreases a.len() - i,
{
    if i < 0 || i >= a.len() || i >= b.len() || a[i] != b[i] {
        i
    } else {
        mismatch_from(a, b, i + 1)
    }
}

/// Length of the longest prefix that `a` and `b` share.
pub open spec fn common_prefix_len(a: Seq<u8>, b: Seq<u8>) -> int {
    mismatch_from(a, b, 0)
}

/// Lexicographic order: the first differing byte decides, and a strict
/// prefix comes before its extensions.
pub open spec fn lex_order(a: Seq<u8>, b: Seq<u8>) -> Order {
    let k = common_prefix_len(a, b);
    if k == a.len() {
        if k == b.len() {
            Order::Equal
        } else {
            Order::Less
        }
    } else if k == b.len() {
        Order::Greater
    } else if a[k] < b[k] {
        Order::Less
    } else {
        Order::Greater
    }
}

/// `a` comes strictly before `b`.
pub open spec fn lex_lt(a: Seq<u8>, b: Seq<u8>) -> bool {
    lex_order(a, b) == Order::Less
}

/// `a` comes before `b` or equals it.
pub open spec fn lex_le(a: Seq<u8>, b: Seq<u8>) -> bool {
    lex_order(a, b) != Order::Greater
}

/// `k` is where `a` and `b` stop agreeing.
pub open spec fn stops_agreeing_at(a: Seq<u8>, b: Seq<u8>, k: int) -> bool {
    &&& 0 <= k <= a.len()
    &&& k <= b.len()
    &&& forall|j: int| 0 <= j < k ==> a[j] == b[j]
    &&& k < a.len() && k < b.len() ==> a[k] != b[k]
}

/// The scan from `i` ends at the one index where the two stop agreeing.
pub proof fn lemma_mismatch_from(a: Seq<u8>, b: Seq<u8>, i: int, k: int)
    requires
        0 <= i <= k,
        stops_agreeing_at(a, b, k),
    ensures
        mismatch_from(a, b, i) == k,
    decreases k - i,
{
    if i < k {
        lemma_mismatch_from(a, b, i + 1, k);
    }
}

/// The shared prefix ends where the two stop agreeing, and nowhere else.
pub proof fn lemma_common_prefix_len(a: Seq<u8>, b: Seq<u8>)
    ensures
        stops_agreeing_at(a, b, common_prefix_len(a, b)),
        forall|k: int| stops_agreeing_at(a, b, k) ==> k == common_prefix_len(a, b),
{
    lemma_scan_stops(a, b, 0);
    assert forall|k: int| stops_agreeing_at(a, b, k) implies k == common_prefix_len(a, b) by {
        lemma_mismatch_from(a, b, 0, k);
    }
}

proof fn lemma_scan_stops(a: Seq<u8>, b: Seq<u8>, i: int)
    requires
        0 <= i <= a.len(),
        i <= b.len(),
        forall|j: int| 0 <= j < i ==> a[j] == b[j],
    ensures
        stops_agreeing_at(a, b, mismatch_from(a, b, i)),
    decreases a.len() - i,
{
    if i >= a.len() || i >= b.len() || a[i] != b[i] {
    } else {
        lemma_scan_stops(a, b, i + 1);
    }
}

/// Every byte string equals itself in the order.
pub proof fn lemma_lex_reflexive(a: Seq<u8>)
    ensures
        lex_order(a, a) == Order::Equal,
        lex_le(a, a),
{
    lemma_common_prefix_len(a, a);
    assert(stops_agreeing_at(a, a, a.len() as int));
}

/// The order says `Equal` of two byte strings exactly when they are the same.
pub proof fn lemma_lex_equal(a: Seq<u8>, b: Seq<u8>)
    ensures
        lex_order(a, b) == Order::Equal <==> a == b,
{
    lemma_common_prefix_len(a, b);
    if a == b {
        lemma_lex_reflexive(a);
    }
    if lex_order(a, b) == Order::Equal {
        assert(a =~= b);
    }
}

/// Swapping the sides swaps `Less` and `Greater`.
pub proof fn lemma_lex_flip(a: Seq<u8>, b: Seq<u8>)
    ensures
        lex_order(a, b) == Order::Less <==> lex_order(b, a) == Order::Greater,
        lex_order(a, b) == Order::Equal <==> lex_order(b, a) == Order::Equal,
        lex_order(a, b) == Order::Greater <==> lex_order(b, a) == Order::Less,
{
    lemma_common_prefix_len(a, b);
    lemma_common_prefix_len(b, a);
    assert(stops_agreeing_at(b, a, common_prefix_len(a, b)));
}

/// Two byte strings that each come before or equal the other are the same.
pub proof fn lemma_lex_antisymmetric(a: Seq<u8>, b: Seq<u8>)
    requires
        lex_le(a, b),
        lex_le(b, a),
    ensures
        a == b,
{
    lemma_lex_flip(a, b);
    lemma_lex_equal(a, b);
}

/// The strict order is transitive.
pub proof fn lemma_lex_lt_transitive(a: Seq<u8>, b: Seq<u8>, c: Seq<u8>)
    requires
        lex_lt(a, b),
        lex_lt(b, c),
    ensures
        lex_lt(a, c),
{
    lemma_common_prefix_len(a, b);
    lemma_common_prefix_len(b, c);
    lemma_common_prefix_len(a, c);
    let k1 = common_prefix_len(a, b);
    let k2 = common_prefix_len(b, c);
    let m = if k1 < k2 { k1 } else { k2 };
    assert(stops_agreeing_at(a, c, m));
}

/// The order is transitive.
pub proof fn lemma_lex_transitive(a: Seq<u8>, b: Seq<u8>, c: Seq<u8>)
    requires
        lex_le(a, b),
        lex_le(b, c),
    ensures
        lex_le(a, c),
{
    lemma_lex_equal(a, b);
    lemma_lex_equal(b, c);
    if a != b && b != c {
        lemma_lex_lt_transitive(a, b, c);
    }
}

/// Any two byte strings are comparable.
pub proof fn lemma_lex_total(a: Seq<u8>, b: Seq<u8>)
    ensures
        lex_le(a, b) || lex_le(b, a),
        lex_lt(a, b) || a == b || lex_lt(b, a),
{
    lemma_lex_flip(a, b);
    lemma_lex_equal(a, b);
}

/// An owned byte string.
#[derive(Debug)]
pub struct ByteStream {
    data: Vec<u8>,
}

impl View for ByteStream {
    type V = Seq<u8>;

    closed spec fn view(&self) -> Seq<u8> {
        self.data@
    }
}

/// Whether the `LANE` bytes from `start` on are the same in both slices.
fn lane_eq(this: &[u8], other: &[u8], start: usize) -> (same: bool)
    requires
        start + LANE <= this@.len(),
        start + LANE <= other@.len(),
    ensures
        same <==> forall|j: int| start <= j < start + LANE ==> this@[j] == other@[j],
{
    let n: usize = this.len();
    let end: usize = start + LANE;
    let mut j: usize = start;
    while j < end
        invariant
            end == start + LANE,
            start <= j <= end,
            start + LANE <= this@.len(),
            start + LANE <= other@.len(),
            forall|t: int| start <= t < j ==> this@[t] == other@[t],
        decreases end - j,
    {
        if this[j] != other[j] {
            return false;
        }
        j += 1;
    }
    true
}

/// Three-way lexicographic comparison of two byte slices. Whole lanes are
/// compared at once while both sides have one left; the first lane that
/// differs and the tail are compared byte by byte.
pub fn compare_bytes(this: &[u8], other: &[u8]) -> (o: Order)
    ensures
        o == lex_order(this@, other@),
{
    let n: usize = this.len();
    let m: usize = other.len();
    let len: usize = if n < m { n } else { m };
    let mut start: usize = 0;
    while len - start > LANE
        invariant
            n == this@.len(),
            m == other@.len(),
            len <= n,
            len <= m,
            start <= len,
            forall|j: int| 0 <= j < start ==> this@[j] == other@[j],
        decreases len - start,
    {
        if !lane_eq(this, other, start) {
            break;
        }
        start += LANE;
    }
    let mut j: usize = start;
    while j < len
        invariant
            n == this@.len(),
            m == other@.len(),
            len <= n,
            len <= m,
            j <= len,
            forall|t: int| 0 <= t < j ==> this@[t] == other@[t],
        decreases len - j,
    {
        let left: u8 = this[j];
        let right: u8 = other[j];
        if left != right {
            proof {
                lemma_common_prefix_len(this@, other@);
                assert(stops_agreeing_at(this@, other@, j as int));
            }
            if left < right {
                return Order::Less;
            } else {
                return Order::Greater;
            }
        }
        j += 1;
    }
    proof {
        lemma_common_prefix_len(this@, other@);
        assert(stops_agreeing_at(this@, other@, len as int));
    }
    if n < m {
        Order::Less
    } else if n == m {
        Order::Equal
    } else {
        Order::Greater
    }
}

/// Length of the longest prefix that two byte slices share.
pub fn shared_prefix_len(this: &[u8], other: &[u8]) -> (k: usize)
    ensures
        k == common_prefix_len(this@, other@),
{
    let n: usize = this.len();
    let m: usize = other.len();
    let len: usize = if n < m { n } else { m };
    let mut k: usize = 0;
    while k < len && this[k] == other[k]
        invariant
            n == this@.len(),
            m == other@.len(),
            len <= n,
            len <= m,
            k <= len,
            forall|t: int| 0 <= t < k ==> this@[t] == other@[t],
        decreases len - k,
    {
        k += 1;
    }
    proof {
        lemma_common_prefix_len(this@, other@);
        assert(stops_agreeing_at(this@, other@, k as int));
    }
    k
}

impl ByteStream {
    /// The byte string that holds `bytes`.
    pub fn from_vec(bytes: Vec<u8>) -> (s: Self)
        ensures
            s@ == bytes@,
    {
        Self { data: bytes }
    }

    /// The byte string that holds a copy of `bytes`.
    pub fn from_slice(bytes: &[u8]) -> (s: Self)
        ensures
            s@ == bytes@,
    {
        Self { data: vstd::slice::slice_to_vec(bytes) }
    }

    /// The empty byte string.
    pub fn new() -> (s: Self)
        ensures
            s@ == Seq::<u8>::empty(),
    {
        Self { data: Vec::new() }
    }

    /// The bytes.
    pub fn as_ref(&self) -> (bytes: &[u8])
        ensures
            bytes@ == self@,
    {
        self.data.as_slice()
    }

    /// The number of bytes.
    pub fn len(&self) -> (n: usize)
        ensures
            n == self@.len(),
    {
        self.data.len()
    }

    /// Whether two byte slices hold the same bytes. Slices of different
    /// length differ without a look at their bytes; otherwise whole lanes are
    /// compared first and the tail byte by byte.
    pub fn ref_2_eq(this: &[u8], other: &[u8]) -> (same: bool)
        ensures
            same <==> this@ == other@,
    {
        let n: usize = this.len();
        let m: usize = other.len();
        if n != m {
            return false;
        }
        let mut start: usize = 0;
        while n - start > LANE
            invariant
                n == this@.len(),
                n == other@.len(),
                start <= n,
                forall|j: int| 0 <= j < start ==> this@[j] == other@[j],
            decreases n - start,
        {
            if !lane_eq(this, other, start) {
                return false;
            }
            start += LANE;
        }
        let mut j: usize = start;
        while j < n
            invariant
                n == this@.len(),
                n == other@.len(),
                j <= n,
                forall|t: int| 0 <= t < j ==> this@[t] == other@[t],
            decreases n - j,
        {
            if this[j] != other[j] {
                return false;
            }
            j += 1;
        }
        assert(this@ =~= other@);
        true
    }

    /// Whether this byte string holds the same bytes as `other`.
    pub fn ref_eq(&self, other: &[u8]) -> (same: bool)
        ensures
            same <==> self@ == other@,
    {
        Self::ref_2_eq(self.data.as_slice(), other)
    }

    /// Lexicographic comparison of two byte slices. Always `Some`.
    pub fn ref_2_partial_cmp(this: &[u8], other: &[u8]) -> (o: Option<Ordering>)
        ensures
            o == Some(to_ordering(lex_order(this@, other@))),
    {
        Some(into_ordering(compare_bytes(this, other)))
    }

    /// Lexicographic comparison of this byte string with `other`. Always
    /// `Some`.
    pub fn ref_partial_cmp(&self, other: &[u8]) -> (o: Option<Ordering>)
        ensures
            o == Some(to_ordering(lex_order(self@, other@))),
    {
        Self::ref_2_partial_cmp(self.data.as_slice(), other)
    }
}

/// The standard library's name for each outcome of a comparison.
pub open spec fn to_ordering(o: Order) -> Ordering {
    match o {
        Order::Less => Ordering::Less,
        Order::Equal => Ordering::Equal,
        Order::Greater => Ordering::Greater,
    }
}

/// Converts an outcome of a comparison to the standard library's type.
pub fn into_ordering(o: Order) -> (r: Ordering)
    ensures
        r == to_ordering(o),
{
    match o {
        Order::Less => Ordering::Less,
        Order::Equal => Ordering::Equal,
        Order::Greater => Ordering::Greater,
    }
}

impl Clone for ByteStream {
    fn clone(&self) -> (s: Self)
        ensures
            s@ == self@,
    {
        Self { data: self.data.clone() }
    }
}

impl PartialEq for ByteStream {
    fn eq(&self, other: &Self) -> (same: bool) {
        self.ref_eq(other.as_ref())
    }
}

impl PartialEqSpecImpl for ByteStream {
    open spec fn obeys_eq_spec() -> bool {
        true
    }

    open spec fn eq_spec(&self, other: &Self) -> bool {
        self@ == other@
    }
}

impl PartialOrd for ByteStream {
    fn partial_cmp(&self, other: &Self) -> (o: Option<Ordering>) {
        self.ref_partial_cmp(other.as_ref())
    }
}

impl PartialOrdSpecImpl for ByteStream {
    open spec fn obeys_partial_cmp_spec() -> bool {
        true
    }

    open spec fn partial_cmp_spec(&self, other: &Self) -> Option<Ordering> {
        Some(to_ordering(lex_order(self@, other@)))
    }
}

impl KeyOrder for ByteStream {
    open spec fn before(a: Seq<u8>, b: Seq<u8>) -> bool {
        lex_lt(a, b)
    }

    proof fn lt_irreflexive(a: Seq<u8>) {
        lemma_lex_reflexive(a);
    }

    proof fn lt_transitive(a: Seq<u8>, b: Seq<u8>, c: Seq<u8>) {
        lemma_lex_lt_transitive(a, b, c);
    }

    proof fn lt_total(a: Seq<u8>, b: Seq<u8>) {
        lemma_lex_total(a, b);
    }

    fn compare(&self, other: &Self) -> (o: Order) {
        proof {
            lemma_lex_flip(self@, other@);
            lemma_lex_equal(self@, other@);
        }
        compare_bytes(self.data.as_slice(), other.data.as_slice())
    }

    fn duplicate(&self) -> (k: Self) {
        self.clone()
    }
}

} // verus!
