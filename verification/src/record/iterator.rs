//! What the engine's sorted runs hand out: pointers to one pair each, and
//! sources that yield such pointers in key order.

use crate::record::bytestream::{lex_lt, ByteStream};
use crate::record::kventry::{KvData, KvDataRef, KvEntry, RecordView};
use vstd::prelude::*;

verus! {

/// Key-value iterator (pointer) interface: one pair of a sorted run.
pub trait KvPointer {
    /// The key of the pair.
    spec fn spec_key(&self) -> Seq<u8>;

    /// The record of the pair.
    spec fn spec_value(&self) -> RecordView;

    /// Get key where iterator points to.
    fn key(&self) -> (k: &[u8])
        ensures
            k@ == self.spec_key(),
    ;

    /// Gets a reference to the pointing value.
    fn value(&self) -> (v: KvDataRef<'_>)
        ensures
            v@ == self.spec_value(),
    ;
}

/// A pair as plain values.
pub type Pair = (Seq<u8>, RecordView);

/// The pair that a pointer stands for.
pub open spec fn pair_of<P: KvPointer>(p: P) -> Pair {
    (p.spec_key(), p.spec_value())
}

/// The keys of the run ascend strictly.
pub open spec fn ascending(run: Seq<Pair>) -> bool {
    forall|i: int, j: int|
        0 <= i < j < run.len() ==> lex_lt((#[trigger] run[i]).0, (#[trigger] run[j]).0)
}

/// The pairs that a sequence of pointers stands for.
pub open spec fn pairs_of<P: KvPointer>(items: Seq<P>) -> Seq<Pair> {
    Seq::new(items.len(), |i: int| pair_of(items[i]))
}

/// The pairs among the first `upto` that are writes of their own and no
/// look-aside copies.
pub open spec fn live_upto(all: Seq<Pair>, upto: int) -> Seq<Pair>
    decreases upto,
{
    if upto <= 0 {
        Seq::empty()
    } else if all[upto - 1].1.is_cached() {
        live_upto(all, upto - 1)
    } else {
        live_upto(all, upto - 1).push(all[upto - 1])
    }
}

/// The pairs that are writes of their own and no look-aside copies.
pub open spec fn live(all: Seq<Pair>) -> Seq<Pair> {
    live_upto(all, all.len() as int)
}

/// The list holds the pairs of the table in ascending key order.
pub open spec fn lists_table(table: Map<Seq<u8>, KvEntry>, list: Seq<Pair>) -> bool {
    &&& ascending(list)
    &&& forall|i: int|
        0 <= i < list.len() ==> table.contains_key((#[trigger] list[i]).0) && table[list[i].0]@.record
            == list[i].1
    &&& forall|k: Seq<u8>|
        table.contains_key(k) ==> exists|i: int| 0 <= i < list.len() && (#[trigger] list[i]).0 == k
}

/// A forward iterator over the pairs of a run.
pub trait KvSource {
    type Pointer: KvPointer;

    /// The invariant of the source.
    spec fn wf(&self) -> bool;

    /// The pairs that the source has yet to yield, in the order in which it
    /// yields them.
    spec fn remaining(&self) -> Seq<Pair>;

    /// Yields the next pair, or `None` once the run is through.
    fn next(&mut self) -> (item: Option<Self::Pointer>)
        requires
            old(self).wf(),
        ensures
            final(self).wf(),
            match item {
                Some(p) => {
                    &&& old(self).remaining().len() > 0
                    &&& pair_of(p) == old(self).remaining()[0]
                    &&& final(self).remaining() == old(self).remaining().skip(1)
                },
                None => {
                    &&& old(self).remaining().len() == 0
                    &&& final(self).remaining() == old(self).remaining()
                },
            },
    ;
}

/// A pair of a memtable: a key with the entry stored under it.
pub struct EntryPointer<'a> {
    pub key: &'a ByteStream,
    pub entry: &'a KvEntry,
}

impl<'a> KvPointer for EntryPointer<'a> {
    open spec fn spec_key(&self) -> Seq<u8> {
        self.key@
    }

    open spec fn spec_value(&self) -> RecordView {
        self.entry.record@
    }

    fn key(&self) -> (k: &[u8]) {
        self.key.as_ref()
    }

    fn value(&self) -> (v: KvDataRef<'_>) {
        self.entry.record.as_ref()
    }
}

/// An owned pair.
pub struct OwnedPointer {
    pub key: ByteStream,
    pub data: KvData,
}

impl KvPointer for OwnedPointer {
    open spec fn spec_key(&self) -> Seq<u8> {
        self.key@
    }

    open spec fn spec_value(&self) -> RecordView {
        self.data@
    }

    fn key(&self) -> (k: &[u8]) {
        self.key.as_ref()
    }

    fn value(&self) -> (v: KvDataRef<'_>) {
        self.data.as_ref()
    }
}


/// A pair that is borrowed from somewhere else.
pub struct RefPointer<'a, P: KvPointer> {
    pub item: &'a P,
}

impl<'a, P: KvPointer> KvPointer for RefPointer<'a, P> {
    open spec fn spec_key(&self) -> Seq<u8> {
        self.item.spec_key()
    }

    open spec fn spec_value(&self) -> RecordView {
        self.item.spec_value()
    }

    fn key(&self) -> (k: &[u8]) {
        self.item.key()
    }

    fn value(&self) -> (v: KvDataRef<'_>) {
        self.item.value()
    }
}

/// A source that yields the pairs of a slice from front to back.
pub struct SliceSource<'a, P: KvPointer> {
    items: &'a [P],
    at: usize,
}

impl<'a, P: KvPointer> SliceSource<'a, P> {
    /// A source that has yet to yield all pairs of the slice.
    pub fn new(items: &'a [P]) -> (source: Self)
        ensures
            source.wf(),
            source.remaining() == pairs_of(items@),
    {
        let source = SliceSource { items, at: 0 };
        assert(pairs_of(items@).skip(0) =~= pairs_of(items@));
        source
    }
}

impl<'a, P: KvPointer> KvSource for SliceSource<'a, P> {
    type Pointer = RefPointer<'a, P>;

    closed spec fn wf(&self) -> bool {
        self.at <= self.items@.len()
    }

    closed spec fn remaining(&self) -> Seq<Pair> {
        pairs_of(self.items@).skip(self.at as int)
    }

    fn next(&mut self) -> (item: Option<Self::Pointer>) {
        if self.at < self.items.len() {
            let item = &self.items[self.at];
            proof {
                let all = pairs_of(self.items@);
                assert(all.skip(self.at as int).skip(1) =~= all.skip(self.at + 1));
            }
            self.at += 1;
            Some(RefPointer { item })
        } else {
            None
        }
    }
}


/// A pair from one of two kinds of sources.
pub enum EitherPointer<A: KvPointer, B: KvPointer> {
    Left(A),
    Right(B),
}

impl<A: KvPointer, B: KvPointer> KvPointer for EitherPointer<A, B> {
    open spec fn spec_key(&self) -> Seq<u8> {
        match self {
            EitherPointer::Left(a) => a.spec_key(),
            EitherPointer::Right(b) => b.spec_key(),
        }
    }

    open spec fn spec_value(&self) -> RecordView {
        match self {
            EitherPointer::Left(a) => a.spec_value(),
            EitherPointer::Right(b) => b.spec_value(),
        }
    }

    fn key(&self) -> (k: &[u8]) {
        match self {
            EitherPointer::Left(a) => a.key(),
            EitherPointer::Right(b) => b.key(),
        }
    }

    fn value(&self) -> (v: KvDataRef<'_>) {
        match self {
            EitherPointer::Left(a) => a.value(),
            EitherPointer::Right(b) => b.value(),
        }
    }
}

/// A source of one of two kinds, so that sources of both kinds can stand in
/// one list.
pub enum EitherSource<A: KvSource, B: KvSource> {
    Left(A),
    Right(B),
}

impl<A: KvSource, B: KvSource> KvSource for EitherSource<A, B> {
    type Pointer = EitherPointer<A::Pointer, B::Pointer>;

    open spec fn wf(&self) -> bool {
        match self {
            EitherSource::Left(a) => a.wf(),
            EitherSource::Right(b) => b.wf(),
        }
    }

    open spec fn remaining(&self) -> Seq<Pair> {
        match self {
            EitherSource::Left(a) => a.remaining(),
            EitherSource::Right(b) => b.remaining(),
        }
    }

    fn next(&mut self) -> (item: Option<Self::Pointer>) {
        match self {
            EitherSource::Left(a) => match a.next() {
                Some(p) => Some(EitherPointer::Left(p)),
                None => None,
            },
            EitherSource::Right(b) => match b.next() {
                Some(p) => Some(EitherPointer::Right(p)),
                None => None,
            },
        }
    }
}

} // verus!
