//! The engine: a memtable that takes the writes, frozen memtables that wait
//! to be written out, and sorted runs, searched in this order.

use crate::lsmt::transimpl::{
    abort_spec, awaited_deps, create_spec, entry_views, find_txn, may_go_on, read_lock_spec,
    readwrite_lock_spec, remove_spec, undo, wait_begin_spec, wait_end_spec, with_state,
    TransactionMgrImpl, TransactionState, TxnView,
};
use crate::memtable::btree::BTree;
use crate::memtable::MemTable;
use crate::order::{KeyOrder, Order};
use crate::record::bytestream::{
    compare_bytes, into_ordering, lex_le, lex_lt, to_ordering, ByteStream,
};
use std::cmp::Ordering;
use vstd::std_specs::cmp::PartialOrdSpecImpl;
use crate::record::iterator::{
    ascending, lists_table, live, pair_of, pairs_of, EitherSource, EntryPointer, KvPointer,
    KvSource, OwnedPointer, Pair, SliceSource,
};
use crate::record::kvmerge::{is_merge_of, remaining_of, KvMergeIterator};
use crate::sstable::reader::SSTableReaderIterator;
use crate::record::kventry::{EntryView, KvData, KvDataRef, KvEntry, RecordView};
use crate::sstable::format::{parse_table, table_bytes, SSTableError};
use crate::sstable::reader::SSTableReader;
use crate::sstable::writer::{staging_of, SSTableWriter, FLUSH_INTERVAL};
use vstd::prelude::*;

verus! {

/// The bytes that level 0 may hold before it is frozen, unless the engine is
/// made with another budget.
pub const DEFAULT_BUDGET: usize = 4194304;

/// Location of an SSTable. When comparing locations, the smaller one is
/// always the newer one.
#[derive(Clone, Copy, Debug, PartialEq, Eq, Structural)]
pub struct SSLoc {
    /// Tier. The larger it gets, the older it is.
    pub tier: u32,
    /// Run. In one tier, the larger the run is, the newer it is.
    pub run: u32,
}

impl SSLoc {
    /// How the location stands to another: `Less` where it is newer.
    pub open spec fn order(self, other: SSLoc) -> Order {
        if self.tier < other.tier {
            Order::Less
        } else if self.tier > other.tier {
            Order::Greater
        } else if self.run > other.run {
            Order::Less
        } else if self.run < other.run {
            Order::Greater
        } else {
            Order::Equal
        }
    }

    /// Whether the location is newer than another.
    pub open spec fn newer(self, other: SSLoc) -> bool {
        self.order(other) == Order::Less
    }

    /// Compares two locations: `Less` where this one is newer.
    pub fn compare(&self, other: &SSLoc) -> (o: Order)
        ensures
            o == self.order(*other),
    {
        if self.tier < other.tier {
            Order::Less
        } else if self.tier > other.tier {
            Order::Greater
        } else if self.run > other.run {
            Order::Less
        } else if self.run < other.run {
            Order::Greater
        } else {
            Order::Equal
        }
    }
}

impl PartialOrd for SSLoc {
    fn partial_cmp(&self, other: &Self) -> (o: Option<Ordering>) {
        Some(into_ordering(self.compare(other)))
    }
}

impl PartialOrdSpecImpl for SSLoc {
    open spec fn obeys_partial_cmp_spec() -> bool {
        true
    }

    /// The newer location is the smaller one.
    open spec fn partial_cmp_spec(&self, other: &Self) -> Option<Ordering> {
        Some(to_ordering(self.order(*other)))
    }
}

/// Why the engine did not change its runs.
#[derive(Clone, Copy, Debug, PartialEq, Eq, Structural)]
pub enum LsmError {
    /// There is no frozen memtable to take out.
    NothingFrozen,
    /// The engine has no such runs.
    NoSuchRuns,
    /// A run stands at the location.
    LocationTaken,
    /// The bytes are no run.
    Corrupt(SSTableError),
}

/// Whether a run stands at the location.
pub open spec fn has_run_at(runs: Seq<(SSLoc, SSTableReader)>, loc: SSLoc) -> bool {
    exists|i: int| 0 <= i < runs.len() && (#[trigger] runs[i]).0 == loc
}

/// `after` holds the runs of `before` and, at its place among them, a run
/// at the location `loc` with the given bytes, whose caches are empty.
pub open spec fn run_added(
    before: Seq<(SSLoc, SSTableReader)>,
    after: Seq<(SSLoc, SSTableReader)>,
    loc: SSLoc,
    bytes: Seq<u8>,
) -> bool {
    exists|pos: int|
        {
            &&& 0 <= pos <= before.len()
            &&& after.len() == before.len() + 1
            &&& (#[trigger] after[pos]).0 == loc
            &&& after[pos].1.bytes() == bytes
            &&& forall|key: Seq<u8>| #[trigger] after[pos].1.cached(key) is None
            &&& after.remove(pos) == before
        }
}

/// The runs are the same but for what their caches hold.
pub open spec fn same_runs(
    before: Seq<(SSLoc, SSTableReader)>,
    after: Seq<(SSLoc, SSTableReader)>,
) -> bool {
    &&& after.len() == before.len()
    &&& forall|i: int|
        0 <= i < before.len() ==> (#[trigger] after[i]).0 == before[i].0 && after[i].1.bytes()
            == before[i].1.bytes()
}

/// The bytes that a pair adds to level 0.
pub open spec fn pair_size(key: Seq<u8>, record: RecordView) -> int {
    key.len() + match record {
        RecordView::Tombstone { .. } => 0,
        RecordView::Value { value, .. } => value.len() as int,
    }
}

/// A count of bytes that stops at the largest number that the machine
/// holds.
pub open spec fn capped(bytes: int) -> int {
    if bytes > usize::MAX {
        usize::MAX as int
    } else {
        bytes
    }
}

/// Token for holding a transaction.
pub struct TransactionToken {
    ts: u64,
}

impl TransactionToken {
    /// The timestamp of the transaction.
    pub closed spec fn spec_ts(&self) -> u64 {
        self.ts
    }

    /// The timestamp of the transaction.
    pub fn ts(&self) -> (ts: u64)
        ensures
            ts == self.spec_ts(),
    {
        self.ts
    }
}

/// What the first of the tables from `from` on that holds the key says of
/// it.
pub open spec fn tables_lookup(tables: Seq<Map<Seq<u8>, KvEntry>>, key: Seq<u8>, from: int) -> Option<
    RecordView,
>
    decreases tables.len() - from,
{
    if from < 0 || from >= tables.len() {
        None
    } else if tables[from].contains_key(key) {
        Some(tables[from][key]@.record)
    } else {
        tables_lookup(tables, key, from + 1)
    }
}

/// What the first of the runs from `from` on that answers for the key says
/// of it.
pub open spec fn runs_lookup(runs: Seq<(SSLoc, SSTableReader)>, key: Seq<u8>, from: int) -> Option<
    RecordView,
>
    decreases runs.len() - from,
{
    if from < 0 || from >= runs.len() {
        None
    } else {
        match runs[from].1.answer(key) {
            Some(r) => Some(r),
            None => runs_lookup(runs, key, from + 1),
        }
    }
}

/// The contents of the frozen memtables.
pub open spec fn contents_of(tables: Seq<BTree<ByteStream, KvEntry>>) -> Seq<Map<Seq<u8>, KvEntry>> {
    Seq::new(tables.len(), |i: int| tables[i]@)
}

/// The runs stand in the order of their locations, the newest first.
pub open spec fn runs_sorted(runs: Seq<(SSLoc, SSTableReader)>) -> bool {
    forall|i: int, j: int|
        0 <= i < j < runs.len() ==> (#[trigger] runs[i]).0.newer((#[trigger] runs[j]).0)
}

/// The engine.
pub struct LsmTree {
    /// Transaction manager.
    trans: TransactionMgrImpl,
    /// Level 0 of the LSM tree, a read-write mapping.
    lv0: BTree<ByteStream, KvEntry>,
    /// Bytes of the keys and values that went into level 0.
    lv0_bytes: usize,
    /// Bytes that level 0 may hold before it is frozen.
    budget: usize,
    /// Level 1 contains a series of memtables pending flush to level 2. New
    /// trees are pushed to the front (i.e. lower index means newer data).
    lv1: Vec<BTree<ByteStream, KvEntry>>,
    /// More levels: the runs, the newest first.
    lvrest: Vec<(SSLoc, SSTableReader)>,
}

impl LsmTree {
    /// The transactions that the engine knows.
    pub closed spec fn transactions(&self) -> Seq<TxnView> {
        self.trans@
    }

    /// What level 0 holds.
    pub closed spec fn level0(&self) -> Map<Seq<u8>, KvEntry> {
        self.lv0@
    }

    /// What the frozen memtables hold, the newest first.
    pub closed spec fn level1(&self) -> Seq<Map<Seq<u8>, KvEntry>> {
        contents_of(self.lv1@)
    }

    /// The runs, the newest first.
    pub closed spec fn runs(&self) -> Seq<(SSLoc, SSTableReader)> {
        self.lvrest@
    }

    /// The bytes of the pairs that went into level 0 since it was fresh.
    pub closed spec fn level0_bytes(&self) -> int {
        self.lv0_bytes as int
    }

    /// The bytes that level 0 may hold before it is frozen.
    pub closed spec fn budget(&self) -> int {
        self.budget as int
    }

    /// The invariant of the engine.
    pub closed spec fn wf(&self) -> bool {
        &&& self.trans.wf()
        &&& self.lv0.well_formed()
        &&& forall|i: int| 0 <= i < self.lv1@.len() ==> (#[trigger] self.lv1@[i]).well_formed()
        &&& forall|i: int| 0 <= i < self.lvrest@.len() ==> (#[trigger] self.lvrest@[i]).1.wf()
        &&& runs_sorted(self.lvrest@)
    }

    /// What a read outside a transaction sees under `key`: what the first
    /// level that knows the key says of it, where a tombstone says that
    /// there is nothing.
    pub open spec fn visible(&self, key: Seq<u8>) -> Option<Seq<u8>> {
        if self.level0().contains_key(key) {
            self.level0()[key]@.record.visible()
        } else {
            match tables_lookup(self.level1(), key, 0) {
                Some(r) => r.visible(),
                None => match runs_lookup(self.runs(), key, 0) {
                    Some(r) => r.visible(),
                    None => None,
                },
            }
        }
    }

    /// An engine without data that freezes level 0 once it holds more than
    /// `budget` bytes.
    pub fn with_budget(budget: usize) -> (tree: Self)
        ensures
            tree.wf(),
            tree.budget() == budget,
            tree.level0_bytes() == 0,
            tree.transactions() == Seq::<TxnView>::empty(),
            tree.level0() == Map::<Seq<u8>, KvEntry>::empty(),
            tree.level1().len() == 0,
            tree.runs().len() == 0,
    {
        let tree = Self {
            trans: TransactionMgrImpl::new(),
            lv0: BTree::new(),
            lv0_bytes: 0,
            budget,
            lv1: Vec::new(),
            lvrest: Vec::new(),
        };
        assert(tree.level1() =~= Seq::empty());
        tree
    }

    /// An engine without data.
    pub fn new() -> (tree: Self)
        ensures
            tree.wf(),
            tree.budget() == DEFAULT_BUDGET,
            tree.level0_bytes() == 0,
            tree.transactions() == Seq::<TxnView>::empty(),
            tree.level0() == Map::<Seq<u8>, KvEntry>::empty(),
            tree.level1().len() == 0,
            tree.runs().len() == 0,
    {
        Self::with_budget(DEFAULT_BUDGET)
    }

    /// Create transaction.
    pub fn tr_create(&mut self, ts: u64) -> (token: TransactionToken)
        requires
            old(self).wf(),
        ensures
            final(self).wf(),
            final(self).budget() == old(self).budget(),
            final(self).level0_bytes() == old(self).level0_bytes(),
            token.spec_ts() == ts,
            final(self).transactions() == create_spec(old(self).transactions(), ts),
            final(self).level0() == old(self).level0(),
            final(self).level1() == old(self).level1(),
            final(self).runs() == old(self).runs(),
    {
        let _created = self.trans.create(ts);
        TransactionToken { ts }
    }

    /// Locks transaction resource as read-only at given key. A key that
    /// level 0 does not hold needs no lock.
    pub fn tr_lock_ro(&mut self, token: &TransactionToken, key: &ByteStream) -> (res: Result<(), ()>)
        requires
            old(self).wf(),
        ensures
            final(self).wf(),
            final(self).budget() == old(self).budget(),
            final(self).level0_bytes() == old(self).level0_bytes(),
            final(self).level1() == old(self).level1(),
            final(self).runs() == old(self).runs(),
            match (
                old(self).level0().contains_key(key@),
                find_txn(old(self).transactions(), token.spec_ts()),
            ) {
                (false, _) => {
                    &&& res is Ok
                    &&& final(self).transactions() == old(self).transactions()
                    &&& final(self).level0() == old(self).level0()
                },
                (true, Some(i)) => match read_lock_spec(
                    old(self).transactions()[i],
                    old(self).level0()[key@]@,
                ) {
                    Some((t, e)) => {
                        &&& res is Ok
                        &&& final(self).transactions() == old(self).transactions().update(i, t)
                        &&& entry_views(final(self).level0()) == entry_views(
                            old(self).level0(),
                        ).insert(key@, e)
                    },
                    None => {
                        &&& res is Err
                        &&& final(self).transactions() == old(self).transactions()
                        &&& entry_views(final(self).level0()) == entry_views(old(self).level0())
                    },
                },
                (true, None) => {
                    &&& res is Err
                    &&& final(self).transactions() == old(self).transactions()
                    &&& entry_views(final(self).level0()) == entry_views(old(self).level0())
                },
            },
    {
        // access entry in tree
        match self.lv0.get(key) {
            None => Ok(()),  // doesn't even exist in l0, safely read
            Some(entry) => {
                let res = self.trans.read_lock(token.ts, entry);
                proof {
                    assert(entry_views(old(self).lv0@.insert(key@, *entry)) =~= entry_views(
                        old(self).lv0@,
                    ).insert(key@, entry@));
                    assert(entry_views(old(self).lv0@).insert(key@, old(self).lv0@[key@]@)
                        =~= entry_views(old(self).lv0@));
                }
                res
            },
        }
    }

    /// Locks transaction resource as read-write at given key. A key that
    /// level 0 does not hold gets an entry with an empty value first.
    pub fn tr_lock_rw(&mut self, token: &TransactionToken, key: &ByteStream) -> (res: Result<(), ()>)
        requires
            old(self).wf(),
        ensures
            final(self).wf(),
            final(self).budget() == old(self).budget(),
            final(self).level0_bytes() == old(self).level0_bytes(),
            final(self).level1() == old(self).level1(),
            final(self).runs() == old(self).runs(),
            ({
                let before = if old(self).level0().contains_key(key@) {
                    old(self).level0()[key@]@
                } else {
                    EntryView {
                        ts_read: 0,
                        ts_write: 0,
                        record: RecordView::Value { cached: false, value: Seq::empty() },
                    }
                };
                match find_txn(old(self).transactions(), token.spec_ts()) {
                    Some(i) => match readwrite_lock_spec(
                        old(self).transactions()[i],
                        key@,
                        before,
                    ) {
                        Some((t, e)) => {
                            &&& res is Ok
                            &&& final(self).transactions() == old(self).transactions().update(i, t)
                            &&& entry_views(final(self).level0()) == entry_views(
                                old(self).level0(),
                            ).insert(key@, e)
                        },
                        None => {
                            &&& res is Err
                            &&& final(self).transactions() == old(self).transactions()
                            &&& entry_views(final(self).level0()) == entry_views(
                                old(self).level0(),
                            ).insert(key@, before)
                        },
                    },
                    None => {
                        &&& res is Err
                        &&& final(self).transactions() == old(self).transactions()
                        &&& entry_views(final(self).level0()) == entry_views(
                            old(self).level0(),
                        ).insert(key@, before)
                    },
                }
            }),
    {
        // try and find existing pair
        if self.lv0.lookup(key).is_none() {
            // insert new pair
            let _ = self.lv0.insert(
                key.clone(),
                KvEntry::new(KvData::Value { cached: false, value: ByteStream::new() }),
            );
        }
        let ghost mid = self.lv0@;
        proof {
            if old(self).lv0@.contains_key(key@) {
                assert(mid == old(self).lv0@);
                assert(entry_views(old(self).lv0@).insert(key@, old(self).lv0@[key@]@)
                    =~= entry_views(old(self).lv0@));
            } else {
                assert(entry_views(mid) =~= entry_views(old(self).lv0@).insert(key@, mid[key@]@));
            }
        }
        match self.lv0.get(key) {
            None => Err(()),
            Some(entry) => {
                let res = self.trans.readwrite_lock(token.ts, key, entry);
                proof {
                    assert(entry_views(mid.insert(key@, *entry)) =~= entry_views(mid).insert(
                        key@,
                        entry@,
                    ));
                    assert(entry_views(mid).insert(key@, entry@) =~= entry_views(
                        old(self).lv0@,
                    ).insert(key@, entry@));
                }
                res
            },
        }
    }

    /// Starts the wait of a transaction for pending resources, and names the
    /// transactions that it has to wait for. The caller waits until each of
    /// them has committed or aborted, and then calls `tr_wait_end`.
    pub fn tr_wait_begin(&mut self, token: &TransactionToken) -> (awaited: Vec<u64>)
        requires
            old(self).wf(),
        ensures
            final(self).wf(),
            final(self).budget() == old(self).budget(),
            final(self).level0_bytes() == old(self).level0_bytes(),
            final(self).transactions() == wait_begin_spec(
                old(self).transactions(),
                token.spec_ts(),
            ),
            match find_txn(old(self).transactions(), token.spec_ts()) {
                Some(i) => awaited@ == awaited_deps(
                    old(self).transactions(),
                    token.spec_ts(),
                    old(self).transactions()[i].deps,
                    old(self).transactions()[i].deps.len() as int,
                ),
                None => awaited@.len() == 0,
            },
            final(self).level0() == old(self).level0(),
            final(self).level1() == old(self).level1(),
            final(self).runs() == old(self).runs(),
    {
        self.trans.wait_begin(token.ts)
    }

    /// Ends the wait of a transaction. Abort is required upon failure.
    pub fn tr_wait_end(&mut self, token: &TransactionToken) -> (res: Result<(), ()>)
        requires
            old(self).wf(),
        ensures
            final(self).wf(),
            final(self).budget() == old(self).budget(),
            final(self).level0_bytes() == old(self).level0_bytes(),
            res is Ok <==> may_go_on(old(self).transactions(), token.spec_ts()),
            final(self).transactions() == (if may_go_on(
                old(self).transactions(),
                token.spec_ts(),
            ) {
                wait_end_spec(old(self).transactions(), token.spec_ts())
            } else {
                old(self).transactions()
            }),
            final(self).level0() == old(self).level0(),
            final(self).level1() == old(self).level1(),
            final(self).runs() == old(self).runs(),
    {
        self.trans.wait_end(token.ts)
    }

    /// Commit transaction, and name the transactions that waited for it.
    pub fn tr_commit(&mut self, token: TransactionToken) -> (clients: Vec<u64>)
        requires
            old(self).wf(),
        ensures
            final(self).wf(),
            final(self).budget() == old(self).budget(),
            final(self).level0_bytes() == old(self).level0_bytes(),
            final(self).transactions() == remove_spec(
                with_state(old(self).transactions(), token.spec_ts(), TransactionState::Committed),
                token.spec_ts(),
            ),
            match find_txn(old(self).transactions(), token.spec_ts()) {
                Some(i) => clients@ == old(self).transactions()[i].await_clients,
                None => clients@.len() == 0,
            },
            final(self).level0() == old(self).level0(),
            final(self).level1() == old(self).level1(),
            final(self).runs() == old(self).runs(),
    {
        let clients = self.trans.commit(token.ts);
        self.trans.remove_trans(token.ts);
        clients
    }

    /// Abort transaction: what it changed in level 0 is reverted. Names the
    /// transactions that waited for it.
    pub fn tr_abort(&mut self, token: TransactionToken) -> (clients: Vec<u64>)
        requires
            old(self).wf(),
            find_txn(old(self).transactions(), token.spec_ts()) matches Some(i) ==> old(self).transactions()[i].state != TransactionState::Committed,
        ensures
            final(self).wf(),
            final(self).budget() == old(self).budget(),
            final(self).level0_bytes() == old(self).level0_bytes(),
            final(self).transactions() == abort_spec(old(self).transactions(), token.spec_ts()),
            match find_txn(old(self).transactions(), token.spec_ts()) {
                Some(i) => {
                    &&& clients@ == old(self).transactions()[i].await_clients
                    &&& entry_views(final(self).level0()) == undo(
                        entry_views(old(self).level0()),
                        old(self).transactions()[i].redo,
                        old(self).transactions()[i].redo.len() as int,
                    )
                },
                None => clients@.len() == 0 && final(self).level0() == old(self).level0(),
            },
            final(self).level1() == old(self).level1(),
            final(self).runs() == old(self).runs(),
    {
        self.trans.abort(token.ts, &mut self.lv0)
    }

    /// What the runs say of the key: the first that answers wins.
    fn get_from_runs(runs: &mut Vec<(SSLoc, SSTableReader)>, key: &[u8]) -> (found: Option<KvData>)
        requires
            forall|i: int| 0 <= i < old(runs)@.len() ==> (#[trigger] old(runs)@[i]).1.wf(),
        ensures
            final(runs)@.len() == old(runs)@.len(),
            forall|i: int|
                0 <= i < final(runs)@.len() ==> (#[trigger] final(runs)@[i]).1.wf() && final(runs)@[i].0 == old(runs)@[i].0 && final(runs)@[i].1.bytes() == old(runs)@[i].1.bytes(),
            match runs_lookup(old(runs)@, key@, 0) {
                Some(r) => found matches Some(d) && d@ == r,
                None => found is None,
            },
    {
        let count: usize = runs.len();
        let mut i: usize = 0;
        while i < count
            invariant
                i <= count,
                count == runs@.len(),
                runs@.len() == old(runs)@.len(),
                forall|j: int|
                    0 <= j < runs@.len() ==> (#[trigger] runs@[j]).1.wf() && runs@[j].0 == old(runs)@[j].0 && runs@[j].1.bytes() == old(runs)@[j].1.bytes(),
                forall|j: int| i <= j < runs@.len() ==> #[trigger] runs@[j] == old(runs)@[j],
                runs_lookup(old(runs)@, key@, 0) == runs_lookup(old(runs)@, key@, i as int),
            decreases count - i,
        {
            let ghost before = runs@;
            let found = runs[i].1.get(key);
            proof {
                assert forall|j: int| 0 <= j < runs@.len() implies (#[trigger] runs@[j]).1.wf()
                    && runs@[j].0 == old(runs)@[j].0 && runs@[j].1.bytes() == old(runs)@[j].1.bytes() by {
                    if j != i {
                        assert(runs@[j] == before[j]);
                    }
                }
                assert forall|j: int| i + 1 <= j < runs@.len() implies #[trigger] runs@[j] == old(runs)@[j] by {
                    assert(runs@[j] == before[j]);
                }
            }
            match found {
                Some(data) => {
                    return Some(data);
                },
                None => {},
            }
            i += 1;
        }
        None
    }

    /// What the frozen memtables say of the key: the first that holds it
    /// wins.
    fn get_from_tables<'a>(tables: &'a Vec<BTree<ByteStream, KvEntry>>, key: &ByteStream) -> (found:
        Option<&'a KvEntry>)
        ensures
            match tables_lookup(contents_of(tables@), key@, 0) {
                Some(r) => found matches Some(e) && e@.record == r,
                None => found is None,
            },
    {
        let count: usize = tables.len();
        let mut i: usize = 0;
        while i < count
            invariant
                i <= count,
                count == tables@.len(),
                tables_lookup(contents_of(tables@), key@, 0) == tables_lookup(
                    contents_of(tables@),
                    key@,
                    i as int,
                ),
            decreases count - i,
        {
            assert(contents_of(tables@)[i as int] == tables@[i as int]@);
            match tables[i].lookup(key) {
                Some(entry) => {
                    return Some(entry);
                },
                None => {},
            }
            i += 1;
        }
        None
    }

    /// Access a value outside a transaction.
    pub fn raw_get(&mut self, key: &[u8]) -> (value: Option<ByteStream>)
        requires
            old(self).wf(),
        ensures
            final(self).wf(),
            final(self).budget() == old(self).budget(),
            final(self).level0_bytes() == old(self).level0_bytes(),
            final(self).transactions() == old(self).transactions(),
            final(self).level0() == old(self).level0(),
            final(self).level1() == old(self).level1(),
            same_runs(old(self).runs(), final(self).runs()),
            match old(self).visible(key@) {
                Some(bytes) => value matches Some(v) && v@ == bytes,
                None => value is None,
            },
    {
        let key_bs = ByteStream::from_slice(key);
        // lookup lv0
        match self.lv0.lookup(&key_bs) {
            Some(entry) => {
                return match &entry.record {
                    KvData::Tombstone { .. } => None,
                    KvData::Value { value, .. } => Some(value.clone()),
                };
            },
            None => {},
        }
        // lookup lv1
        match Self::get_from_tables(&self.lv1, &key_bs) {
            Some(entry) => {
                return match &entry.record {
                    KvData::Tombstone { .. } => None,
                    KvData::Value { value, .. } => Some(value.clone()),
                };
            },
            None => {},
        }
        // lookup sstables
        let ghost before = self.lvrest@;
        let found = Self::get_from_runs(&mut self.lvrest, key);
        proof {
            assert forall|i: int, j: int| 0 <= i < j < self.lvrest@.len() implies (
            #[trigger] self.lvrest@[i]).0.newer((#[trigger] self.lvrest@[j]).0) by {
                assert(before[i].0.newer(before[j].0));
            }
        }
        match found {
            Some(KvData::Tombstone { .. }) => None,
            Some(KvData::Value { value, .. }) => Some(value),
            None => None,
        }
    }

    /// Modify value outside a transaction: level 0 holds the value under the
    /// key, in a fresh entry. Where level 0 then holds more than its budget,
    /// it is frozen.
    pub fn raw_insert(&mut self, key: ByteStream, value: ByteStream)
        requires
            old(self).wf(),
        ensures
            final(self).wf(),
            final(self).transactions() == old(self).transactions(),
            final(self).runs() == old(self).runs(),
            final(self).budget() == old(self).budget(),
            old(self).after_put(*final(self), key@, (KvData::Value { cached: false, value })),
            final(self).visible(key@) == Some(value@),
    {
        let record = KvData::Value { cached: false, value };
        self.put_record(key, record);
    }

    /// Deletes a key outside a transaction: level 0 holds a tombstone under
    /// it.
    pub fn raw_delete(&mut self, key: ByteStream)
        requires
            old(self).wf(),
        ensures
            final(self).wf(),
            final(self).transactions() == old(self).transactions(),
            final(self).runs() == old(self).runs(),
            final(self).budget() == old(self).budget(),
            old(self).after_put(*final(self), key@, (KvData::Tombstone { cached: false })),
            final(self).visible(key@) is None,
    {
        let record = KvData::Tombstone { cached: false };
        self.put_record(key, record);
    }

    /// What a put of a record does to the levels in memory: level 0 holds
    /// the record under the key, in a fresh entry; where it then holds more
    /// bytes than its budget, it becomes the newest of the frozen memtables,
    /// and level 0 is empty.
    pub open spec fn after_put(&self, after: Self, key: Seq<u8>, record: KvData) -> bool {
        let table = self.level0().insert(key, (KvEntry { ts_read: 0, ts_write: 0, record }));
        let bytes = capped(self.level0_bytes() + capped(pair_size(key, record@)));
        if bytes > self.budget() {
            &&& after.level0() == Map::<Seq<u8>, KvEntry>::empty()
            &&& after.level1() == seq![table] + self.level1()
            &&& after.level0_bytes() == 0
        } else {
            &&& after.level0() == table
            &&& after.level1() == self.level1()
            &&& after.level0_bytes() == bytes
        }
    }

    /// Puts a record into level 0, and freezes it where that makes it larger
    /// than the budget.
    fn put_record(&mut self, key: ByteStream, record: KvData)
        requires
            old(self).wf(),
        ensures
            final(self).wf(),
            final(self).transactions() == old(self).transactions(),
            final(self).runs() == old(self).runs(),
            final(self).budget() == old(self).budget(),
            old(self).after_put(*final(self), key@, record),
            final(self).visible(key@) == record@.visible(),
    {
        let size: usize = match &record {
            KvData::Tombstone { .. } => key.len(),
            KvData::Value { value, .. } => {
                let a: usize = key.len();
                let b: usize = value.len();
                if a <= usize::MAX - b {
                    a + b
                } else {
                    usize::MAX
                }
            },
        };
        self.lv0_bytes = if self.lv0_bytes <= usize::MAX - size {
            self.lv0_bytes + size
        } else {
            usize::MAX
        };
        let ghost k = key@;
        let _ = self.lv0.insert(key, KvEntry::new(record));
        proof {
            assert(self.lv0@.contains_key(k));
        }
        if self.lv0_bytes > self.budget {
            self.freeze();
            proof {
                assert(self.level1()[0] == self.lv1@[0]@);
            }
        }
    }

    /// Freezes level 0: it becomes the newest of the frozen memtables, and a
    /// fresh memtable takes its place.
    pub fn freeze(&mut self)
        requires
            old(self).wf(),
        ensures
            final(self).wf(),
            final(self).transactions() == old(self).transactions(),
            final(self).runs() == old(self).runs(),
            final(self).level0() == Map::<Seq<u8>, KvEntry>::empty(),
            final(self).level1() == seq![old(self).level0()] + old(self).level1(),
            final(self).budget() == old(self).budget(),
            final(self).level0_bytes() == 0,
    {
        let mut frozen: BTree<ByteStream, KvEntry> = BTree::new();
        std::mem::swap(&mut frozen, &mut self.lv0);
        self.lv1.insert(0, frozen);
        self.lv0_bytes = 0;
        proof {
            assert(self.level1() =~= seq![old(self).level0()] + old(self).level1());
            assert forall|i: int| 0 <= i < self.lv1@.len() implies (
            #[trigger] self.lv1@[i]).well_formed() by {
                if i > 0 {
                    assert(self.lv1@[i] == old(self).lv1@[i - 1]);
                }
            }
        }
    }

    /// Number of frozen memtables that wait to be written out.
    pub fn frozen(&self) -> (n: usize)
        ensures
            n == self.level1().len(),
    {
        self.lv1.len()
    }

    /// A writer that has written the run that holds the oldest of the
    /// frozen memtables; `None` where there is none. The engine stays as it
    /// is: the memtable leaves once the run is durable and `retire_oldest`
    /// is called with its bytes.
    pub fn write_oldest(&self) -> (written: Option<SSTableWriter>)
        requires
            self.wf(),
        ensures
            match written {
                Some(w) => self.level1().len() > 0 && w.wf() && exists|run: Seq<Pair>|
                    #![trigger table_bytes(run)]
                    {
                        &&& w@ == table_bytes(run)
                        &&& w.staging() == staging_of(run, FLUSH_INTERVAL as int)
                        &&& ascending(run)
                        &&& holds_live(self.level1().last(), run)
                    },
                None => self.level1().len() == 0,
            },
    {
        let count: usize = self.lv1.len();
        if count == 0 {
            return None;
        }
        let table = &self.lv1[count - 1];
        let items = Self::pointers_of(table);
        proof {
            let all = pairs_of(items@);
            lemma_live_ascends(all, all.len() as int);
            lemma_live_holds(table@, all, all.len() as int);
            assert(self.level1().last() == table@);
        }
        let mut writer = SSTableWriter::new();
        writer.write(items.as_slice());
        Some(writer)
    }

    /// Takes the oldest of the frozen memtables out and the run that holds
    /// its pairs in, at the given location. Nothing changes where there is
    /// no frozen memtable, where the bytes are no run, or where the engine
    /// has a run at the location.
    pub fn retire_oldest(&mut self, loc: SSLoc, bytes: Vec<u8>) -> (res: Result<(), LsmError>)
        requires
            old(self).wf(),
        ensures
            final(self).wf(),
            final(self).budget() == old(self).budget(),
            final(self).level0_bytes() == old(self).level0_bytes(),
            final(self).transactions() == old(self).transactions(),
            final(self).level0() == old(self).level0(),
            match res {
                Ok(_) => {
                    &&& old(self).level1().len() > 0
                    &&& parse_table(bytes@) is Ok
                    &&& !has_run_at(old(self).runs(), loc)
                    &&& final(self).level1() == old(self).level1().drop_last()
                    &&& run_added(old(self).runs(), final(self).runs(), loc, bytes@)
                },
                Err(e) => {
                    &&& final(self).level1() == old(self).level1()
                    &&& final(self).runs() == old(self).runs()
                    &&& e == (if old(self).level1().len() == 0 {
                        LsmError::NothingFrozen
                    } else {
                        match parse_table(bytes@) {
                            Err(x) => LsmError::Corrupt(x),
                            Ok(_) => LsmError::LocationTaken,
                        }
                    })
                    &&& e == LsmError::LocationTaken ==> has_run_at(old(self).runs(), loc)
                },
            },
    {
        if self.lv1.len() == 0 {
            return Err(LsmError::NothingFrozen);
        }
        let reader = match SSTableReader::new(bytes) {
            Ok(reader) => reader,
            Err(e) => return Err(LsmError::Corrupt(e)),
        };
        if !Self::install(&mut self.lvrest, loc, reader, Ghost(bytes@)) {
            return Err(LsmError::LocationTaken);
        }
        let _gone = self.lv1.pop();
        proof {
            assert(self.level1() =~= old(self).level1().drop_last());
            assert forall|i: int| 0 <= i < self.lv1@.len() implies (
            #[trigger] self.lv1@[i]).well_formed() by {
                assert(self.lv1@[i] == old(self).lv1@[i]);
            }
        }
        Ok(())
    }

    /// Takes in a run at the given location, as when an engine is opened on
    /// runs that were written earlier. Nothing changes where the bytes are no
    /// run or where the engine has a run at the location.
    pub fn add_run(&mut self, loc: SSLoc, bytes: Vec<u8>) -> (res: Result<(), LsmError>)
        requires
            old(self).wf(),
        ensures
            final(self).wf(),
            final(self).budget() == old(self).budget(),
            final(self).level0_bytes() == old(self).level0_bytes(),
            final(self).transactions() == old(self).transactions(),
            final(self).level0() == old(self).level0(),
            final(self).level1() == old(self).level1(),
            match res {
                Ok(_) => {
                    &&& parse_table(bytes@) is Ok
                    &&& !has_run_at(old(self).runs(), loc)
                    &&& run_added(old(self).runs(), final(self).runs(), loc, bytes@)
                },
                Err(e) => {
                    &&& final(self).runs() == old(self).runs()
                    &&& e == (match parse_table(bytes@) {
                        Err(x) => LsmError::Corrupt(x),
                        Ok(_) => LsmError::LocationTaken,
                    })
                    &&& e == LsmError::LocationTaken ==> has_run_at(old(self).runs(), loc)
                },
            },
    {
        let reader = match SSTableReader::new(bytes) {
            Ok(reader) => reader,
            Err(e) => return Err(LsmError::Corrupt(e)),
        };
        if !Self::install(&mut self.lvrest, loc, reader, Ghost(bytes@)) {
            return Err(LsmError::LocationTaken);
        }
        Ok(())
    }

    /// The locations of the runs, the newest first.
    pub fn locations(&self) -> (locs: Vec<SSLoc>)
        ensures
            locs@.len() == self.runs().len(),
            forall|i: int| 0 <= i < locs@.len() ==> #[trigger] locs@[i] == self.runs()[i].0,
    {
        let mut locs: Vec<SSLoc> = Vec::new();
        let mut i: usize = 0;
        while i < self.lvrest.len()
            invariant
                i <= self.lvrest@.len(),
                locs@.len() == i,
                forall|j: int| 0 <= j < i ==> #[trigger] locs@[j] == self.lvrest@[j].0,
            decreases self.lvrest@.len() - i,
        {
            locs.push(self.lvrest[i].0);
            i += 1;
        }
        locs
    }

    /// The state of the transaction with the timestamp; `None` where the
    /// engine knows no such transaction, as when it has committed or
    /// aborted.
    pub fn tr_state(&self, ts: u64) -> (state: Option<TransactionState>)
        ensures
            match find_txn(self.transactions(), ts) {
                Some(i) => state == Some(self.transactions()[i].state),
                None => state is None,
            },
    {
        self.trans.state_of(ts)
    }

    /// The pairs of a memtable in ascending key order.
    fn pointers_of<'a>(table: &'a BTree<ByteStream, KvEntry>) -> (items: Vec<EntryPointer<'a>>)
        requires
            table.well_formed(),
        ensures
            lists_table(table@, pairs_of(items@)),
    {
        let entries = table.entries();
        let mut items: Vec<EntryPointer<'a>> = Vec::new();
        let mut i: usize = 0;
        while i < entries.len()
            invariant
                i <= entries@.len(),
                items@.len() == i,
                forall|j: int|
                    0 <= j < i ==> (#[trigger] items@[j]).key == entries@[j].0 && items@[j].entry
                        == entries@[j].1,
            decreases entries@.len() - i,
        {
            let (key, entry) = entries[i];
            items.push(EntryPointer { key, entry });
            i += 1;
        }
        proof {
            let all = pairs_of(items@);
            assert forall|a: int, b: int| 0 <= a < b < all.len() implies lex_lt(
                (#[trigger] all[a]).0,
                (#[trigger] all[b]).0,
            ) by {
                assert(ByteStream::before(entries@[a].0@, entries@[b].0@));
            }
            assert forall|k: Seq<u8>| table@.contains_key(k) implies exists|i: int|
                0 <= i < all.len() && (#[trigger] all[i]).0 == k by {
                let i = choose|i: int| 0 <= i < entries@.len() && (#[trigger] entries@[i]).0@ == k;
                assert(all[i].0 == k);
            }
            assert forall|i: int| 0 <= i < all.len() implies table@.contains_key(
                (#[trigger] all[i]).0,
            ) && table@[all[i].0]@.record == all[i].1 by {
                assert(table@.contains_key(entries@[i].0@));
            }
        }
        items
    }

    /// Whether the keys of every run ascend, as they do in every run that
    /// the writer made.
    pub open spec fn runs_ascend(&self) -> bool {
        forall|i: int| 0 <= i < self.runs().len() ==> ascending((#[trigger] self.runs()[i]).1.scan())
    }

    /// Whether the keys of every run ascend.
    fn check_runs(&self) -> (ascend: bool)
        requires
            self.wf(),
        ensures
            ascend == self.runs_ascend(),
    {
        let mut i: usize = 0;
        while i < self.lvrest.len()
            invariant
                self.wf(),
                i <= self.lvrest@.len(),
                forall|j: int| 0 <= j < i ==> ascending((#[trigger] self.lvrest@[j]).1.scan()),
            decreases self.lvrest@.len() - i,
        {
            if !self.lvrest[i].1.scan_ascends() {
                assert(!ascending(self.runs()[i as int].1.scan()));
                return false;
            }
            i += 1;
        }
        true
    }

    /// The keys in the range from `from` up to `to`, without `to`, with the
    /// values that a read sees under them, in ascending key order: the merge
    /// of all levels, in which the newer level wins under every key, without
    /// the keys behind a tombstone. `None` where the keys of a run do not
    /// ascend.
    pub fn scan(&self, from: Option<&[u8]>, to: Option<&[u8]>) -> (found: Option<
        Vec<(ByteStream, ByteStream)>,
    >)
        requires
            self.wf(),
        ensures
            found is Some <==> self.runs_ascend(),
            match found {
                Some(pairs) => exists|lists: Seq<Seq<Pair>>, out: Seq<Pair>|
                    #![trigger is_merge_of(out, levels(lists, self.runs()))]
                    {
                        &&& lists.len() == 1 + self.level1().len()
                        &&& lists_table(self.level0(), lists[0])
                        &&& forall|i: int|
                            0 <= i < self.level1().len() ==> lists_table(
                                #[trigger] self.level1()[i],
                                lists[i + 1],
                            )
                        &&& is_merge_of(out, levels(lists, self.runs()))
                        &&& byte_pairs(pairs@) == shown_upto(
                            out,
                            out.len() as int,
                            bound_view(from),
                            bound_view(to),
                        )
                    },
                None => true,
            },
    {
        if !self.check_runs() {
            return None;
        }
        // the pairs of the memtables, the newest first
        let mut tables: Vec<Vec<EntryPointer<'_>>> = Vec::new();
        tables.push(Self::pointers_of(&self.lv0));
        let mut i: usize = 0;
        while i < self.lv1.len()
            invariant
                self.wf(),
                i <= self.lv1@.len(),
                tables@.len() == i + 1,
                lists_table(self.lv0@, pairs_of(tables@[0]@)),
                forall|j: int|
                    0 <= j < i ==> lists_table(
                        (#[trigger] self.lv1@[j])@,
                        pairs_of(tables@[j + 1]@),
                    ),
            decreases self.lv1@.len() - i,
        {
            tables.push(Self::pointers_of(&self.lv1[i]));
            i += 1;
        }
        let ghost lists = Seq::new(tables@.len(), |j: int| pairs_of(tables@[j]@));
        // the sources: the memtables, and behind them the runs
        let mut sources: Vec<
            EitherSource<SliceSource<'_, EntryPointer<'_>>, SSTableReaderIterator<'_>>,
        > = Vec::new();
        let mut t: usize = 0;
        while t < tables.len()
            invariant
                t <= tables@.len(),
                sources@.len() == t,
                lists == Seq::new(tables@.len(), |j: int| pairs_of(tables@[j]@)),
                forall|j: int| 0 <= j < t ==> (#[trigger] sources@[j]).wf(),
                forall|j: int| 0 <= j < t ==> (#[trigger] sources@[j]).remaining() == lists[j],
            decreases tables@.len() - t,
        {
            sources.push(EitherSource::Left(SliceSource::new(tables[t].as_slice())));
            t += 1;
        }
        let mut r: usize = 0;
        while r < self.lvrest.len()
            invariant
                self.wf(),
                self.runs_ascend(),
                r <= self.lvrest@.len(),
                sources@.len() == lists.len() + r,
                forall|j: int| 0 <= j < sources@.len() ==> (#[trigger] sources@[j]).wf(),
                forall|j: int|
                    0 <= j < sources@.len() ==> (#[trigger] sources@[j]).remaining() == (if j
                        < lists.len() {
                        lists[j]
                    } else {
                        self.lvrest@[j - lists.len()].1.scan()
                    }),
            decreases self.lvrest@.len() - r,
        {
            sources.push(EitherSource::Right(self.lvrest[r].1.iter()));
            r += 1;
        }
        proof {
            assert(remaining_of(sources@) =~= levels(lists, self.runs()));
            assert forall|j: int| 0 <= j < sources@.len() implies ascending(
                (#[trigger] sources@[j]).remaining(),
            ) by {
                if j < lists.len() {
                    if j > 0 {
                        assert(lists_table(self.lv1@[j - 1]@, pairs_of(tables@[j - 1 + 1]@)));
                    }
                } else {
                    assert(ascending(self.runs()[j - lists.len()].1.scan()));
                }
            }
        }
        let mut merger = KvMergeIterator::new(sources);
        let merged = merger.collect();
        let ghost out = pairs_of(merged@);
        let ghost lo = bound_view(from);
        let ghost hi = bound_view(to);
        // what is in the range and not behind a tombstone
        let mut pairs: Vec<(ByteStream, ByteStream)> = Vec::new();
        let mut k: usize = 0;
        while k < merged.len()
            invariant
                k <= merged@.len(),
                out == pairs_of(merged@),
                lo == bound_view(from),
                hi == bound_view(to),
                byte_pairs(pairs@) == shown_upto(out, k as int, lo, hi),
            decreases merged@.len() - k,
        {
            let key: &[u8] = merged[k].key();
            let ghost before = byte_pairs(pairs@);
            proof {
                assert(out[k as int] == pair_of(merged@[k as int]));
            }
            let above: bool = match from {
                Some(f) => match compare_bytes(f, key) {
                    Order::Greater => false,
                    _ => true,
                },
                None => true,
            };
            let below: bool = match to {
                Some(t) => match compare_bytes(key, t) {
                    Order::Less => true,
                    _ => false,
                },
                None => true,
            };
            if above && below {
                match merged[k].value() {
                    KvDataRef::Tombstone { .. } => {},
                    KvDataRef::Value { value, .. } => {
                        pairs.push((ByteStream::from_slice(key), ByteStream::from_slice(value)));
                        proof {
                            assert(byte_pairs(pairs@) =~= before.push((key@, value@)));
                        }
                    },
                }
            }
            k += 1;
        }
        proof {
            assert(lists[0] == pairs_of(tables@[0]@));
            assert forall|i: int| 0 <= i < self.level1().len() implies lists_table(
                #[trigger] self.level1()[i],
                lists[i + 1],
            ) by {
                assert(lists_table(self.lv1@[i]@, pairs_of(tables@[i + 1]@)));
            }
            assert(is_merge_of(out, levels(lists, self.runs())));
        }
        Some(pairs)
    }

    /// Puts a run among the others, which stand the newest first. `false`,
    /// and no change, where a run stands at the location.
    fn install(
        runs: &mut Vec<(SSLoc, SSTableReader)>,
        loc: SSLoc,
        reader: SSTableReader,
        Ghost(bytes): Ghost<Seq<u8>>,
    ) -> (done: bool)
        requires
            runs_sorted(old(runs)@),
            forall|i: int| 0 <= i < old(runs)@.len() ==> (#[trigger] old(runs)@[i]).1.wf(),
            reader.wf(),
            reader.bytes() == bytes,
            forall|key: Seq<u8>| #[trigger] reader.cached(key) is None,
        ensures
            runs_sorted(final(runs)@),
            forall|i: int| 0 <= i < final(runs)@.len() ==> (#[trigger] final(runs)@[i]).1.wf(),
            done <==> !has_run_at(old(runs)@, loc),
            done ==> run_added(old(runs)@, final(runs)@, loc, bytes),
            !done ==> final(runs)@ == old(runs)@,
    {
        // the place of the run among the others, the newest first
        let count: usize = runs.len();
        let mut at: usize = 0;
        while at < count
            invariant
                at <= count,
                count == runs@.len(),
                runs@ == old(runs)@,
                runs_sorted(runs@),
                forall|i: int| 0 <= i < runs@.len() ==> (#[trigger] runs@[i]).1.wf(),
                forall|j: int| 0 <= j < at ==> (#[trigger] runs@[j]).0.newer(loc),
            ensures
                at < count ==> runs@[at as int].0.order(loc) == Order::Greater,
            decreases count - at,
        {
            match runs[at].0.compare(&loc) {
                Order::Less => {},
                Order::Equal => {
                    assert(runs@[at as int].0 == loc);
                    return false;
                },
                Order::Greater => {
                    break;
                },
            }
            at += 1;
        }
        let ghost before = runs@;
        runs.insert(at, (loc, reader));
        proof {
            let now = runs@;
            assert forall|i: int| 0 <= i < now.len() implies (#[trigger] now[i]).1.wf() by {
                if i < at {
                    assert(now[i] == before[i]);
                } else if i > at {
                    assert(now[i] == before[i - 1]);
                }
            }
            assert forall|i: int, j: int| 0 <= i < j < now.len() implies (#[trigger] now[i]).0.newer(
                (#[trigger] now[j]).0,
            ) by {
                let a = if i < at { i } else { i - 1 };
                let b = if j < at { j } else { j - 1 };
                if i != at && j != at {
                    assert(before[a].0.newer(before[b].0));
                } else if i == at {
                    assert(before[at as int].0.order(loc) == Order::Greater);
                    if b > at {
                        assert(before[at as int].0.newer(before[b].0));
                    }
                    assert(now[j] == before[b]);
                } else {
                    assert(before[a].0.newer(loc));
                }
            }
            assert(!has_run_at(before, loc)) by {
                if has_run_at(before, loc) {
                    let i = choose|i: int| 0 <= i < before.len() && (#[trigger] before[i]).0 == loc;
                    if i < at {
                        assert(before[i].0.newer(loc));
                    } else {
                        assert(before[at as int].0.order(loc) == Order::Greater);
                        if i > at {
                            assert(before[at as int].0.newer(before[i].0));
                        }
                    }
                }
            }
            assert(now[at as int].0 == loc);
            assert(now.remove(at as int) =~= before);
        }
        true
    }

    /// Whether runs `from` up to `to` are runs of the engine whose keys
    /// ascend: runs that can be merged.
    pub open spec fn mergeable(&self, from: int, to: int) -> bool {
        &&& 0 <= from < to <= self.runs().len()
        &&& forall|i: int| from <= i < to ==> ascending((#[trigger] self.runs()[i]).1.scan())
    }

    /// A writer that has written the run that holds the merge of the runs
    /// `from` up to `to`, in which the newer run wins under every key and
    /// every pair is a write of its own. `None` where these are no runs of
    /// the engine, and where the keys of one of them do not ascend. The
    /// engine stays as it is: `replace_runs` puts the new run in the place
    /// of the others.
    #[verifier::rlimit(50)]
    pub fn merge_runs(&self, from: usize, to: usize) -> (written: Option<SSTableWriter>)
        requires
            self.wf(),
        ensures
            written is Some <==> self.mergeable(from as int, to as int),
            match written {
                Some(w) => w.wf() && exists|out: Seq<Pair>|
                    #![trigger table_bytes(uncached(out))]
                    {
                        &&& is_merge_of(out, scans_of(self.runs(), from as int, to as int))
                        &&& w@ == table_bytes(uncached(out))
                        &&& w.staging() == staging_of(uncached(out), FLUSH_INTERVAL as int)
                    },
                None => true,
            },
    {
        if from >= to || to > self.lvrest.len() {
            return None;
        }
        let mut iters: Vec<SSTableReaderIterator<'_>> = Vec::new();
        let mut i: usize = from;
        while i < to
            invariant
                from <= i <= to,
                to <= self.lvrest@.len(),
                self.wf(),
                iters@.len() == i - from,
                forall|j: int|
                    0 <= j < iters@.len() ==> (#[trigger] iters@[j]).rest() == self.lvrest@[from
                        + j].1.scan() && ascending(iters@[j].rest()),
                forall|j: int| from <= j < i ==> ascending((#[trigger] self.lvrest@[j]).1.scan()),
            decreases to - i,
        {
            if !self.lvrest[i].1.scan_ascends() {
                assert(!ascending(self.runs()[i as int].1.scan()));
                return None;
            }
            iters.push(self.lvrest[i].1.iter());
            i += 1;
        }
        let ghost scans = scans_of(self.runs(), from as int, to as int);
        assert(remaining_of(iters@) =~= scans);
        let mut merger = KvMergeIterator::new(iters);
        let merged = merger.collect();
        let ghost out = pairs_of(merged@);
        let mut items: Vec<OwnedPointer> = Vec::new();
        let mut k: usize = 0;
        while k < merged.len()
            invariant
                k <= merged@.len(),
                items@.len() == k,
                out == pairs_of(merged@),
                forall|j: int| 0 <= j < k ==> pair_of(#[trigger] items@[j]) == uncached(out)[j],
            decreases merged@.len() - k,
        {
            let key = ByteStream::from_slice(merged[k].key());
            let data = KvData::authoritative(&merged[k].value());
            items.push(OwnedPointer { key, data });
            k += 1;
        }
        proof {
            let all = pairs_of(items@);
            assert(all =~= uncached(out));
            assert forall|a: int, b: int| 0 <= a < b < all.len() implies lex_lt(
                (#[trigger] all[a]).0,
                (#[trigger] all[b]).0,
            ) by {
                assert(lex_lt(out[a].0, out[b].0));
            }
            lemma_live_all(all, all.len() as int);
            assert(live(all) =~= all);
        }
        let mut writer = SSTableWriter::new();
        writer.write(items.as_slice());
        Some(writer)
    }

    /// Puts a run at the given location in the place of the runs `from` up
    /// to `to`. Nothing changes where these are no runs of the engine, where
    /// the bytes are no run, or where another run stands at the location.
    pub fn replace_runs(&mut self, from: usize, to: usize, loc: SSLoc, bytes: Vec<u8>) -> (res:
        Result<(), LsmError>)
        requires
            old(self).wf(),
        ensures
            final(self).wf(),
            final(self).budget() == old(self).budget(),
            final(self).level0_bytes() == old(self).level0_bytes(),
            final(self).transactions() == old(self).transactions(),
            final(self).level0() == old(self).level0(),
            final(self).level1() == old(self).level1(),
            match res {
                Ok(_) => {
                    &&& from < to <= old(self).runs().len()
                    &&& parse_table(bytes@) is Ok
                    &&& !has_run_at(others(old(self).runs(), from as int, to as int), loc)
                    &&& run_added(
                        others(old(self).runs(), from as int, to as int),
                        final(self).runs(),
                        loc,
                        bytes@,
                    )
                },
                Err(e) => {
                    &&& final(self).runs() == old(self).runs()
                    &&& e == (if !(from < to <= old(self).runs().len()) {
                        LsmError::NoSuchRuns
                    } else {
                        match parse_table(bytes@) {
                            Err(x) => LsmError::Corrupt(x),
                            Ok(_) => LsmError::LocationTaken,
                        }
                    })
                    &&& e == LsmError::LocationTaken ==> has_run_at(
                        others(old(self).runs(), from as int, to as int),
                        loc,
                    )
                },
            },
    {
        let count: usize = self.lvrest.len();
        if from >= to || to > count {
            return Err(LsmError::NoSuchRuns);
        }
        let reader = match SSTableReader::new(bytes) {
            Ok(reader) => reader,
            Err(e) => return Err(LsmError::Corrupt(e)),
        };
        // the location must be free once the old runs are gone
        let ghost rest = others(self.lvrest@, from as int, to as int);
        let mut i: usize = 0;
        while i < count
            invariant
                i <= count,
                count == self.lvrest@.len(),
                *self == *old(self),
                self.wf(),
                from < to <= count,
                parse_table(bytes@) is Ok,
                rest == others(self.lvrest@, from as int, to as int),
                forall|j: int|
                    0 <= j < i && !(from <= j < to) ==> (#[trigger] self.lvrest@[j]).0 != loc,
            decreases count - i,
        {
            if (i < from || i >= to) && self.lvrest[i].0.compare(&loc) == Order::Equal {
                proof {
                    let at = if i < from { i as int } else { i - (to - from) };
                    assert(rest[at] == self.lvrest@[i as int]);
                }
                return Err(LsmError::LocationTaken);
            }
            i += 1;
        }
        let ghost before = self.lvrest@;
        let mut gone: usize = 0;
        while gone < to - from
            invariant
                gone <= to - from,
                from < to <= before.len(),
                self.lvrest@.len() == before.len() - gone,
                forall|j: int| 0 <= j < from ==> #[trigger] self.lvrest@[j] == before[j],
                forall|j: int|
                    from <= j < self.lvrest@.len() ==> #[trigger] self.lvrest@[j] == before[j + gone],
                self.trans == old(self).trans,
                self.lv0 == old(self).lv0,
                self.lv1 == old(self).lv1,
                self.lv0_bytes == old(self).lv0_bytes,
                self.budget == old(self).budget,
            decreases to - from - gone,
        {
            let ghost was = self.lvrest@;
            let _old = self.lvrest.remove(from);
            proof {
                assert forall|j: int| from <= j < self.lvrest@.len() implies #[trigger] self.lvrest@[j]
                    == before[j + gone + 1] by {
                    assert(self.lvrest@[j] == was[j + 1]);
                }
                assert forall|j: int| 0 <= j < from implies #[trigger] self.lvrest@[j]
                    == before[j] by {
                    assert(self.lvrest@[j] == was[j]);
                }
            }
            gone += 1;
        }
        proof {
            let now = self.lvrest@;
            assert(now =~= rest);
            assert forall|j: int| 0 <= j < now.len() implies (#[trigger] now[j]).1.wf() by {
                if j < from {
                    assert(now[j] == before[j]);
                } else {
                    assert(now[j] == before[j + (to - from)]);
                }
            }
            assert forall|a: int, b: int| 0 <= a < b < now.len() implies (#[trigger] now[a]).0.newer(
                (#[trigger] now[b]).0,
            ) by {
                let x = if a < from { a } else { a + (to - from) };
                let y = if b < from { b } else { b + (to - from) };
                assert(before[x].0.newer(before[y].0));
            }
            assert(!has_run_at(rest, loc)) by {
                if has_run_at(rest, loc) {
                    let at = choose|at: int| 0 <= at < rest.len() && (#[trigger] rest[at]).0 == loc;
                    if at < from {
                        assert(rest[at] == before[at]);
                    } else {
                        assert(rest[at] == before[at + (to - from)]);
                    }
                }
            }
        }
        let done = Self::install(&mut self.lvrest, loc, reader, Ghost(bytes@));
        assert(done);
        Ok(())
    }
}

/// A bound of a scan as plain values.
pub open spec fn bound_view(bound: Option<&[u8]>) -> Option<Seq<u8>> {
    match bound {
        Some(b) => Some(b@),
        None => None,
    }
}

/// Whether a key lies in the range of a scan: not below `from`, and below
/// `to`.
pub open spec fn in_range(key: Seq<u8>, from: Option<Seq<u8>>, to: Option<Seq<u8>>) -> bool {
    &&& from matches Some(f) ==> lex_le(f, key)
    &&& to matches Some(t) ==> lex_lt(key, t)
}

/// What a scan shows of the first `upto` pairs of a merge: the keys in the
/// range with their values, without those behind a tombstone.
pub open spec fn shown_upto(
    out: Seq<Pair>,
    upto: int,
    from: Option<Seq<u8>>,
    to: Option<Seq<u8>>,
) -> Seq<(Seq<u8>, Seq<u8>)>
    decreases upto,
{
    if upto <= 0 {
        Seq::empty()
    } else {
        let before = shown_upto(out, upto - 1, from, to);
        let pair = out[upto - 1];
        if in_range(pair.0, from, to) && pair.1.visible() is Some {
            before.push((pair.0, pair.1.visible().unwrap()))
        } else {
            before
        }
    }
}

/// Pairs of byte strings as plain values.
pub open spec fn byte_pairs(pairs: Seq<(ByteStream, ByteStream)>) -> Seq<(Seq<u8>, Seq<u8>)> {
    Seq::new(pairs.len(), |i: int| (pairs[i].0@, pairs[i].1@))
}

/// What the levels hold for a scan: the given lists for the memtables, the
/// newest first, and behind them what full scans of the runs yield.
pub open spec fn levels(lists: Seq<Seq<Pair>>, runs: Seq<(SSLoc, SSTableReader)>) -> Seq<Seq<Pair>> {
    lists + scans_of(runs, 0, runs.len() as int)
}

/// The runs but for those from `from` up to `to`.
pub open spec fn others(runs: Seq<(SSLoc, SSTableReader)>, from: int, to: int) -> Seq<
    (SSLoc, SSTableReader),
> {
    runs.subrange(0, from) + runs.subrange(to, runs.len() as int)
}

/// What full scans of the runs `from` up to `to` yield.
pub open spec fn scans_of(runs: Seq<(SSLoc, SSTableReader)>, from: int, to: int) -> Seq<Seq<Pair>> {
    Seq::new((to - from) as nat, |i: int| runs[from + i].1.scan())
}

/// The pairs as writes of their own: none of them marked as cached.
pub open spec fn uncached(run: Seq<Pair>) -> Seq<Pair> {
    Seq::new(run.len(), |i: int| (run[i].0, run[i].1.with_cached(false)))
}

/// Pairs of which none is a look-aside copy are all live.
pub proof fn lemma_live_all(all: Seq<Pair>, upto: int)
    requires
        0 <= upto <= all.len(),
        forall|i: int| 0 <= i < all.len() ==> !(#[trigger] all[i]).1.is_cached(),
    ensures
        crate::record::iterator::live_upto(all, upto) == all.take(upto),
    decreases upto,
{
    if upto > 0 {
        lemma_live_all(all, upto - 1);
        assert(all.take(upto) =~= all.take(upto - 1).push(all[upto - 1]));
    } else {
        assert(all.take(0) =~= Seq::<Pair>::empty());
    }
}

/// The pairs of `run` are the pairs of the table that are no look-aside
/// copies.
pub open spec fn holds_live(table: Map<Seq<u8>, KvEntry>, run: Seq<Pair>) -> bool {
    &&& forall|i: int|
        0 <= i < run.len() ==> table.contains_key((#[trigger] run[i]).0) && table[run[i].0]@.record
            == run[i].1 && !run[i].1.is_cached()
    &&& forall|k: Seq<u8>|
        table.contains_key(k) && !table[k]@.record.is_cached() ==> exists|i: int|
            0 <= i < run.len() && (#[trigger] run[i]).0 == k
}

/// The live pairs of an ascending run ascend.
pub proof fn lemma_live_ascends(all: Seq<Pair>, upto: int)
    requires
        ascending(all),
        0 <= upto <= all.len(),
    ensures
        ascending(crate::record::iterator::live_upto(all, upto)),
        forall|i: int|
            0 <= i < crate::record::iterator::live_upto(all, upto).len() ==> exists|j: int|
                0 <= j < upto && all[j] == #[trigger] crate::record::iterator::live_upto(all, upto)[i],
    decreases upto,
{
    let now = crate::record::iterator::live_upto(all, upto);
    if upto > 0 {
        lemma_live_ascends(all, upto - 1);
        let before = crate::record::iterator::live_upto(all, upto - 1);
        assert forall|i: int| 0 <= i < now.len() implies exists|j: int|
            0 <= j < upto && all[j] == #[trigger] now[i] by {
            if i < before.len() {
                let j = choose|j: int| 0 <= j < upto - 1 && all[j] == before[i];
                assert(all[j] == now[i]);
            } else {
                assert(all[upto - 1] == now[i]);
            }
        }
        assert forall|a: int, b: int| 0 <= a < b < now.len() implies lex_lt(
            (#[trigger] now[a]).0,
            (#[trigger] now[b]).0,
        ) by {
            if b < before.len() {
                assert(lex_lt(before[a].0, before[b].0));
            } else {
                let j = choose|j: int| 0 <= j < upto - 1 && all[j] == before[a];
                assert(lex_lt(all[j].0, all[upto - 1].0));
            }
        }
    }
}

/// The live pairs of the pairs of a table are the pairs of the table that
/// are no look-aside copies.
pub proof fn lemma_live_holds(table: Map<Seq<u8>, KvEntry>, all: Seq<Pair>, upto: int)
    requires
        0 <= upto <= all.len(),
        forall|i: int|
            0 <= i < all.len() ==> table.contains_key((#[trigger] all[i]).0) && table[all[i].0]@.record
                == all[i].1,
        forall|k: Seq<u8>|
            table.contains_key(k) ==> exists|i: int| 0 <= i < all.len() && (#[trigger] all[i]).0 == k,
        ascending(all),
    ensures
        forall|i: int|
            0 <= i < crate::record::iterator::live_upto(all, upto).len() ==> {
                let x = #[trigger] crate::record::iterator::live_upto(all, upto)[i];
                table.contains_key(x.0) && table[x.0]@.record == x.1 && !x.1.is_cached()
            },
        forall|j: int|
            0 <= j < upto && !(#[trigger] all[j]).1.is_cached() ==> exists|i: int|
                0 <= i < crate::record::iterator::live_upto(all, upto).len()
                    && crate::record::iterator::live_upto(all, upto)[i] == all[j],
        upto == all.len() ==> holds_live(table, crate::record::iterator::live(all)),
    decreases upto,
{
    let now = crate::record::iterator::live_upto(all, upto);
    if upto > 0 {
        lemma_live_holds(table, all, upto - 1);
        let before = crate::record::iterator::live_upto(all, upto - 1);
        assert forall|j: int| 0 <= j < upto && !(#[trigger] all[j]).1.is_cached() implies exists|
            i: int,
        | 0 <= i < now.len() && now[i] == all[j] by {
            if j < upto - 1 {
                let i = choose|i: int| 0 <= i < before.len() && before[i] == all[j];
                assert(now[i] == all[j]);
            } else {
                assert(now[now.len() - 1] == all[j]);
            }
        }
    }
    if upto == all.len() {
        let run = crate::record::iterator::live(all);
        assert forall|k: Seq<u8>|
            table.contains_key(k) && !table[k]@.record.is_cached() implies exists|i: int|
            0 <= i < run.len() && (#[trigger] run[i]).0 == k by {
            let j = choose|j: int| 0 <= j < all.len() && (#[trigger] all[j]).0 == k;
            assert(!all[j].1.is_cached());
            let i = choose|i: int| 0 <= i < now.len() && now[i] == all[j];
            assert(run[i].0 == k);
        }
    }
}

} // verus!
