//! Transactions ordered by timestamp.
//!
//! A transaction may read an entry unless a later transaction has written
//! it, and may write an entry unless a later transaction has read it. What a
//! transaction overwrote stands in its log, from which an abort restores it.
//! A transaction that waits depends on the writers of what it touched; where
//! one of them aborts, the waiting transaction must abort too.
//!
//! The manager decides; it neither locks nor blocks. Whoever drives it holds
//! the locks in the order entry, transaction, manager, and waits between
//! `wait_begin` and `wait_end` for the transactions that `wait_begin` names.

use crate::memtable::MemTable;
use crate::record::bytestream::ByteStream;
use crate::record::kventry::{EntryView, KvData, KvEntry, RecordView};
use vstd::prelude::*;

verus! {

/// State of the transaction.
#[derive(Clone, Copy, Debug, PartialEq, Eq, Structural)]
pub enum TransactionState {
    /// Locking resources in premature.
    Idle,
    /// Waiting for pending resources.
    Waiting,
    /// Transaction successfully completed.
    Committed,
    /// Transaction executed partially with errors and is pending a rollback.
    Aborting,
    /// Transaction has rolled back.
    Aborted,
}

/// One line of the log of a transaction, as plain values: the key of the
/// entry, the write timestamp that the entry had, and the record that it
/// had, where the transaction replaced the record.
pub struct RedoView {
    pub key: Seq<u8>,
    pub ts_write: u64,
    pub record: Option<RecordView>,
}

/// A transaction as plain values.
pub struct TxnView {
    pub ts: u64,
    pub redo: Seq<RedoView>,
    pub deps: Seq<u64>,
    pub state: TransactionState,
    pub await_clients: Seq<u64>,
}

/// Data storing the transaction.
pub struct Transaction {
    /// Unique transaction timestamp.
    pub ts: u64,
    /// Log of what the transaction overwrote: the key of the entry, its
    /// previous write timestamp, and its previous record, or `None` where
    /// the record was not replaced. The log must be reverted in reverse
    /// order.
    pub redo: Vec<(ByteStream, u64, Option<KvData>)>,
    /// Transaction dependencies: the writers of the entries that the
    /// transaction touched.
    pub deps: Vec<u64>,
    /// Transaction state.
    pub state: TransactionState,
    /// Transactions awaiting on myself.
    pub await_clients: Vec<u64>,
}

/// A line of the log as plain values.
pub open spec fn redo_view(item: (ByteStream, u64, Option<KvData>)) -> RedoView {
    RedoView {
        key: item.0@,
        ts_write: item.1,
        record: match item.2 {
            Some(data) => Some(data@),
            None => None,
        },
    }
}

impl View for Transaction {
    type V = TxnView;

    open spec fn view(&self) -> TxnView {
        TxnView {
            ts: self.ts,
            redo: Seq::new(self.redo@.len(), |i: int| redo_view(self.redo@[i])),
            deps: self.deps@,
            state: self.state,
            await_clients: self.await_clients@,
        }
    }
}

/// The larger of two timestamps.
pub open spec fn later(a: u64, b: u64) -> u64 {
    if a < b {
        b
    } else {
        a
    }
}

// ---------------------------------------------------------------------------
// The rules, over plain values
// ---------------------------------------------------------------------------

/// What a read lock does: it fails where a later transaction wrote the
/// entry; else the writer of the entry becomes a dependency, and the read
/// timestamp of the entry rises to that of the transaction.
pub open spec fn read_lock_spec(t: TxnView, e: EntryView) -> Option<(TxnView, EntryView)> {
    if e.ts_write > t.ts {
        None
    } else {
        Some(
            (
                TxnView { deps: t.deps.push(e.ts_write), ..t },
                EntryView { ts_read: later(e.ts_read, t.ts), ..e },
            ),
        )
    }
}

/// What a write does: it fails where a later transaction read the entry; it
/// does nothing where a later transaction wrote the entry; else the old
/// state of the entry goes into the log, and the entry gets the record and
/// the timestamp of the transaction.
pub open spec fn write_spec(t: TxnView, key: Seq<u8>, e: EntryView, record: RecordView) -> Option<
    (TxnView, EntryView),
> {
    if e.ts_read > t.ts {
        None
    } else if e.ts_write > t.ts {
        Some((t, e))
    } else {
        Some(
            (
                TxnView {
                    redo: t.redo.push(RedoView { key, ts_write: e.ts_write, record: Some(e.record) }),
                    ..t
                },
                EntryView { ts_write: t.ts, record, ..e },
            ),
        )
    }
}

/// What a read-write lock does: it fails where a later transaction read or
/// wrote the entry; else the writer of the entry becomes a dependency, the
/// old write timestamp goes into the log, and both timestamps of the entry
/// become that of the transaction.
pub open spec fn readwrite_lock_spec(t: TxnView, key: Seq<u8>, e: EntryView) -> Option<
    (TxnView, EntryView),
> {
    if e.ts_read > t.ts || e.ts_write > t.ts {
        None
    } else {
        Some(
            (
                TxnView {
                    deps: t.deps.push(e.ts_write),
                    redo: t.redo.push(RedoView { key, ts_write: e.ts_write, record: None }),
                    ..t
                },
                EntryView { ts_read: later(e.ts_read, t.ts), ts_write: t.ts, ..e },
            ),
        )
    }
}

/// The entries as plain values.
pub open spec fn entry_views(entries: Map<Seq<u8>, KvEntry>) -> Map<Seq<u8>, EntryView> {
    entries.map_values(|e: KvEntry| e@)
}

/// What undoing one line of a log does to the entries: the entry under the
/// key gets back its write timestamp and, where the line holds one, its
/// record.
pub open spec fn undo_one(m: Map<Seq<u8>, EntryView>, item: RedoView) -> Map<Seq<u8>, EntryView> {
    if m.contains_key(item.key) {
        m.insert(
            item.key,
            EntryView {
                ts_read: m[item.key].ts_read,
                ts_write: item.ts_write,
                record: match item.record {
                    Some(r) => r,
                    None => m[item.key].record,
                },
            },
        )
    } else {
        m
    }
}

/// What undoing the first `upto` lines of a log does, the last of them
/// first.
pub open spec fn undo(m: Map<Seq<u8>, EntryView>, redo: Seq<RedoView>, upto: int) -> Map<
    Seq<u8>,
    EntryView,
>
    decreases upto,
{
    if upto <= 0 {
        m
    } else {
        undo(undo_one(m, redo[upto - 1]), redo, upto - 1)
    }
}

/// Whether a transaction in this state is still under way.
pub open spec fn in_flight(state: TransactionState) -> bool {
    state != TransactionState::Committed && state != TransactionState::Aborted
}

/// The place of the transaction with the timestamp among the first `upto`.
pub open spec fn find_upto(txns: Seq<TxnView>, ts: u64, upto: int) -> Option<int>
    decreases upto,
{
    if upto <= 0 {
        None
    } else if txns[upto - 1].ts == ts {
        Some(upto - 1)
    } else {
        find_upto(txns, ts, upto - 1)
    }
}

/// The place of the transaction with the timestamp.
pub open spec fn find_txn(txns: Seq<TxnView>, ts: u64) -> Option<int> {
    find_upto(txns, ts, txns.len() as int)
}

/// No two transactions have the same timestamp.
pub open spec fn distinct(txns: Seq<TxnView>) -> bool {
    forall|i: int, j: int|
        0 <= i < j < txns.len() ==> (#[trigger] txns[i]).ts != (#[trigger] txns[j]).ts
}

/// The transaction with the timestamp stands at the place that a search
/// finds, and nowhere where a search finds nothing.
pub proof fn lemma_find_upto(txns: Seq<TxnView>, ts: u64, upto: int)
    requires
        0 <= upto <= txns.len(),
    ensures
        match find_upto(txns, ts, upto) {
            Some(i) => 0 <= i < upto && txns[i].ts == ts,
            None => forall|i: int| 0 <= i < upto ==> (#[trigger] txns[i]).ts != ts,
        },
    decreases upto,
{
    if upto > 0 && txns[upto - 1].ts != ts {
        lemma_find_upto(txns, ts, upto - 1);
    }
}

/// Among transactions with distinct timestamps, a search finds the place at
/// which the timestamp stands.
pub proof fn lemma_find_at(txns: Seq<TxnView>, i: int)
    requires
        distinct(txns),
        0 <= i < txns.len(),
    ensures
        find_txn(txns, txns[i].ts) == Some(i),
{
    lemma_find_upto(txns, txns[i].ts, txns.len() as int);
}

/// Whether the dependency `dep` of the transaction `ts` is one to wait for:
/// another transaction that the manager knows and that is still under way.
pub open spec fn awaited(txns: Seq<TxnView>, ts: u64, dep: u64) -> bool {
    dep != ts && (find_txn(txns, dep) matches Some(i) && in_flight(txns[i].state))
}

/// The transactions once `ts` has been registered as a waiter with the
/// first `upto` of the given dependencies that are to be waited for.
pub open spec fn registered(txns: Seq<TxnView>, ts: u64, deps: Seq<u64>, upto: int) -> Seq<TxnView>
    decreases upto,
{
    if upto <= 0 {
        txns
    } else {
        let before = registered(txns, ts, deps, upto - 1);
        let dep = deps[upto - 1];
        if awaited(before, ts, dep) {
            let i = find_txn(before, dep).unwrap();
            before.update(
                i,
                TxnView { await_clients: before[i].await_clients.push(ts), ..before[i] },
            )
        } else {
            before
        }
    }
}

/// The dependencies among the first `upto` that are to be waited for.
pub open spec fn awaited_deps(txns: Seq<TxnView>, ts: u64, deps: Seq<u64>, upto: int) -> Seq<u64>
    decreases upto,
{
    if upto <= 0 {
        Seq::empty()
    } else {
        let found = awaited_deps(txns, ts, deps, upto - 1);
        if awaited(registered(txns, ts, deps, upto - 1), ts, deps[upto - 1]) {
            found.push(deps[upto - 1])
        } else {
            found
        }
    }
}

/// The transactions once `ts` has started to wait: it is registered with
/// each dependency that is to be waited for and, where there is one, its
/// state is `Waiting`.
pub open spec fn wait_begin_spec(txns: Seq<TxnView>, ts: u64) -> Seq<TxnView> {
    match find_txn(txns, ts) {
        None => txns,
        Some(i) => {
            let deps = txns[i].deps;
            let after = registered(txns, ts, deps, deps.len() as int);
            if awaited_deps(txns, ts, deps, deps.len() as int).len() > 0 {
                after.update(i, TxnView { state: TransactionState::Waiting, ..after[i] })
            } else {
                after
            }
        },
    }
}

/// The transactions once the first `upto` of the given waiters that are in
/// the state `Waiting` have been told to abort.
pub open spec fn cascaded(txns: Seq<TxnView>, clients: Seq<u64>, upto: int) -> Seq<TxnView>
    decreases upto,
{
    if upto <= 0 {
        txns
    } else {
        let before = cascaded(txns, clients, upto - 1);
        match find_txn(before, clients[upto - 1]) {
            Some(i) => if before[i].state == TransactionState::Waiting {
                before.update(i, TxnView { state: TransactionState::Aborting, ..before[i] })
            } else {
                before
            },
            None => before,
        }
    }
}

/// The transactions once `ts` has aborted: its waiters that wait are told to
/// abort, and the transaction itself leaves the manager.
pub open spec fn abort_spec(txns: Seq<TxnView>, ts: u64) -> Seq<TxnView> {
    match find_txn(txns, ts) {
        None => txns,
        Some(i) => {
            let clients = txns[i].await_clients;
            let after = cascaded(txns, clients, clients.len() as int);
            after.remove(find_txn(after, ts).unwrap())
        },
    }
}


// ---------------------------------------------------------------------------
// One transaction and one entry
// ---------------------------------------------------------------------------

impl Transaction {
    /// A transaction that has touched nothing.
    pub fn new(ts: u64) -> (t: Self)
        ensures
            t@ == (TxnView {
                ts,
                redo: Seq::empty(),
                deps: Seq::empty(),
                state: TransactionState::Idle,
                await_clients: Seq::empty(),
            }),
    {
        let t = Transaction {
            ts,
            redo: Vec::new(),
            deps: Vec::new(),
            state: TransactionState::Idle,
            await_clients: Vec::new(),
        };
        assert(t@.redo =~= Seq::empty());
        t
    }

    /// Acquires a lock for read-only operation over k-v entry.
    pub fn read_lock(&mut self, entry: &mut KvEntry) -> (res: Result<(), ()>)
        ensures
            match read_lock_spec(old(self)@, old(entry)@) {
                Some((t, e)) => res is Ok && final(self)@ == t && final(entry)@ == e,
                None => res is Err && final(self)@ == old(self)@ && final(entry)@ == old(entry)@,
            },
    {
        // rules forbid reading an outdated value
        if entry.ts_write > self.ts {
            return Err(());
        }
        // update dependencies
        self.deps.push(entry.ts_write);
        // register read timestamp
        if entry.ts_read < self.ts {
            entry.ts_read = self.ts;
        }
        proof {
            assert(self@.redo =~= old(self)@.redo);
        }
        Ok(())
    }

    /// Read data from entry. The entry must have been locked as read-only or
    /// read-write beforehand.
    pub fn read<'a>(&self, entry: &'a KvEntry) -> (value: Option<&'a ByteStream>)
        ensures
            match value {
                Some(v) => entry@.record.visible() == Some(v@),
                None => entry@.record.visible() is None,
            },
    {
        match &entry.record {
            KvData::Tombstone { .. } => None,
            KvData::Value { value, .. } => Some(value),
        }
    }

    /// Write data to target entry. It is safe to call this in either
    /// write-only mode or read-write mode.
    pub fn write(&mut self, key: &ByteStream, entry: &mut KvEntry, data: KvData) -> (res: Result<
        (),
        (),
    >)
        ensures
            match write_spec(old(self)@, key@, old(entry)@, data@) {
                Some((t, e)) => res is Ok && final(self)@ == t && final(entry)@ == e,
                None => res is Err && final(self)@ == old(self)@ && final(entry)@ == old(entry)@,
            },
    {
        // an existing transaction depends on this value and thus writing it
        // should trigger an abort
        if entry.ts_read > self.ts {
            return Err(());
        }
        // if the value had already been overwritten (in a future
        // transaction), we simply skip this value
        if entry.ts_write > self.ts {
            return Ok(());
        }
        // save the old version
        let mut old_data = data;
        std::mem::swap(&mut old_data, &mut entry.record);
        self.redo.push((key.clone(), entry.ts_write, Some(old_data)));
        // register write timestamp
        entry.ts_write = self.ts;
        proof {
            let last = self.redo@[self.redo@.len() - 1];
            assert(redo_view(last) == (RedoView {
                key: key@,
                ts_write: old(entry).ts_write,
                record: Some(old(entry)@.record),
            }));
            assert(self@.redo =~= old(self)@.redo.push(redo_view(last)));
        }
        Ok(())
    }

    /// Acquire a lock for read-write operation over a k-v entry.
    pub fn readwrite_lock(&mut self, key: &ByteStream, entry: &mut KvEntry) -> (res: Result<(), ()>)
        ensures
            match readwrite_lock_spec(old(self)@, key@, old(entry)@) {
                Some((t, e)) => res is Ok && final(self)@ == t && final(entry)@ == e,
                None => res is Err && final(self)@ == old(self)@ && final(entry)@ == old(entry)@,
            },
    {
        // an existing transaction depends on this value
        if entry.ts_read > self.ts {
            return Err(());
        }
        // future transactions have already accessed this value
        if entry.ts_write > self.ts {
            return Err(());
        }
        // update dependencies
        self.deps.push(entry.ts_write);
        // save the old timestamp
        self.redo.push((key.clone(), entry.ts_write, None));
        // register read & write timestamp
        if entry.ts_read < self.ts {
            entry.ts_read = self.ts;
        }
        entry.ts_write = self.ts;
        proof {
            let last = self.redo@[self.redo@.len() - 1];
            assert(redo_view(last) == (RedoView {
                key: key@,
                ts_write: old(entry).ts_write,
                record: None,
            }));
            assert(self@.redo =~= old(self)@.redo.push(redo_view(last)));
        }
        Ok(())
    }

    /// Reverts what the transaction overwrote, the last change first, and
    /// empties the log.
    pub fn rollback<M: MemTable<ByteStream, KvEntry>>(&mut self, table: &mut M)
        requires
            old(table).wf(),
        ensures
            final(table).wf(),
            entry_views(final(table).contents()) == undo(
                entry_views(old(table).contents()),
                old(self)@.redo,
                old(self)@.redo.len() as int,
            ),
            final(self)@ == (TxnView { redo: Seq::empty(), ..old(self)@ }),
    {
        let ghost log = self@.redo;
        let ghost start = entry_views(table.contents());
        loop
            invariant
                table.wf(),
                self.redo@.len() <= log.len(),
                forall|i: int| 0 <= i < self.redo@.len() ==> redo_view(#[trigger] self.redo@[i]) == log[i],
                undo(entry_views(table.contents()), log, self.redo@.len() as int) == undo(
                    start,
                    log,
                    log.len() as int,
                ),
                self.ts == old(self).ts,
                self.deps == old(self).deps,
                self.state == old(self).state,
                self.await_clients == old(self).await_clients,
            ensures
                self.redo@.len() == 0,
            decreases self.redo@.len(),
        {
            let (key, ts_write, data) = match self.redo.pop() {
                None => break,
                Some(line) => line,
            };
            let ghost item = redo_view((key, ts_write, data));
            let ghost before = table.contents();
            assert(item == log[self.redo@.len() as int]);
            match table.get(&key) {
                Some(entry) => {
                    let ghost was = *entry;
                    match data {
                        Some(data) => {
                            entry.record = data;
                        },
                        None => {},
                    }
                    entry.ts_write = ts_write;
                    proof {
                        assert(entry@ == undo_one(entry_views(before), item)[key@]);
                    }
                },
                None => {},
            }
            proof {
                assert(entry_views(table.contents()) =~= undo_one(entry_views(before), item));
            }
        }
        proof {
            assert(self@.redo =~= Seq::empty());
        }
    }
}


// ---------------------------------------------------------------------------
// The manager
// ---------------------------------------------------------------------------

/// The transactions once `ts` has been created: a transaction that has
/// touched nothing comes behind the others, unless the manager knows the
/// timestamp already.
pub open spec fn create_spec(txns: Seq<TxnView>, ts: u64) -> Seq<TxnView> {
    if find_txn(txns, ts) is Some {
        txns
    } else {
        txns.push(
            TxnView {
                ts,
                redo: Seq::empty(),
                deps: Seq::empty(),
                state: TransactionState::Idle,
                await_clients: Seq::empty(),
            },
        )
    }
}

/// The transactions once the state of `ts` has been set.
pub open spec fn with_state(txns: Seq<TxnView>, ts: u64, state: TransactionState) -> Seq<TxnView> {
    match find_txn(txns, ts) {
        None => txns,
        Some(i) => txns.update(i, TxnView { state, ..txns[i] }),
    }
}

/// Whether a transaction that has waited may go on: not where the manager
/// does not know it, and not where it was told to abort.
pub open spec fn may_go_on(txns: Seq<TxnView>, ts: u64) -> bool {
    find_txn(txns, ts) matches Some(i) && txns[i].state != TransactionState::Aborting
}

/// The transactions once `ts` has waited: where it may go on and was
/// waiting, it is idle again.
pub open spec fn wait_end_spec(txns: Seq<TxnView>, ts: u64) -> Seq<TxnView> {
    match find_txn(txns, ts) {
        None => txns,
        Some(i) => if txns[i].state == TransactionState::Waiting {
            txns.update(i, TxnView { state: TransactionState::Idle, ..txns[i] })
        } else {
            txns
        },
    }
}

/// The transactions without the one with the timestamp.
pub open spec fn remove_spec(txns: Seq<TxnView>, ts: u64) -> Seq<TxnView> {
    match find_txn(txns, ts) {
        None => txns,
        Some(i) => txns.remove(i),
    }
}

/// The transactions as plain values.
pub open spec fn txn_views(txns: Seq<Transaction>) -> Seq<TxnView> {
    Seq::new(txns.len(), |i: int| txns[i]@)
}

/// A wrapped implementation of the transaction manager. Usage must guarantee
/// that earlier transactions get introduced to this manager before later
/// transactions.
pub struct TransactionMgrImpl {
    /// List of ongoing transactions.
    ongoing_trans: Vec<Transaction>,
}

impl View for TransactionMgrImpl {
    type V = Seq<TxnView>;

    /// The transactions that the manager knows.
    closed spec fn view(&self) -> Seq<TxnView> {
        txn_views(self.ongoing_trans@)
    }
}

impl TransactionMgrImpl {
    /// The invariant of the manager: no two transactions have the same
    /// timestamp.
    pub open spec fn wf(&self) -> bool {
        distinct(self@)
    }

    /// A manager without transactions.
    pub fn new() -> (mgr: Self)
        ensures
            mgr.wf(),
            mgr@ == Seq::<TxnView>::empty(),
    {
        let mgr = Self { ongoing_trans: Vec::new() };
        assert(mgr@ =~= Seq::<TxnView>::empty());
        mgr
    }

    /// The place of the transaction with the timestamp.
    fn find(&self, ts: u64) -> (found: Option<usize>)
        ensures
            match find_txn(self@, ts) {
                Some(i) => (found matches Some(x) && x == i) && 0 <= i < self.ongoing_trans@.len()
                    && self.ongoing_trans@[i].ts == ts,
                None => found is None,
            },
    {
        let mut upto: usize = self.ongoing_trans.len();
        proof {
            lemma_find_upto(self@, ts, upto as int);
        }
        while upto > 0
            invariant
                upto <= self.ongoing_trans@.len(),
                find_txn(self@, ts) == find_upto(self@, ts, upto as int),
            decreases upto,
        {
            assert(self@[upto - 1].ts == self.ongoing_trans@[upto - 1].ts);
            if self.ongoing_trans[upto - 1].ts == ts {
                return Some(upto - 1);
            }
            upto -= 1;
        }
        None
    }

    /// Whether the manager knows a transaction with the timestamp.
    pub fn knows(&self, ts: u64) -> (known: bool)
        ensures
            known == find_txn(self@, ts) is Some,
    {
        self.find(ts).is_some()
    }

    /// The state of the transaction with the timestamp.
    pub fn state_of(&self, ts: u64) -> (state: Option<TransactionState>)
        ensures
            match find_txn(self@, ts) {
                Some(i) => state == Some(self@[i].state),
                None => state is None,
            },
    {
        match self.find(ts) {
            Some(i) => Some(self.ongoing_trans[i].state),
            None => None,
        }
    }

    /// Creates a transaction. `false`, and no change, where the manager
    /// knows the timestamp already.
    pub fn create(&mut self, ts: u64) -> (created: bool)
        requires
            old(self).wf(),
        ensures
            final(self).wf(),
            final(self)@ == create_spec(old(self)@, ts),
            created == find_txn(old(self)@, ts) is None,
    {
        if self.find(ts).is_some() {
            return false;
        }
        proof {
            lemma_find_upto(self@, ts, self@.len() as int);
        }
        self.ongoing_trans.push(Transaction::new(ts));
        proof {
            assert(self@ =~= create_spec(old(self)@, ts));
        }
        true
    }

    /// Acquires a lock for read-only operation over k-v entry for the
    /// transaction `ts`. This is necessary before reading the entry. Fails,
    /// and changes nothing, where the manager does not know the transaction.
    pub fn read_lock(&mut self, ts: u64, entry: &mut KvEntry) -> (res: Result<(), ()>)
        requires
            old(self).wf(),
        ensures
            final(self).wf(),
            match find_txn(old(self)@, ts) {
                Some(i) => match read_lock_spec(old(self)@[i], old(entry)@) {
                    Some((t, e)) => res is Ok && final(self)@ == old(self)@.update(i, t) && final(entry)@ == e,
                    None => res is Err && final(self)@ == old(self)@ && final(entry)@ == old(entry)@,
                },
                None => res is Err && final(self)@ == old(self)@ && final(entry)@ == old(entry)@,
            },
    {
        let i = match self.find(ts) {
            Some(i) => i,
            None => return Err(()),
        };
        let res = self.ongoing_trans[i].read_lock(entry);
        proof {
            assert(self@ =~= old(self)@.update(i as int, self.ongoing_trans@[i as int]@));
        }
        res
    }

    /// Read data from entry for the transaction `ts`, which must have locked
    /// the entry beforehand.
    pub fn read<'a>(&self, ts: u64, entry: &'a KvEntry) -> (value: Option<&'a ByteStream>)
        ensures
            match value {
                Some(v) => entry@.record.visible() == Some(v@),
                None => entry@.record.visible() is None,
            },
    {
        match &entry.record {
            KvData::Tombstone { .. } => None,
            KvData::Value { value, .. } => Some(value),
        }
    }

    /// Write data to target entry for the transaction `ts`. An error says
    /// that the transaction must abort.
    pub fn write(&mut self, ts: u64, key: &ByteStream, entry: &mut KvEntry, data: KvData) -> (res:
        Result<(), ()>)
        requires
            old(self).wf(),
        ensures
            final(self).wf(),
            match find_txn(old(self)@, ts) {
                Some(i) => match write_spec(old(self)@[i], key@, old(entry)@, data@) {
                    Some((t, e)) => res is Ok && final(self)@ == old(self)@.update(i, t) && final(entry)@ == e,
                    None => res is Err && final(self)@ == old(self)@ && final(entry)@ == old(entry)@,
                },
                None => res is Err && final(self)@ == old(self)@ && final(entry)@ == old(entry)@,
            },
    {
        let i = match self.find(ts) {
            Some(i) => i,
            None => return Err(()),
        };
        let res = self.ongoing_trans[i].write(key, entry, data);
        proof {
            assert(self@ =~= old(self)@.update(i as int, self.ongoing_trans@[i as int]@));
        }
        res
    }

    /// Acquire a lock for read-write operation over a k-v entry for the
    /// transaction `ts`.
    pub fn readwrite_lock(&mut self, ts: u64, key: &ByteStream, entry: &mut KvEntry) -> (res: Result<
        (),
        (),
    >)
        requires
            old(self).wf(),
        ensures
            final(self).wf(),
            match find_txn(old(self)@, ts) {
                Some(i) => match readwrite_lock_spec(old(self)@[i], key@, old(entry)@) {
                    Some((t, e)) => res is Ok && final(self)@ == old(self)@.update(i, t) && final(entry)@ == e,
                    None => res is Err && final(self)@ == old(self)@ && final(entry)@ == old(entry)@,
                },
                None => res is Err && final(self)@ == old(self)@ && final(entry)@ == old(entry)@,
            },
    {
        let i = match self.find(ts) {
            Some(i) => i,
            None => return Err(()),
        };
        let res = self.ongoing_trans[i].readwrite_lock(key, entry);
        proof {
            assert(self@ =~= old(self)@.update(i as int, self.ongoing_trans@[i as int]@));
        }
        res
    }

    /// Starts the wait of the transaction `ts` for the writers of what it
    /// touched: registers it as a waiter with each of them that is still
    /// under way, and names them. The caller waits until each of them has
    /// committed or aborted, and then calls `wait_end`.
    pub fn wait_begin(&mut self, ts: u64) -> (awaited: Vec<u64>)
        requires
            old(self).wf(),
        ensures
            final(self).wf(),
            final(self)@ == wait_begin_spec(old(self)@, ts),
            match find_txn(old(self)@, ts) {
                Some(i) => awaited@ == awaited_deps(
                    old(self)@,
                    ts,
                    old(self)@[i].deps,
                    old(self)@[i].deps.len() as int,
                ),
                None => awaited@.len() == 0,
            },
    {
        let mut notifiers: Vec<u64> = Vec::new();
        let me = match self.find(ts) {
            Some(i) => i,
            None => return notifiers,
        };
        let deps: Vec<u64> = self.ongoing_trans[me].deps.clone();
        let ghost start = self@;
        assert(deps@ =~= start[me as int].deps);
        let count: usize = deps.len();
        let mut k: usize = 0;
        while k < count
            invariant
                k <= count,
                count == deps@.len(),
                self@ == registered(start, ts, deps@, k as int),
                notifiers@ == awaited_deps(start, ts, deps@, k as int),
                self@.len() == start.len(),
                forall|i: int| 0 <= i < start.len() ==> (#[trigger] self@[i]).ts == start[i].ts,
                distinct(start),
                me < start.len(),
                self@[me as int].state == start[me as int].state,
            decreases count - k,
        {
            let dep: u64 = deps[k];
            let ghost before = self@;
            if dep != ts {
                match self.find(dep) {
                    Some(j) => {
                        let state = self.ongoing_trans[j].state;
                        if state != TransactionState::Committed && state
                            != TransactionState::Aborted {
                            self.ongoing_trans[j].await_clients.push(ts);
                            notifiers.push(dep);
                            proof {
                                assert(self@ =~= before.update(
                                    j as int,
                                    TxnView {
                                        await_clients: before[j as int].await_clients.push(ts),
                                        ..before[j as int]
                                    },
                                ));
                            }
                        }
                    },
                    None => {},
                }
            }
            k += 1;
        }
        proof {
            assert forall|i: int, j: int| 0 <= i < j < self@.len() implies (#[trigger] self@[i]).ts
                != (#[trigger] self@[j]).ts by {
                assert(start[i].ts != start[j].ts);
            }
            lemma_find_at(start, me as int);
        }
        if notifiers.len() > 0 {
            let ghost before = self@;
            self.ongoing_trans[me].state = TransactionState::Waiting;
            proof {
                assert(self@ =~= before.update(
                    me as int,
                    TxnView { state: TransactionState::Waiting, ..before[me as int] },
                ));
                assert forall|i: int, j: int| 0 <= i < j < self@.len() implies (
                #[trigger] self@[i]).ts != (#[trigger] self@[j]).ts by {
                    assert(start[i].ts != start[j].ts);
                }
            }
        }
        notifiers
    }

    /// Ends the wait of the transaction `ts`: an error where it was told to
    /// abort because a transaction that it waited for aborted, or where the
    /// manager does not know it.
    pub fn wait_end(&mut self, ts: u64) -> (res: Result<(), ()>)
        requires
            old(self).wf(),
        ensures
            final(self).wf(),
            res is Ok <==> may_go_on(old(self)@, ts),
            final(self)@ == (if may_go_on(old(self)@, ts) {
                wait_end_spec(old(self)@, ts)
            } else {
                old(self)@
            }),
    {
        let me = match self.find(ts) {
            Some(i) => i,
            None => return Err(()),
        };
        match self.ongoing_trans[me].state {
            TransactionState::Aborting => Err(()),
            TransactionState::Waiting => {
                self.ongoing_trans[me].state = TransactionState::Idle;
                proof {
                    assert(self@ =~= wait_end_spec(old(self)@, ts));
                    assert forall|i: int, j: int| 0 <= i < j < self@.len() implies (
                    #[trigger] self@[i]).ts != (#[trigger] self@[j]).ts by {
                        assert(old(self)@[i].ts != old(self)@[j].ts);
                    }
                }
                Ok(())
            },
            _ => Ok(()),
        }
    }

    /// Manually complete a transaction. Its waiters, which the call names,
    /// may go on.
    pub fn commit(&mut self, ts: u64) -> (clients: Vec<u64>)
        requires
            old(self).wf(),
        ensures
            final(self).wf(),
            final(self)@ == with_state(old(self)@, ts, TransactionState::Committed),
            match find_txn(old(self)@, ts) {
                Some(i) => clients@ == old(self)@[i].await_clients,
                None => clients@.len() == 0,
            },
    {
        let me = match self.find(ts) {
            Some(i) => i,
            None => return Vec::new(),
        };
        self.ongoing_trans[me].state = TransactionState::Committed;
        proof {
            assert(self@ =~= with_state(old(self)@, ts, TransactionState::Committed));
            assert forall|i: int, j: int| 0 <= i < j < self@.len() implies (#[trigger] self@[i]).ts
                != (#[trigger] self@[j]).ts by {
                assert(old(self)@[i].ts != old(self)@[j].ts);
            }
        }
        self.ongoing_trans[me].await_clients.clone()
    }

    /// Manually abandon a transaction: reverts what it changed in the table,
    /// tells its waiters that wait to abort, and takes it out of the
    /// manager. The call names the waiters, which may go on to find that
    /// out.
    pub fn abort<M: MemTable<ByteStream, KvEntry>>(&mut self, ts: u64, table: &mut M) -> (clients:
        Vec<u64>)
        requires
            old(self).wf(),
            old(table).wf(),
            find_txn(old(self)@, ts) matches Some(i) ==> old(self)@[i].state
                != TransactionState::Committed,
        ensures
            final(self).wf(),
            final(table).wf(),
            final(self)@ == abort_spec(old(self)@, ts),
            match find_txn(old(self)@, ts) {
                Some(i) => {
                    &&& clients@ == old(self)@[i].await_clients
                    &&& entry_views(final(table).contents()) == undo(
                        entry_views(old(table).contents()),
                        old(self)@[i].redo,
                        old(self)@[i].redo.len() as int,
                    )
                },
                None => clients@.len() == 0 && final(table).contents() == old(table).contents(),
            },
    {
        let me = match self.find(ts) {
            Some(i) => i,
            None => return Vec::new(),
        };
        let ghost start = self@;
        // redo log must be read in reverse order
        self.ongoing_trans[me].rollback(table);
        let clients: Vec<u64> = self.ongoing_trans[me].await_clients.clone();
        assert(clients@ =~= start[me as int].await_clients);
        // the log is no part of what others see of the transaction
        let ghost mut shown = start;
        let count: usize = clients.len();
        let mut k: usize = 0;
        // mark dependent clients as aborting
        while k < count
            invariant
                k <= count,
                count == clients@.len(),
                shown == cascaded(start, clients@, k as int),
                self@.len() == shown.len(),
                shown.len() == start.len(),
                me < start.len(),
                forall|i: int| 0 <= i < shown.len() ==> (#[trigger] shown[i]).ts == start[i].ts,
                forall|i: int|
                    0 <= i < shown.len() ==> (#[trigger] self@[i]) == (if i == me {
                        TxnView { redo: Seq::empty(), ..shown[i] }
                    } else {
                        shown[i]
                    }),
                distinct(start),
            decreases count - k,
        {
            let dep: u64 = clients[k];
            let ghost before = self@;
            proof {
                lemma_same_timestamps(shown, self@, dep);
            }
            match self.find(dep) {
                Some(j) => {
                    if self.ongoing_trans[j].state == TransactionState::Waiting {
                        self.ongoing_trans[j].state = TransactionState::Aborting;
                        proof {
                            shown = shown.update(
                                j as int,
                                TxnView { state: TransactionState::Aborting, ..shown[j as int] },
                            );
                            assert(self@ =~= before.update(
                                j as int,
                                TxnView { state: TransactionState::Aborting, ..before[j as int] },
                            ));
                        }
                    }
                },
                None => {},
            }
            k += 1;
        }
        proof {
            lemma_same_timestamps(shown, self@, ts);
            lemma_same_timestamps(start, shown, ts);
            lemma_find_at(start, me as int);
        }
        let ghost before = self@;
        let _gone = self.ongoing_trans.remove(me);
        proof {
            assert(self@ =~= before.remove(me as int));
            assert(self@ =~= shown.remove(me as int));
            assert forall|i: int, j: int| 0 <= i < j < self@.len() implies (#[trigger] self@[i]).ts
                != (#[trigger] self@[j]).ts by {
                let a = if i < me { i } else { i + 1 };
                let b = if j < me { j } else { j + 1 };
                assert(start[a].ts != start[b].ts);
            }
        }
        clients
    }

    /// Transaction removed from the data structure.
    pub fn remove_trans(&mut self, ts: u64)
        requires
            old(self).wf(),
        ensures
            final(self).wf(),
            final(self)@ == remove_spec(old(self)@, ts),
    {
        let me = match self.find(ts) {
            Some(i) => i,
            None => return ,
        };
        let _gone = self.ongoing_trans.remove(me);
        proof {
            assert(self@ =~= old(self)@.remove(me as int));
            assert forall|i: int, j: int| 0 <= i < j < self@.len() implies (#[trigger] self@[i]).ts
                != (#[trigger] self@[j]).ts by {
                let a = if i < me { i } else { i + 1 };
                let b = if j < me { j } else { j + 1 };
                assert(old(self)@[a].ts != old(self)@[b].ts);
            }
        }
    }
}

/// A search finds the same place in lists whose timestamps are the same.
pub proof fn lemma_same_timestamps(a: Seq<TxnView>, b: Seq<TxnView>, ts: u64)
    requires
        a.len() == b.len(),
        forall|i: int| 0 <= i < a.len() ==> (#[trigger] a[i]).ts == b[i].ts,
    ensures
        find_txn(a, ts) == find_txn(b, ts),
{
    lemma_same_upto(a, b, ts, a.len() as int);
}

proof fn lemma_same_upto(a: Seq<TxnView>, b: Seq<TxnView>, ts: u64, upto: int)
    requires
        a.len() == b.len(),
        0 <= upto <= a.len(),
        forall|i: int| 0 <= i < a.len() ==> (#[trigger] a[i]).ts == b[i].ts,
    ensures
        find_upto(a, ts, upto) == find_upto(b, ts, upto),
    decreases upto,
{
    if upto > 0 {
        assert(a[upto - 1].ts == b[upto - 1].ts);
        lemma_same_upto(a, b, ts, upto - 1);
    }
}


// ---------------------------------------------------------------------------
// Laws
// ---------------------------------------------------------------------------

/// What an earlier transaction wrote, a later transaction reads: the write
/// takes effect where no later transaction touched the entry, and a read
/// lock of a later transaction then succeeds and finds the record.
pub proof fn lemma_later_reader_sees_write(
    t1: TxnView,
    t2: TxnView,
    key: Seq<u8>,
    e: EntryView,
    record: RecordView,
)
    requires
        t1.ts < t2.ts,
        e.ts_read <= t1.ts,
        e.ts_write <= t1.ts,
    ensures
        write_spec(t1, key, e, record) matches Some((_, written)) && written.record == record && (
        read_lock_spec(t2, written) matches Some((reader, read)) && read.record == record
            && reader.deps.last() == t1.ts),
{
}

/// Once a later transaction has read an entry, the write of an earlier
/// transaction fails.
pub proof fn lemma_earlier_write_fails(
    t1: TxnView,
    t2: TxnView,
    key: Seq<u8>,
    e: EntryView,
    record: RecordView,
)
    requires
        t1.ts < t2.ts,
        read_lock_spec(t2, e) is Some,
    ensures
        write_spec(t1, key, read_lock_spec(t2, e).unwrap().1, record) is None,
        readwrite_lock_spec(t1, key, read_lock_spec(t2, e).unwrap().1) is None,
{
}

/// Once a later transaction has written an entry that nobody has read
/// since, the write of an earlier transaction is dropped: it succeeds and
/// changes nothing.
pub proof fn lemma_stale_write_dropped(
    t1: TxnView,
    t2: TxnView,
    key: Seq<u8>,
    e: EntryView,
    r1: RecordView,
    r2: RecordView,
)
    requires
        t1.ts < t2.ts,
        e.ts_read <= t1.ts,
        e.ts_write <= t2.ts,
    ensures
        write_spec(t2, key, e, r2) matches Some((_, written)) && written.record == r2 && write_spec(
            t1,
            key,
            written,
            r1,
        ) == Some((t1, written)),
{
}

/// The timestamps of an entry never fall through a lock or a write.
pub proof fn lemma_timestamps_rise(t: TxnView, key: Seq<u8>, e: EntryView, record: RecordView)
    ensures
        read_lock_spec(t, e) matches Some((_, after)) ==> after.ts_read >= e.ts_read
            && after.ts_write == e.ts_write,
        write_spec(t, key, e, record) matches Some((_, after)) ==> after.ts_read == e.ts_read
            && after.ts_write >= e.ts_write,
        readwrite_lock_spec(t, key, e) matches Some((_, after)) ==> after.ts_read >= e.ts_read
            && after.ts_write >= e.ts_write,
{
}

/// Registering a waiter changes nothing but the lists of waiters, and the
/// waiter stands in the list of each dependency that is to be waited for.
pub proof fn lemma_registered(txns: Seq<TxnView>, ts: u64, deps: Seq<u64>, upto: int)
    requires
        distinct(txns),
        0 <= upto <= deps.len(),
    ensures
        registered(txns, ts, deps, upto).len() == txns.len(),
        forall|i: int|
            0 <= i < txns.len() ==> {
                &&& (#[trigger] registered(txns, ts, deps, upto)[i]).ts == txns[i].ts
                &&& registered(txns, ts, deps, upto)[i].state == txns[i].state
                &&& registered(txns, ts, deps, upto)[i].deps == txns[i].deps
            },
        forall|dep: u64|
            awaited(registered(txns, ts, deps, upto), ts, dep) <==> awaited(txns, ts, dep),
        forall|k: int|
            0 <= k < upto && awaited(txns, ts, #[trigger] deps[k]) ==> registered(
                txns,
                ts,
                deps,
                upto,
            )[find_txn(txns, deps[k]).unwrap()].await_clients.contains(ts),
        forall|i: int, c: u64|
            #![trigger registered(txns, ts, deps, upto)[i].await_clients.contains(c)]
            0 <= i < txns.len() && txns[i].await_clients.contains(c) ==> registered(
                txns,
                ts,
                deps,
                upto,
            )[i].await_clients.contains(c),
        awaited_deps(txns, ts, deps, upto).len() > 0 <==> exists|k: int|
            0 <= k < upto && awaited(txns, ts, #[trigger] deps[k]),
    decreases upto,
{
    let now = registered(txns, ts, deps, upto);
    if upto > 0 {
        lemma_registered(txns, ts, deps, upto - 1);
        let before = registered(txns, ts, deps, upto - 1);
        let dep = deps[upto - 1];
        lemma_find_upto(before, dep, before.len() as int);
        lemma_same_timestamps(before, txns, dep);
        lemma_find_upto(txns, dep, txns.len() as int);
        assert(now.len() == txns.len());
        assert forall|i: int| 0 <= i < txns.len() implies {
            &&& (#[trigger] now[i]).ts == txns[i].ts
            &&& now[i].state == txns[i].state
            &&& now[i].deps == txns[i].deps
        } by {
            assert(before[i].ts == txns[i].ts);
        }
        assert forall|d: u64| awaited(now, ts, d) <==> awaited(txns, ts, d) by {
            lemma_same_timestamps(now, txns, d);
            lemma_find_upto(txns, d, txns.len() as int);
        }
        assert forall|i: int, c: u64|
            #![trigger now[i].await_clients.contains(c)]
            0 <= i < txns.len() && txns[i].await_clients.contains(c) implies now[i].await_clients.contains(
            c,
        ) by {
            assert(before[i].await_clients.contains(c));
            let at = choose|at: int|
                0 <= at < before[i].await_clients.len() && before[i].await_clients[at] == c;
            assert(now[i].await_clients[at] == c);
        }
        assert forall|k: int| 0 <= k < upto && awaited(txns, ts, #[trigger] deps[k]) implies now[find_txn(
            txns,
            deps[k],
        ).unwrap()].await_clients.contains(ts) by {
            let j = find_txn(txns, deps[k]).unwrap();
            lemma_find_upto(txns, deps[k], txns.len() as int);
            if k < upto - 1 {
                assert(before[j].await_clients.contains(ts));
                let at = choose|at: int|
                    0 <= at < before[j].await_clients.len() && before[j].await_clients[at] == ts;
                assert(now[j].await_clients[at] == ts);
            } else {
                assert(awaited(before, ts, dep));
                assert(now[j].await_clients[before[j].await_clients.len() as int] == ts);
            }
        }
        if awaited(txns, ts, dep) {
            assert(awaited(before, ts, dep));
            assert(awaited_deps(txns, ts, deps, upto).len() > 0);
        } else {
            assert(!awaited(before, ts, dep));
        }
        if awaited_deps(txns, ts, deps, upto).len() > 0 {
            if awaited(txns, ts, dep) {
                assert(awaited(txns, ts, deps[upto - 1]));
            } else {
                let k = choose|k: int| 0 <= k < upto - 1 && awaited(txns, ts, #[trigger] deps[k]);
                assert(awaited(txns, ts, deps[k]));
            }
        }
    } else {
        assert forall|d: u64| awaited(now, ts, d) <==> awaited(txns, ts, d) by {}
    }
}

/// Telling waiters to abort changes nothing but states: a transaction that
/// waits and stands among the waiters is told to abort, and no other state
/// changes.
pub proof fn lemma_cascaded(txns: Seq<TxnView>, clients: Seq<u64>, upto: int)
    requires
        distinct(txns),
        0 <= upto <= clients.len(),
    ensures
        cascaded(txns, clients, upto).len() == txns.len(),
        forall|i: int|
            0 <= i < txns.len() ==> {
                &&& (#[trigger] cascaded(txns, clients, upto)[i]).ts == txns[i].ts
                &&& cascaded(txns, clients, upto)[i].state == (if txns[i].state
                    == TransactionState::Waiting && exists|k: int|
                    0 <= k < upto && clients[k] == txns[i].ts {
                    TransactionState::Aborting
                } else {
                    txns[i].state
                })
            },
    decreases upto,
{
    if upto > 0 {
        lemma_cascaded(txns, clients, upto - 1);
        let before = cascaded(txns, clients, upto - 1);
        let now = cascaded(txns, clients, upto);
        let c = clients[upto - 1];
        lemma_same_timestamps(before, txns, c);
        lemma_find_upto(txns, c, txns.len() as int);
        assert forall|i: int| 0 <= i < txns.len() implies {
            &&& (#[trigger] now[i]).ts == txns[i].ts
            &&& now[i].state == (if txns[i].state == TransactionState::Waiting && exists|k: int|
                0 <= k < upto && clients[k] == txns[i].ts {
                TransactionState::Aborting
            } else {
                txns[i].state
            })
        } by {
            if txns[i].ts == c {
                lemma_find_at(txns, i);
                assert(clients[upto - 1] == txns[i].ts);
            } else {
                if exists|k: int| 0 <= k < upto && clients[k] == txns[i].ts {
                    let k = choose|k: int| 0 <= k < upto && clients[k] == txns[i].ts;
                    assert(k < upto - 1);
                }
            }
        }
    }
}

/// A transaction that waits for another is told to abort where the other
/// aborts: once `waiter` has started to wait for `writer`, which is still
/// under way and among its dependencies, and `writer` has aborted, `waiter`
/// may not go on.
#[verifier::rlimit(50)]
pub proof fn lemma_cascading_abort(txns: Seq<TxnView>, writer: u64, waiter: u64)
    requires
        distinct(txns),
        writer != waiter,
        find_txn(txns, writer) matches Some(i) && in_flight(txns[i].state),
        find_txn(txns, waiter) matches Some(j) && txns[j].deps.contains(writer) && txns[j].state
            != TransactionState::Aborted && txns[j].state != TransactionState::Committed,
    ensures
        !may_go_on(abort_spec(wait_begin_spec(txns, waiter), writer), waiter),
        find_txn(abort_spec(wait_begin_spec(txns, waiter), writer), waiter) matches Some(j)
            && abort_spec(wait_begin_spec(txns, waiter), writer)[j].state
            == TransactionState::Aborting,
        find_txn(abort_spec(wait_begin_spec(txns, waiter), writer), writer) is None,
{
    let i = find_txn(txns, writer).unwrap();
    let j = find_txn(txns, waiter).unwrap();
    lemma_find_upto(txns, writer, txns.len() as int);
    lemma_find_upto(txns, waiter, txns.len() as int);
    let deps = txns[j].deps;
    let n = deps.len() as int;
    let k = choose|k: int| 0 <= k < deps.len() && deps[k] == writer;
    lemma_registered(txns, waiter, deps, n);
    let reg = registered(txns, waiter, deps, n);
    assert(awaited(txns, waiter, deps[k]));
    let waiting = wait_begin_spec(txns, waiter);
    assert(waiting == reg.update(j, TxnView { state: TransactionState::Waiting, ..reg[j] }));
    assert(waiting[i].await_clients.contains(waiter));
    assert forall|a: int, b: int| 0 <= a < b < waiting.len() implies (#[trigger] waiting[a]).ts != (
    #[trigger] waiting[b]).ts by {
        assert(txns[a].ts != txns[b].ts);
    }
    lemma_same_timestamps(waiting, txns, writer);
    lemma_same_timestamps(waiting, txns, waiter);
    let clients = waiting[i].await_clients;
    lemma_cascaded(waiting, clients, clients.len() as int);
    let told = cascaded(waiting, clients, clients.len() as int);
    lemma_same_timestamps(told, waiting, writer);
    lemma_same_timestamps(told, waiting, waiter);
    let at = choose|at: int| 0 <= at < clients.len() && clients[at] == waiter;
    assert(clients[at] == waiting[j].ts);
    assert(told[j].state == TransactionState::Aborting);
    let after = abort_spec(waiting, writer);
    assert(after == told.remove(i));
    let jj = if j < i { j } else { j - 1 };
    assert(after[jj] == told[j]);
    assert forall|a: int, b: int| 0 <= a < b < after.len() implies (#[trigger] after[a]).ts != (
    #[trigger] after[b]).ts by {
        let x = if a < i { a } else { a + 1 };
        let y = if b < i { b } else { b + 1 };
        assert(txns[x].ts != txns[y].ts);
    }
    lemma_find_at(after, jj);
    lemma_find_upto(after, writer, after.len() as int);
    assert forall|a: int| 0 <= a < after.len() implies (#[trigger] after[a]).ts != writer by {
        let x = if a < i { a } else { a + 1 };
        assert(after[a] == told[x]);
        assert(txns[x].ts != txns[i].ts);
    }
}

} // verus!
