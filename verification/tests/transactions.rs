use kleestor::lsmt::mgr::{LsmError, LsmTree, SSLoc};
use kleestor::lsmt::transimpl::{Transaction, TransactionMgrImpl, TransactionState};
use kleestor::memtable::btree::BTree;
use kleestor::memtable::MemTable;
use kleestor::order::Order;
use kleestor::record::bytestream::ByteStream;
use kleestor::record::kventry::{KvData, KvEntry};
use kleestor::sstable::format::SSTableError;

fn key(s: &str) -> ByteStream {
    ByteStream::from_slice(s.as_bytes())
}

fn value(s: &str) -> KvData {
    KvData::Value { cached: false, value: ByteStream::from_slice(s.as_bytes()) }
}

fn text(data: &KvData) -> Option<String> {
    match data {
        KvData::Tombstone { .. } => None,
        KvData::Value { value, .. } => Some(String::from_utf8(value.as_ref().to_vec()).unwrap()),
    }
}

#[test]
fn a_read_lock_raises_the_read_timestamp_and_notes_the_writer() {
    let mut t = Transaction::new(200);
    let mut entry = KvEntry::new(value("v"));
    entry.ts_write = 150;
    entry.ts_read = 160;
    assert_eq!(t.read_lock(&mut entry), Ok(()));
    assert_eq!(entry.ts_read, 200);
    assert_eq!(entry.ts_write, 150);
    assert_eq!(t.deps, vec![150]);
    assert_eq!(t.read(&entry).map(|v| v.as_ref().to_vec()), Some(b"v".to_vec()));

    // a later reader was there: the read timestamp stays
    let mut earlier = Transaction::new(180);
    assert_eq!(earlier.read_lock(&mut entry), Ok(()));
    assert_eq!(entry.ts_read, 200);

    // a later writer was there: the lock fails and changes nothing
    entry.ts_write = 300;
    let mut late = Transaction::new(250);
    assert_eq!(late.read_lock(&mut entry), Err(()));
    assert_eq!(entry.ts_read, 200);
    assert!(late.deps.is_empty());
}

#[test]
fn a_write_fails_behind_a_later_read_and_is_dropped_behind_a_later_write() {
    let k = key("k");
    // t2 reads, then t1 tries to write
    let mut t1 = Transaction::new(100);
    let mut t2 = Transaction::new(200);
    let mut entry = KvEntry::new(value("old"));
    assert_eq!(t2.read_lock(&mut entry), Ok(()));
    assert_eq!(t1.write(&k, &mut entry, value("new")), Err(()));
    assert_eq!(text(&entry.record), Some("old".to_string()));
    assert!(t1.redo.is_empty());

    // t2 wrote, then t1 writes: silently dropped
    let mut entry = KvEntry::new(value("old"));
    assert_eq!(t2.write(&k, &mut entry, value("from-t2")), Ok(()));
    assert_eq!(entry.ts_write, 200);
    assert_eq!(t1.write(&k, &mut entry, value("from-t1")), Ok(()));
    assert_eq!(text(&entry.record), Some("from-t2".to_string()));
    assert_eq!(entry.ts_write, 200);
    assert!(t1.redo.is_empty());
    assert_eq!(t2.redo.len(), 1);
    assert_eq!(t2.redo[0].1, 0);
    assert_eq!(text(t2.redo[0].2.as_ref().unwrap()), Some("old".to_string()));
}

#[test]
fn a_later_reader_sees_the_write_of_an_earlier_transaction() {
    let k = key("k");
    let mut t1 = Transaction::new(100);
    let mut t2 = Transaction::new(200);
    let mut entry = KvEntry::new(value("old"));
    assert_eq!(t1.write(&k, &mut entry, value("new")), Ok(()));
    assert_eq!(t2.read_lock(&mut entry), Ok(()));
    assert_eq!(t2.read(&entry).map(|v| v.as_ref().to_vec()), Some(b"new".to_vec()));
    assert_eq!(t2.deps, vec![100]);
}

#[test]
fn a_read_write_lock_fails_behind_any_later_touch() {
    let k = key("k");
    let mut t = Transaction::new(100);
    let mut entry = KvEntry::new(value("v"));
    entry.ts_read = 101;
    assert_eq!(t.readwrite_lock(&k, &mut entry), Err(()));
    entry.ts_read = 0;
    entry.ts_write = 101;
    assert_eq!(t.readwrite_lock(&k, &mut entry), Err(()));
    entry.ts_write = 50;
    entry.ts_read = 60;
    assert_eq!(t.readwrite_lock(&k, &mut entry), Ok(()));
    assert_eq!((entry.ts_read, entry.ts_write), (100, 100));
    assert_eq!(t.deps, vec![50]);
    assert_eq!(t.redo.len(), 1);
    assert_eq!(t.redo[0].1, 50);
    assert!(t.redo[0].2.is_none());
}

#[test]
fn a_read_behind_a_tombstone_finds_nothing() {
    let t = Transaction::new(1);
    let entry = KvEntry::new(KvData::Tombstone { cached: false });
    assert!(t.read(&entry).is_none());
}

/// Two transactions 100 and 200: the later read-locks `k`, the earlier tries
/// to write `k` and fails; the earlier aborts; the later commits.
#[test]
fn the_earlier_writer_aborts_and_the_later_reader_commits() {
    let mut tree = LsmTree::new();
    tree.raw_insert(key("k"), ByteStream::from_slice(b"start"));
    let t1 = tree.tr_create(100);
    let t2 = tree.tr_create(200);
    assert_eq!(tree.tr_lock_ro(&t2, &key("k")), Ok(()));
    // a write needs the lock of a writer, which the read of t2 forbids
    assert_eq!(tree.tr_lock_rw(&t1, &key("k")), Err(()));
    assert!(tree.tr_abort(t1).is_empty());
    assert!(tree.tr_wait_begin(&t2).is_empty());
    assert_eq!(tree.tr_wait_end(&t2), Ok(()));
    assert!(tree.tr_commit(t2).is_empty());
    assert_eq!(tree.raw_get(b"k").map(|v| v.as_ref().to_vec()), Some(b"start".to_vec()));
}

/// Transaction 300 write-locks `k`; before it commits, transaction 400
/// read-write-locks `k` and waits; 300 aborts; the wait of 400 fails, and
/// 400 aborts. The entry is as it was before 300.
#[test]
fn an_abort_reaches_the_transaction_that_waits() {
    let mut mgr = TransactionMgrImpl::new();
    let mut table = BTree::<ByteStream, KvEntry>::new();
    let k = key("k");
    let mut entry = KvEntry::new(value("before"));
    entry.ts_write = 7;
    table.insert(key("k"), entry);

    assert!(mgr.create(300));
    assert!(mgr.create(400));
    assert!(!mgr.create(400));

    assert_eq!(mgr.write(300, &k, table.get(&k).unwrap(), value("by-300")), Ok(()));
    assert_eq!(table.lookup(&k).unwrap().ts_write, 300);
    assert_eq!(mgr.readwrite_lock(400, &k, table.get(&k).unwrap()), Ok(()));
    assert_eq!(table.lookup(&k).unwrap().ts_write, 400);

    assert_eq!(mgr.wait_begin(400), vec![300]);
    assert_eq!(mgr.state_of(400), Some(TransactionState::Waiting));

    // the later transaction reverts first what it did, as the log is undone
    // in the reverse order of the changes
    assert_eq!(mgr.abort(300, &mut table), vec![400]);
    assert!(!mgr.knows(300));
    assert_eq!(mgr.state_of(400), Some(TransactionState::Aborting));
    assert_eq!(mgr.wait_end(400), Err(()));
    // the record is the one from before 300
    assert_eq!(text(&table.lookup(&k).unwrap().record), Some("before".to_string()));
    assert_eq!(table.lookup(&k).unwrap().ts_write, 7);
    assert!(mgr.abort(400, &mut table).is_empty());
    assert!(!mgr.knows(400));
    assert_eq!(text(&table.lookup(&k).unwrap().record), Some("before".to_string()));
    // the log of 400 holds the write timestamp that 400 found, that of 300
    assert_eq!(table.lookup(&k).unwrap().ts_write, 300);
}

#[test]
fn an_abort_restores_timestamp_and_record() {
    let mut mgr = TransactionMgrImpl::new();
    let mut table = BTree::<ByteStream, KvEntry>::new();
    let mut entry = KvEntry::new(value("before"));
    entry.ts_write = 7;
    entry.ts_read = 9;
    table.insert(key("k"), entry);
    table.insert(key("l"), KvEntry::new(value("other")));

    mgr.create(300);
    assert_eq!(mgr.write(300, &key("k"), table.get(&key("k")).unwrap(), value("first")), Ok(()));
    assert_eq!(mgr.write(300, &key("k"), table.get(&key("k")).unwrap(), value("second")), Ok(()));
    assert_eq!(mgr.readwrite_lock(300, &key("l"), table.get(&key("l")).unwrap()), Ok(()));
    assert_eq!(text(&table.lookup(&key("k")).unwrap().record), Some("second".to_string()));
    assert_eq!(table.lookup(&key("l")).unwrap().ts_write, 300);

    assert!(mgr.abort(300, &mut table).is_empty());
    let k = table.lookup(&key("k")).unwrap();
    assert_eq!(text(&k.record), Some("before".to_string()));
    assert_eq!(k.ts_write, 7);
    assert_eq!(k.ts_read, 9);
    let l = table.lookup(&key("l")).unwrap();
    assert_eq!(text(&l.record), Some("other".to_string()));
    assert_eq!(l.ts_write, 0);
    // the read timestamp is a high-water mark and stays
    assert_eq!(l.ts_read, 300);
}

#[test]
fn a_wait_names_the_writers_that_are_under_way() {
    let mut mgr = TransactionMgrImpl::new();
    let mut table = BTree::<ByteStream, KvEntry>::new();
    for name in ["a", "b", "c", "d"] {
        table.insert(key(name), KvEntry::new(value("v")));
    }
    for ts in [10, 20, 30, 40] {
        mgr.create(ts);
    }
    assert_eq!(mgr.write(10, &key("a"), table.get(&key("a")).unwrap(), value("x")), Ok(()));
    assert_eq!(mgr.write(20, &key("b"), table.get(&key("b")).unwrap(), value("x")), Ok(()));
    assert_eq!(mgr.write(30, &key("c"), table.get(&key("c")).unwrap(), value("x")), Ok(()));
    assert!(mgr.commit(20).is_empty());
    // 40 reads a, b, c, d and its own write
    assert_eq!(mgr.write(40, &key("d"), table.get(&key("d")).unwrap(), value("x")), Ok(()));
    for name in ["a", "b", "c", "d"] {
        assert_eq!(mgr.read_lock(40, table.get(&key(name)).unwrap()), Ok(()));
    }
    // 10 and 30 are under way; 20 has committed; 40 is the transaction itself
    assert_eq!(mgr.wait_begin(40), vec![10, 30]);
    assert_eq!(mgr.state_of(40), Some(TransactionState::Waiting));
    assert_eq!(mgr.commit(10), vec![40]);
    assert_eq!(mgr.commit(30), vec![40]);
    assert_eq!(mgr.wait_end(40), Ok(()));
    assert_eq!(mgr.state_of(40), Some(TransactionState::Idle));
    mgr.remove_trans(10);
    assert!(!mgr.knows(10));
    assert!(mgr.knows(30));
}

#[test]
fn a_wait_without_writers_under_way_does_not_wait() {
    let mut mgr = TransactionMgrImpl::new();
    mgr.create(5);
    assert!(mgr.wait_begin(5).is_empty());
    assert_eq!(mgr.state_of(5), Some(TransactionState::Idle));
    assert_eq!(mgr.wait_end(5), Ok(()));
    // an unknown transaction
    assert!(mgr.wait_begin(6).is_empty());
    assert_eq!(mgr.wait_end(6), Err(()));
    assert_eq!(mgr.read_lock(6, &mut KvEntry::new(value("v"))), Err(()));
    assert!(mgr.commit(6).is_empty());
}

#[test]
fn reads_go_through_the_levels_from_the_newest() {
    let mut tree = LsmTree::with_budget(usize::MAX);
    tree.raw_insert(key("a"), ByteStream::from_slice(b"old-a"));
    tree.raw_insert(key("b"), ByteStream::from_slice(b"old-b"));
    tree.raw_insert(key("c"), ByteStream::from_slice(b"old-c"));
    tree.freeze();
    tree.raw_insert(key("a"), ByteStream::from_slice(b"mid-a"));
    tree.raw_delete(key("b"));
    tree.freeze();
    tree.raw_insert(key("a"), ByteStream::from_slice(b"new-a"));
    assert_eq!(tree.frozen(), 2);

    let get = |tree: &mut LsmTree, k: &str| tree.raw_get(k.as_bytes()).map(|v| v.as_ref().to_vec());
    assert_eq!(get(&mut tree, "a"), Some(b"new-a".to_vec()));
    assert_eq!(get(&mut tree, "b"), None);
    assert_eq!(get(&mut tree, "c"), Some(b"old-c".to_vec()));
    assert_eq!(get(&mut tree, "d"), None);

    // the oldest memtable goes out to a run
    let bytes = tree.write_oldest().unwrap().into_bytes();
    assert_eq!(tree.retire_oldest(SSLoc { tier: 1, run: 0 }, bytes), Ok(()));
    assert_eq!(tree.frozen(), 1);
    assert_eq!(get(&mut tree, "a"), Some(b"new-a".to_vec()));
    assert_eq!(get(&mut tree, "b"), None);
    assert_eq!(get(&mut tree, "c"), Some(b"old-c".to_vec()));

    // and the next one, to a newer run of the same tier
    let bytes = tree.write_oldest().unwrap().into_bytes();
    assert_eq!(tree.retire_oldest(SSLoc { tier: 1, run: 1 }, bytes), Ok(()));
    assert_eq!(tree.frozen(), 0);
    assert!(tree.write_oldest().is_none());
    assert_eq!(get(&mut tree, "a"), Some(b"new-a".to_vec()));
    assert_eq!(get(&mut tree, "b"), None);
    assert_eq!(get(&mut tree, "c"), Some(b"old-c".to_vec()));
    tree.raw_delete(key("a"));
    assert_eq!(get(&mut tree, "a"), None);
}

#[test]
fn a_run_is_refused_where_it_cannot_come_in() {
    let mut tree = LsmTree::with_budget(usize::MAX);
    assert_eq!(tree.retire_oldest(SSLoc { tier: 1, run: 0 }, vec![]), Err(LsmError::NothingFrozen));
    tree.raw_insert(key("a"), ByteStream::from_slice(b"1"));
    tree.freeze();
    assert_eq!(
        tree.retire_oldest(SSLoc { tier: 1, run: 0 }, vec![1, 2, 3]),
        Err(LsmError::Corrupt(SSTableError::InvalidMagic))
    );
    assert_eq!(tree.frozen(), 1);
    let bytes = tree.write_oldest().unwrap().into_bytes();
    assert_eq!(tree.retire_oldest(SSLoc { tier: 1, run: 0 }, bytes.clone()), Ok(()));
    tree.raw_insert(key("b"), ByteStream::from_slice(b"2"));
    tree.freeze();
    // the location is taken
    assert_eq!(
        tree.retire_oldest(SSLoc { tier: 1, run: 0 }, bytes.clone()),
        Err(LsmError::LocationTaken)
    );
    assert_eq!(tree.frozen(), 1);
    assert_eq!(tree.add_run(SSLoc { tier: 1, run: 0 }, bytes.clone()), Err(LsmError::LocationTaken));
    assert_eq!(
        tree.add_run(SSLoc { tier: 3, run: 0 }, vec![9; 40]),
        Err(LsmError::Corrupt(SSTableError::InvalidMagic))
    );
    assert_eq!(tree.add_run(SSLoc { tier: 3, run: 0 }, bytes), Ok(()));
    assert_eq!(
        tree.locations(),
        vec![SSLoc { tier: 1, run: 0 }, SSLoc { tier: 3, run: 0 }]
    );
    assert_eq!(tree.tr_state(1), None);
}

#[test]
fn level_zero_is_frozen_once_it_outgrows_its_budget() {
    let mut tree = LsmTree::with_budget(100);
    for i in 0..10 {
        tree.raw_insert(key(&format!("key-{i}")), ByteStream::from_slice(&[b'x'; 20]));
    }
    // 25 bytes a pair: every fifth pair brings level 0 over its budget
    assert_eq!(tree.frozen(), 2);
    for i in 0..10 {
        assert_eq!(
            tree.raw_get(format!("key-{i}").as_bytes()).map(|v| v.len()),
            Some(20)
        );
    }
}

#[test]
fn a_lock_on_a_key_that_level_zero_lacks() {
    let mut tree = LsmTree::new();
    let t = tree.tr_create(10);
    // nothing to lock for a reader
    assert_eq!(tree.tr_lock_ro(&t, &key("k")), Ok(()));
    assert_eq!(tree.raw_get(b"k"), None);
    // a writer gets an entry with an empty value
    assert_eq!(tree.tr_lock_rw(&t, &key("k")), Ok(()));
    assert_eq!(tree.raw_get(b"k").map(|v| v.len()), Some(0));
    assert_eq!(t.ts(), 10);
    // an earlier transaction comes too late
    let early = tree.tr_create(5);
    assert_eq!(tree.tr_lock_ro(&early, &key("k")), Err(()));
    assert_eq!(tree.tr_lock_rw(&early, &key("k")), Err(()));
    assert!(tree.tr_commit(t).is_empty());
    assert!(tree.tr_abort(early).is_empty());
}

#[test]
fn locations_order_runs_from_the_newest() {
    let a = SSLoc { tier: 1, run: 5 };
    let b = SSLoc { tier: 1, run: 7 };
    let c = SSLoc { tier: 2, run: 9 };
    assert_eq!(a.compare(&a), Order::Equal);
    assert_eq!(b.compare(&a), Order::Less);
    assert_eq!(a.compare(&b), Order::Greater);
    assert_eq!(a.compare(&c), Order::Less);
    assert_eq!(c.compare(&b), Order::Greater);
}

#[test]
fn runs_are_merged_into_one_with_the_newest_on_top() {
    let mut tree = LsmTree::with_budget(usize::MAX);
    let get = |tree: &mut LsmTree, k: &str| tree.raw_get(k.as_bytes()).map(|v| v.as_ref().to_vec());
    // three generations of pairs, each written out to a run of its own
    for generation in 0..3_u32 {
        for i in 0..200_u32 {
            if i % (generation + 1) == 0 {
                tree.raw_insert(
                    key(&format!("key-{i:03}")),
                    ByteStream::from_slice(format!("gen-{generation}").as_bytes()),
                );
            }
        }
        if generation == 2 {
            tree.raw_delete(key("key-000"));
        }
        tree.freeze();
        let bytes = tree.write_oldest().unwrap().into_bytes();
        assert_eq!(tree.retire_oldest(SSLoc { tier: 1, run: generation }, bytes), Ok(()));
    }
    let wanted = |i: u32| -> Option<Vec<u8>> {
        if i == 0 {
            None
        } else if i % 3 == 0 {
            Some(b"gen-2".to_vec())
        } else if i % 2 == 0 {
            Some(b"gen-1".to_vec())
        } else {
            Some(b"gen-0".to_vec())
        }
    };
    for i in 0..200 {
        assert_eq!(get(&mut tree, &format!("key-{i:03}")), wanted(i));
    }

    assert!(tree.merge_runs(0, 4).is_none());
    assert!(tree.merge_runs(2, 2).is_none());
    let merged = tree.merge_runs(0, 3).unwrap().into_bytes();
    // the location of a run that goes away may be taken
    // the runs stand the newest first: run 2, run 1, run 0
    assert_eq!(
        tree.replace_runs(0, 2, SSLoc { tier: 1, run: 0 }, merged.clone()),
        Err(LsmError::LocationTaken)
    );
    assert_eq!(
        tree.replace_runs(0, 3, SSLoc { tier: 2, run: 0 }, vec![0; 20]),
        Err(LsmError::Corrupt(SSTableError::InvalidMagic))
    );
    assert_eq!(
        tree.replace_runs(1, 4, SSLoc { tier: 2, run: 0 }, merged.clone()),
        Err(LsmError::NoSuchRuns)
    );
    assert_eq!(tree.replace_runs(0, 3, SSLoc { tier: 2, run: 0 }, merged), Ok(()));
    assert!(tree.merge_runs(0, 2).is_none());
    for i in 0..200 {
        assert_eq!(get(&mut tree, &format!("key-{i:03}")), wanted(i));
    }
    // the merged run is an ordinary run
    let again = tree.merge_runs(0, 1).unwrap().into_bytes();
    assert_eq!(tree.replace_runs(0, 1, SSLoc { tier: 3, run: 0 }, again), Ok(()));
    for i in 0..200 {
        assert_eq!(get(&mut tree, &format!("key-{i:03}")), wanted(i));
    }
}

#[test]
fn a_scan_shows_the_newest_value_of_every_key_in_the_range() {
    let mut tree = LsmTree::with_budget(usize::MAX);
    // the oldest pairs go out to a run
    for name in ["a", "b", "c", "d", "e", "f"] {
        tree.raw_insert(key(name), ByteStream::from_slice(format!("run-{name}").as_bytes()));
    }
    tree.freeze();
    let bytes = tree.write_oldest().unwrap().into_bytes();
    assert_eq!(tree.retire_oldest(SSLoc { tier: 1, run: 0 }, bytes), Ok(()));
    // newer pairs in a frozen memtable
    tree.raw_insert(key("b"), ByteStream::from_slice(b"frozen-b"));
    tree.raw_delete(key("c"));
    tree.raw_insert(key("g"), ByteStream::from_slice(b"frozen-g"));
    tree.freeze();
    // the newest pairs in level 0
    tree.raw_insert(key("a"), ByteStream::from_slice(b"fresh-a"));
    tree.raw_delete(key("g"));
    tree.raw_insert(key("h"), ByteStream::from_slice(b"fresh-h"));

    let shown = |pairs: Vec<(ByteStream, ByteStream)>| -> Vec<(String, String)> {
        pairs
            .iter()
            .map(|(k, v)| {
                (
                    String::from_utf8(k.as_ref().to_vec()).unwrap(),
                    String::from_utf8(v.as_ref().to_vec()).unwrap(),
                )
            })
            .collect()
    };
    let wanted = |names: &[(&str, &str)]| -> Vec<(String, String)> {
        names.iter().map(|(k, v)| (k.to_string(), v.to_string())).collect()
    };
    assert_eq!(
        shown(tree.scan(None, None).unwrap()),
        wanted(&[
            ("a", "fresh-a"),
            ("b", "frozen-b"),
            ("d", "run-d"),
            ("e", "run-e"),
            ("f", "run-f"),
            ("h", "fresh-h"),
        ])
    );
    assert_eq!(
        shown(tree.scan(Some(b"b"), Some(b"f")).unwrap()),
        wanted(&[("b", "frozen-b"), ("d", "run-d"), ("e", "run-e")])
    );
    assert_eq!(shown(tree.scan(Some(b"ba"), None).unwrap()).len(), 4);
    assert_eq!(shown(tree.scan(None, Some(b"a")).unwrap()).len(), 0);
    assert_eq!(shown(tree.scan(Some(b"x"), Some(b"b")).unwrap()).len(), 0);
    assert!(LsmTree::new().scan(None, None).unwrap().is_empty());
}

#[test]
fn locations_compare_with_the_operators_too() {
    let newer = SSLoc { tier: 1, run: 7 };
    let older = SSLoc { tier: 1, run: 5 };
    let oldest = SSLoc { tier: 2, run: 9 };
    assert!(newer < older);
    assert!(older < oldest);
    assert!(oldest > newer);
    assert!(newer <= newer && newer >= newer);
    assert_eq!(newer.partial_cmp(&older), Some(std::cmp::Ordering::Less));
}
