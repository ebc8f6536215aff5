use kleestor::memtable::rbtree::{RBTree, RBTreePointer};
use kleestor::memtable::MemTable;
use kleestor::record::bytestream::ByteStream;
use kleestor::record::iterator::{KvPointer, KvSource, OwnedPointer, SliceSource};
use kleestor::record::kventry::{KvData, KvDataRef, KvEntry};
use kleestor::record::kvmerge::KvMergeIterator;
use kleestor::sstable::reader::{SSTableReader, SSTableReaderIterator};
use kleestor::sstable::writer::SSTableWriter;

fn pair(key: &str, value: &str) -> OwnedPointer {
    OwnedPointer {
        key: ByteStream::from_slice(key.as_bytes()),
        data: KvData::Value { cached: false, value: ByteStream::from_slice(value.as_bytes()) },
    }
}

fn shown<P: KvPointer>(item: &P) -> (String, Option<String>) {
    let key = String::from_utf8(item.key().to_vec()).unwrap();
    match item.value() {
        KvDataRef::Tombstone { .. } => (key, None),
        KvDataRef::Value { value, .. } => (key, Some(String::from_utf8(value.to_vec()).unwrap())),
    }
}

/// Write run #id.
fn create_run(id: u32, begin: i64, end: i64, skip: usize) -> Vec<u8> {
    // create input memtable
    let mut map = RBTree::<ByteStream, KvEntry>::new();
    for i in (begin..=end).step_by(skip) {
        let key = format!("sample-key-{i}");
        let value = format!("value-{i}-{i}-{i}-{i}-run-{id}");
        map.insert(
            ByteStream::from_slice(key.as_bytes()),
            KvEntry::new(KvData::Value {
                cached: false,
                value: ByteStream::from_slice(value.as_bytes()),
            }),
        );
    }
    // write data
    let mut pairs = map.iter_mut().unwrap();
    let mut items: Vec<RBTreePointer> = Vec::new();
    while let Some(item) = pairs.next() {
        items.push(item);
    }
    let mut table = SSTableWriter::new();
    table.write(&items);
    table.into_bytes()
}

/// Read run.
fn read_run(bytes: Vec<u8>) -> SSTableReader {
    SSTableReader::new(bytes).unwrap()
}

#[test]
fn merge_ok() {
    // write 1000 - 9999 in 4 runs to modulo separately
    let runs = vec![
        read_run(create_run(0, 1000, 9999, 4)),
        read_run(create_run(1, 1001, 9999, 4)),
        read_run(create_run(2, 1002, 9999, 4)),
        read_run(create_run(3, 1003, 9999, 4)),
    ];
    let iters: Vec<SSTableReaderIterator> = runs.iter().map(|run| run.iter()).collect();
    // read merged items
    let mut merger = KvMergeIterator::new(iters);
    let mut seen = 0;
    let mut last: Option<Vec<u8>> = None;
    while let Some(item) = merger.next() {
        let (key, value) = shown(&item);
        let number: i64 = key["sample-key-".len()..].parse().unwrap();
        let id = (number - 1000) % 4;
        assert_eq!(value, Some(format!("value-{number}-{number}-{number}-{number}-run-{id}")));
        if let Some(before) = &last {
            assert!(before.as_slice() < item.key());
        }
        last = Some(item.key().to_vec());
        seen += 1;
    }
    assert_eq!(seen, 9000);
}

#[test]
fn the_first_run_wins_every_collision() {
    // four runs that hold every key in [1000, 9999] that their offset
    // divides in, and all of them every 12th key
    let mut plain: Vec<Vec<OwnedPointer>> = Vec::new();
    for id in 0..4_i64 {
        let mut items = Vec::new();
        for i in 1000..=9999_i64 {
            if i % 4 == id || i % 12 == 0 {
                items.push(pair(&format!("sample-key-{i}"), &format!("value-{i}-run-{id}")));
            }
        }
        plain.push(items);
    }
    let runs: Vec<SSTableReader> = plain
        .iter()
        .map(|items| {
            let mut table = SSTableWriter::new();
            table.write(items);
            SSTableReader::new(table.into_bytes()).unwrap()
        })
        .collect();
    let iters: Vec<SSTableReaderIterator> = runs.iter().map(|run| run.iter()).collect();
    let mut merger = KvMergeIterator::new(iters);
    let merged = merger.collect();
    assert_eq!(merged.len(), 9000);
    for (n, item) in merged.iter().enumerate() {
        let i = 1000 + n as i64;
        let id = if i % 12 == 0 { 0 } else { i % 4 };
        assert_eq!(
            shown(item),
            (format!("sample-key-{i}"), Some(format!("value-{i}-run-{id}")))
        );
    }
    assert!(merger.next().is_none());
}

#[test]
fn a_pair_of_the_first_source_shadows_the_second() {
    let a = vec![pair("k", "from-a")];
    let b = vec![pair("k", "from-b")];
    let mut merger = KvMergeIterator::new(vec![SliceSource::new(&a), SliceSource::new(&b)]);
    let first = merger.next().unwrap();
    assert_eq!(shown(&first), ("k".to_string(), Some("from-a".to_string())));
    assert!(merger.next().is_none());

    let mut merger = KvMergeIterator::new(vec![SliceSource::new(&b), SliceSource::new(&a)]);
    let first = merger.next().unwrap();
    assert_eq!(shown(&first), ("k".to_string(), Some("from-b".to_string())));
    assert!(merger.next().is_none());
}

#[test]
fn a_source_that_loses_a_pair_goes_on_with_its_next() {
    // the second source loses "b" to the first and must still give "c"
    let first = vec![pair("b", "1"), pair("d", "1")];
    let second = vec![pair("a", "2"), pair("b", "2"), pair("c", "2"), pair("d", "2"), pair("e", "2")];
    let third = vec![pair("b", "3"), pair("c", "3"), pair("f", "3")];
    let mut merger = KvMergeIterator::new(vec![
        SliceSource::new(&first),
        SliceSource::new(&second),
        SliceSource::new(&third),
    ]);
    let merged: Vec<(String, Option<String>)> = merger.collect().iter().map(shown).collect();
    let wanted: Vec<(String, Option<String>)> =
        [("a", "2"), ("b", "1"), ("c", "2"), ("d", "1"), ("e", "2"), ("f", "3")]
            .iter()
            .map(|(k, v)| (k.to_string(), Some(v.to_string())))
            .collect();
    assert_eq!(merged, wanted);
}

#[test]
fn tombstones_are_merged_like_values() {
    let newer = vec![OwnedPointer {
        key: ByteStream::from_slice(b"k"),
        data: KvData::Tombstone { cached: false },
    }];
    let older = vec![pair("k", "old"), pair("l", "kept")];
    let mut merger = KvMergeIterator::new(vec![SliceSource::new(&newer), SliceSource::new(&older)]);
    let merged: Vec<(String, Option<String>)> = merger.collect().iter().map(shown).collect();
    assert_eq!(
        merged,
        vec![("k".to_string(), None), ("l".to_string(), Some("kept".to_string()))]
    );
}

#[test]
fn merging_nothing_gives_nothing() {
    let none: Vec<SliceSource<OwnedPointer>> = Vec::new();
    let mut merger = KvMergeIterator::new(none);
    assert!(merger.next().is_none());
    let empty: Vec<OwnedPointer> = Vec::new();
    let mut merger = KvMergeIterator::new(vec![SliceSource::new(&empty), SliceSource::new(&empty)]);
    assert!(merger.collect().is_empty());
}

#[test]
fn a_slice_source_yields_its_pairs_in_order() {
    let items = vec![pair("a", "1"), pair("b", "2")];
    let mut source = SliceSource::new(&items);
    assert_eq!(shown(&source.next().unwrap()), ("a".to_string(), Some("1".to_string())));
    assert_eq!(shown(&source.next().unwrap()), ("b".to_string(), Some("2".to_string())));
    assert!(source.next().is_none());
    assert!(source.next().is_none());
}
