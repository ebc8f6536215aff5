use kleestor::memtable::btree::BTree;
use kleestor::memtable::rbtree::{RBTree, RBTreePointer};
use kleestor::memtable::MemTable;
use kleestor::record::bytestream::ByteStream;
use kleestor::record::iterator::{EntryPointer, KvPointer, KvSource, OwnedPointer};
use kleestor::record::kventry::{KvData, KvDataRef, KvEntry};
use kleestor::sstable::format::SSTableError;
use kleestor::sstable::reader::SSTableReader;
use kleestor::sstable::writer::SSTableWriter;
use kleestor::utils::varint::VarUint64;

fn value(bytes: &[u8]) -> KvData {
    KvData::Value { cached: false, value: ByteStream::from_slice(bytes) }
}

fn pair(key: &[u8], data: KvData) -> OwnedPointer {
    OwnedPointer { key: ByteStream::from_slice(key), data }
}

fn table_of(pairs: &[OwnedPointer]) -> Vec<u8> {
    let mut writer = SSTableWriter::new();
    writer.write(pairs);
    writer.into_bytes()
}

fn shown(data: &Option<KvData>) -> Option<Option<Vec<u8>>> {
    match data {
        None => None,
        Some(KvData::Tombstone { cached }) => {
            assert!(*cached);
            Some(None)
        }
        Some(KvData::Value { cached, value }) => {
            assert!(*cached);
            Some(Some(value.as_ref().to_vec()))
        }
    }
}

/// Checks if the reader can successfully read index.
#[test]
fn can_load() {
    // create input memtable
    let mut map = RBTree::<ByteStream, KvEntry>::new();
    for _i in 0..1000 {
        let i = _i;
        let key = format!("sample-key-{i}");
        let value = format!("value-{i}-{i}-{i}-{i}-{i}-{i}-{i}-{i}-{i}-{i}");
        map.insert(
            ByteStream::from_slice(key.as_bytes()),
            KvEntry::new(KvData::Value {
                cached: false,
                value: ByteStream::from_slice(value.as_bytes()),
            }),
        );
    }

    // write memtable
    let mut table = SSTableWriter::new();
    let mut pairs = map.iter_mut().unwrap();
    let mut items: Vec<RBTreePointer> = Vec::new();
    while let Some(item) = pairs.next() {
        items.push(item);
    }
    assert_eq!(items.len(), 1000);
    table.write(&items);
    let bytes = table.into_bytes();

    // read memtable
    let table = SSTableReader::new(bytes).unwrap();
    drop(table);
}

#[test]
fn five_thousand_pairs_survive_a_flush() {
    let mut map = BTree::<ByteStream, KvEntry>::new();
    for i in 0..5000 {
        let key = format!("sample-key-{}", 1000 + i);
        let value = format!("value-{i}-{i}-{i}");
        map.insert(ByteStream::from_slice(key.as_bytes()), KvEntry::new(self::value(value.as_bytes())));
    }
    let items: Vec<EntryPointer> =
        map.entries().into_iter().map(|(key, entry)| EntryPointer { key, entry }).collect();
    let mut writer = SSTableWriter::new();
    writer.write(&items);
    let mut reader = SSTableReader::new(writer.into_bytes()).unwrap();

    assert_eq!(shown(&reader.get(b"sample-key-3333")), Some(Some(b"value-2333-2333-2333".to_vec())));
    assert_eq!(shown(&reader.get(b"sample-key-999999")), None);

    let mut wanted: Vec<(Vec<u8>, Vec<u8>)> = (0..5000)
        .map(|i| {
            (format!("sample-key-{}", 1000 + i).into_bytes(), format!("value-{i}-{i}-{i}").into_bytes())
        })
        .collect();
    wanted.sort();
    let mut iter = reader.iter();
    let mut seen = 0;
    while let Some(item) = iter.next() {
        assert_eq!(item.key(), &wanted[seen].0[..]);
        match item.value() {
            KvDataRef::Value { cached: true, value } => assert_eq!(value, &wanted[seen].1[..]),
            other => panic!("unexpected record {other:?}"),
        }
        seen += 1;
    }
    assert_eq!(seen, 5000);

    for (key, value) in wanted.iter().step_by(7) {
        assert_eq!(shown(&reader.get(key)), Some(Some(value.clone())));
        // a second time, from the caches
        assert_eq!(shown(&reader.get(key)), Some(Some(value.clone())));
    }
    for i in 0..5000 {
        let key = format!("sample-key-{}", 1000 + i);
        let value = format!("value-{i}-{i}-{i}");
        assert_eq!(shown(&reader.get(key.as_bytes())), Some(Some(value.into_bytes())));
        let absent = format!("sample-key-{}x", 1000 + i);
        assert_eq!(shown(&reader.get(absent.as_bytes())), None);
    }
}

#[test]
fn the_bytes_of_a_small_run_are_as_the_format_says() {
    let bytes = table_of(&[
        pair(b"apple", value(b"1")),
        pair(b"apply", KvData::Tombstone { cached: false }),
        pair(b"apricot", value(b"333")),
    ]);
    let mut wanted: Vec<u8> = Vec::new();
    // first record, an anchor at offset 0
    wanted.extend_from_slice(&[5, 0, 1, 0]);
    wanted.extend_from_slice(b"apple");
    wanted.extend_from_slice(b"1");
    // second record shares "appl" with the first; a tombstone
    wanted.extend_from_slice(&[5, 4, 0, 1]);
    wanted.extend_from_slice(b"y");
    // last record, an anchor
    let last = wanted.len();
    wanted.extend_from_slice(&[7, 0, 3, 0]);
    wanted.extend_from_slice(b"apricot");
    wanted.extend_from_slice(b"333");
    // end of the records
    wanted.extend_from_slice(&[0, 0, 0, 0]);
    let index_at = wanted.len();
    wanted.extend_from_slice(&[2, 0, last as u8]);
    let bloom_at = wanted.len();
    assert_eq!(&bytes[..bloom_at], &wanted[..]);

    // the Bloom filter block: two mebibytes behind their length
    let mut length = [0_u8; 9];
    let n = VarUint64::as_slice(1 << 21, &mut length);
    assert_eq!(&bytes[bloom_at..bloom_at + n], &length[..n]);
    let header_at = bloom_at + n + (1 << 21);

    // the header block
    let mut header: Vec<u8> = vec![2, 1, index_at as u8, 2, bloom_at as u8];
    let mut offset = [0_u8; 9];
    let n = VarUint64::as_slice(header_at as u64, &mut offset);
    header.extend_from_slice(&(header_at as u64).to_le_bytes());
    header.extend_from_slice(&0x1145_1419_1981_fee1_u64.to_le_bytes());
    assert_eq!(&bytes[header_at..], &header[..]);
    assert!(n > 1);
    assert_eq!(bytes.len(), header_at + 5 + 16);
}

#[test]
fn cached_pairs_are_not_written() {
    let bytes = table_of(&[
        pair(b"a", value(b"1")),
        pair(b"b", KvData::Value { cached: true, value: ByteStream::from_slice(b"2") }),
        pair(b"c", KvData::Tombstone { cached: true }),
        pair(b"d", KvData::Tombstone { cached: false }),
        pair(b"e", KvData::Value { cached: true, value: ByteStream::from_slice(b"5") }),
    ]);
    let mut reader = SSTableReader::new(bytes).unwrap();
    assert_eq!(shown(&reader.get(b"a")), Some(Some(b"1".to_vec())));
    assert_eq!(shown(&reader.get(b"b")), None);
    assert_eq!(shown(&reader.get(b"c")), None);
    assert_eq!(shown(&reader.get(b"d")), Some(None));
    assert_eq!(shown(&reader.get(b"e")), None);
    let mut iter = reader.iter();
    let mut keys: Vec<Vec<u8>> = Vec::new();
    while let Some(item) = iter.next() {
        keys.push(item.key().to_vec());
    }
    assert_eq!(keys, vec![b"a".to_vec(), b"d".to_vec()]);
}

#[test]
fn an_empty_run_can_be_read() {
    let bytes = table_of(&[]);
    let mut reader = SSTableReader::new(bytes).unwrap();
    assert_eq!(shown(&reader.get(b"anything")), None);
    assert!(reader.iter().next().is_none());
    assert!(reader.get_iter(b"anything").is_none());
}

#[test]
fn anchors_come_every_fifty_one_records_and_at_the_end() {
    let pairs: Vec<OwnedPointer> =
        (0..120).map(|i| pair(format!("key-{i:04}").as_bytes(), value(b"v"))).collect();
    let bytes = table_of(&pairs);
    let mut reader = SSTableReader::new(bytes.clone()).unwrap();
    // walk the records and note those that are written in full
    let mut iter = reader.iter();
    let mut anchors = Vec::new();
    let mut count = 0;
    while let Some(item) = iter.next() {
        let at = item.offset();
        if bytes[at + 1] == 0 {
            anchors.push(count);
        }
        count += 1;
    }
    assert_eq!(count, 120);
    assert_eq!(anchors, vec![0, 51, 102, 119]);
    for i in 0..120 {
        assert_eq!(shown(&reader.get(format!("key-{i:04}").as_bytes())), Some(Some(b"v".to_vec())));
    }
    assert_eq!(shown(&reader.get(b"key-0000x")), None);
    assert_eq!(shown(&reader.get(b"key")), None);
    assert_eq!(shown(&reader.get(b"zzz")), None);
}

#[test]
fn get_iter_stands_at_the_key_and_goes_on() {
    let pairs: Vec<OwnedPointer> =
        (0..200).map(|i| pair(format!("k{i:03}").as_bytes(), value(format!("{i}").as_bytes()))).collect();
    let reader = SSTableReader::new(table_of(&pairs)).unwrap();
    let mut iter = reader.get_iter(b"k150").unwrap();
    for i in 150..200 {
        let item = iter.next().unwrap();
        assert_eq!(item.key(), format!("k{i:03}").as_bytes());
    }
    assert!(iter.next().is_none());
    assert!(reader.get_iter(b"k1500").is_none());
}

#[test]
fn bytes_that_are_no_run_are_refused() {
    let good = table_of(&[pair(b"a", value(b"1")), pair(b"b", value(b"2"))]);
    assert!(SSTableReader::new(good.clone()).is_ok());

    let refused = |bytes: Vec<u8>| match SSTableReader::new(bytes) {
        Ok(_) => panic!("accepted"),
        Err(e) => e,
    };

    assert_eq!(refused(vec![]), SSTableError::InvalidMagic);
    assert_eq!(refused(vec![0; 15]), SSTableError::InvalidMagic);
    let mut bad = good.clone();
    let len = bad.len();
    bad[len - 1] ^= 1;
    assert_eq!(refused(bad), SSTableError::InvalidMagic);

    // a header offset behind the end
    let mut bad = good.clone();
    bad[len - 16..len - 8].copy_from_slice(&u64::MAX.to_le_bytes());
    assert_eq!(refused(bad), SSTableError::OutOfBounds);

    // the header block: [2, 1, index, 2, bloom...]
    let header_at = u64::from_le_bytes(good[len - 16..len - 8].try_into().unwrap()) as usize;
    assert_eq!(good[header_at], 2);
    let mut bad = good.clone();
    bad[header_at + 1] = 3;
    assert_eq!(refused(bad), SSTableError::InvalidBlockType);
    let mut bad = good.clone();
    bad[header_at + 1] = 2;
    assert_eq!(refused(bad), SSTableError::MissingIndex);
    // a header block with the entry of the index alone
    let mut bad = good.clone();
    bad[header_at] = 1;
    assert_eq!(refused(bad), SSTableError::MissingBloomFilter);
    // a header block without entries
    let mut bad = good.clone();
    bad[header_at] = 0;
    assert_eq!(refused(bad), SSTableError::MissingIndex);
    // a header block that announces more entries than there are bytes
    let mut bad = good[..header_at].to_vec();
    bad.extend_from_slice(&[3, 1, 0, 2]);
    let mut footer = (header_at as u64).to_le_bytes().to_vec();
    footer.extend_from_slice(&0x1145_1419_1981_fee1_u64.to_le_bytes());
    // the entries run into the footer, whose bytes are no block types
    bad.extend_from_slice(&footer);
    assert!(matches!(
        refused(bad),
        SSTableError::InvalidBlockType | SSTableError::OutOfBounds
    ));
}

#[test]
fn a_broken_index_or_filter_is_refused() {
    let good = table_of(&[pair(b"aa", value(b"1")), pair(b"ab", value(b"2")), pair(b"b", value(b"3"))]);
    let len = good.len();
    let header_at = u64::from_le_bytes(good[len - 16..len - 8].try_into().unwrap()) as usize;
    let index_at = good[header_at + 2] as usize;
    assert_eq!(&good[index_at..index_at + 3], &[2, 0, good[index_at + 2]]);
    let refused = |bytes: Vec<u8>| match SSTableReader::new(bytes) {
        Ok(_) => panic!("accepted"),
        Err(e) => e,
    };

    // the second anchor points at the compressed record "ab"
    let second = 4 + 2 + 1;
    assert_eq!(&good[second..second + 4], &[2, 1, 1, 0]);
    let mut bad = good.clone();
    bad[index_at + 2] = second as u8;
    assert_eq!(refused(bad), SSTableError::CompressedIndexKey);

    // both anchors point at the first record
    let mut bad = good.clone();
    bad[index_at + 2] = 0;
    assert_eq!(refused(bad), SSTableError::UnsortedIndex);

    // an anchor whose header runs past the end: the index points at the
    // last byte of the run
    let mut bad: Vec<u8> = vec![1, 0, 0, 0, b'a', 0, 0, 0, 0];
    bad.extend_from_slice(&[1, 31]);
    bad.extend_from_slice(&[2, 1, 9, 2, 9]);
    bad.extend_from_slice(&11_u64.to_le_bytes());
    bad.extend_from_slice(&0x1145_1419_1981_fee1_u64.to_le_bytes());
    assert_eq!(bad.len(), 32);
    assert_eq!(refused(bad), SSTableError::OutOfBounds);

    // an anchor whose key runs past the end
    let mut bad: Vec<u8> = vec![100, 0, 0, 0, b'a', 0, 0, 0, 0];
    bad.extend_from_slice(&[1, 0]);
    bad.extend_from_slice(&[2, 1, 9, 2, 9]);
    bad.extend_from_slice(&11_u64.to_le_bytes());
    bad.extend_from_slice(&0x1145_1419_1981_fee1_u64.to_le_bytes());
    assert_eq!(refused(bad), SSTableError::OutOfBounds);

    // a filter of the wrong size
    let bloom_at = good[header_at + 4] as usize;
    let mut bad = good.clone();
    bad[bloom_at] = 5;
    assert_eq!(refused(bad), SSTableError::BloomSizeMismatch);

    // a filter that is cut short
    let mut bad = good[..bloom_at + 100].to_vec();
    let mut header = vec![2, 1, index_at as u8, 2, bloom_at as u8];
    let at = bad.len() as u64;
    bad.append(&mut header);
    bad.extend_from_slice(&at.to_le_bytes());
    bad.extend_from_slice(&0x1145_1419_1981_fee1_u64.to_le_bytes());
    assert_eq!(refused(bad), SSTableError::OutOfBounds);
}

#[test]
fn the_caches_answer_before_the_run_does() {
    let pairs: Vec<OwnedPointer> =
        (0..300).map(|i| pair(format!("k{i:03}").as_bytes(), value(format!("{i}").as_bytes()))).collect();
    let mut reader = SSTableReader::new(table_of(&pairs)).unwrap();
    // more lookups than the caches hold pairs
    for round in 0..3 {
        for i in 0..300 {
            let got = reader.get(format!("k{i:03}").as_bytes());
            assert_eq!(shown(&got), Some(Some(format!("{i}").into_bytes())), "round {round}");
        }
    }
}

#[test]
fn tombstones_and_values_keep_their_kind() {
    let mut reader = SSTableReader::new(table_of(&[
        pair(b"gone", KvData::Tombstone { cached: false }),
        pair(b"here", value(b"")),
        pair(b"there", value(b"x")),
    ]))
    .unwrap();
    assert_eq!(shown(&reader.get(b"gone")), Some(None));
    assert_eq!(shown(&reader.get(b"here")), Some(Some(vec![])));
    assert_eq!(shown(&reader.get(b"there")), Some(Some(b"x".to_vec())));
}

#[test]
fn the_keys_of_a_written_run_ascend() {
    let pairs: Vec<OwnedPointer> =
        (0..300).map(|i| pair(format!("k{i:03}").as_bytes(), value(b"v"))).collect();
    let reader = SSTableReader::new(table_of(&pairs)).unwrap();
    assert!(reader.scan_ascends());
    assert!(SSTableReader::new(table_of(&[])).unwrap().scan_ascends());

    // a run made by hand whose two records stand in the wrong order
    let mut bad: Vec<u8> = vec![1, 0, 0, 1, b'b', 1, 0, 0, 1, b'a', 0, 0, 0, 0];
    let index_at = bad.len() as u8;
    bad.extend_from_slice(&[1, 0]);
    let bloom_at = bad.len() as u8;
    let mut length = [0_u8; 9];
    let n = VarUint64::as_slice(1 << 21, &mut length);
    bad.extend_from_slice(&length[..n]);
    bad.extend(std::iter::repeat(0xff).take(1 << 21));
    let header_at = bad.len() as u64;
    bad.extend_from_slice(&[2, 1, index_at, 2, bloom_at]);
    bad.extend_from_slice(&header_at.to_le_bytes());
    bad.extend_from_slice(&0x1145_1419_1981_fee1_u64.to_le_bytes());
    let mut reader = SSTableReader::new(bad.clone()).unwrap();
    assert!(!reader.scan_ascends());
    // a search for "a" ends at the anchor "b", which is above it
    assert_eq!(shown(&reader.get(b"a")), None);
    assert_eq!(shown(&reader.get(b"b")), Some(None));
    // the record behind "b" went into the look-aside cache, which answers
    // before the run is searched
    assert_eq!(shown(&reader.get(b"a")), Some(None));
    assert_eq!(shown(&reader.get(b"a")), Some(None));
    // another reader of the same bytes has not seen it
    let mut fresh = SSTableReader::new(bad).unwrap();
    assert_eq!(shown(&fresh.get(b"a")), None);
}

#[test]
fn a_lookup_at_the_last_anchor_brings_one_record_into_the_cache() {
    // a run made by hand: the anchor "zz", and behind it records whose keys
    // are below the anchor, so that a search never finds them
    let mut bad: Vec<u8> = vec![2, 0, 0, 1, b'z', b'z'];
    for i in 0..20 {
        bad.extend_from_slice(&[4, 0, 0, 1]);
        bad.extend_from_slice(format!("k{i:03}").as_bytes());
    }
    bad.extend_from_slice(&[0, 0, 0, 0]);
    let index_at = bad.len() as u64;
    bad.extend_from_slice(&[1, 0]);
    let bloom_at = bad.len() as u64;
    let mut number = [0_u8; 9];
    let n = VarUint64::as_slice(1 << 21, &mut number);
    bad.extend_from_slice(&number[..n]);
    bad.extend(std::iter::repeat(0xff).take(1 << 21));
    let header_at = bad.len() as u64;
    bad.push(2);
    bad.push(1);
    let n = VarUint64::as_slice(index_at, &mut number);
    bad.extend_from_slice(&number[..n]);
    bad.push(2);
    let n = VarUint64::as_slice(bloom_at, &mut number);
    bad.extend_from_slice(&number[..n]);
    bad.extend_from_slice(&header_at.to_le_bytes());
    bad.extend_from_slice(&0x1145_1419_1981_fee1_u64.to_le_bytes());

    let mut reader = SSTableReader::new(bad).unwrap();
    assert_eq!(shown(&reader.get(b"k000")), None);
    assert_eq!(shown(&reader.get(b"zz")), Some(None));
    // the record behind the anchor is in the cache now, and no other
    assert_eq!(shown(&reader.get(b"k000")), Some(None));
    assert_eq!(shown(&reader.get(b"k001")), None);
}
