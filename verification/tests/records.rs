use kleestor::record::bytestream::ByteStream;
use kleestor::record::iterator::{EntryPointer, KvPointer, OwnedPointer};
use kleestor::record::kventry::{KvData, KvDataRef, KvEntry};

#[test]
fn a_new_entry_has_no_timestamps() {
    let entry = KvEntry::new(KvData::Tombstone { cached: false });
    assert_eq!(entry.ts_read, 0);
    assert_eq!(entry.ts_write, 0);
    assert!(matches!(entry.record, KvData::Tombstone { cached: false }));
}

#[test]
fn records_copy_and_convert_without_loss() {
    let value = KvData::Value { cached: true, value: ByteStream::from_slice(b"abc") };
    match value.clone() {
        KvData::Value { cached, value } => {
            assert!(cached);
            assert_eq!(value.as_ref(), b"abc");
        }
        _ => panic!("a value became a tombstone"),
    }
    assert!(value.is_cached());
    match value.as_ref() {
        KvDataRef::Value { cached: true, value } => assert_eq!(value, b"abc"),
        _ => panic!("reference differs from the record"),
    }
    let back = KvData::from_ref(&KvDataRef::Value { cached: false, value: b"xyz" });
    assert!(matches!(&back, KvData::Value { cached: false, value } if value.as_ref() == b"xyz"));
    assert!(!back.is_cached());
    let gone = KvData::from_ref(&KvDataRef::Tombstone { cached: true });
    assert!(matches!(gone, KvData::Tombstone { cached: true }));
    assert!(KvDataRef::Tombstone { cached: true }.clone().is_cached());
}

#[test]
fn pointers_hand_out_their_pair() {
    let key = ByteStream::from_slice(b"k");
    let entry = KvEntry::new(KvData::Value { cached: false, value: ByteStream::from_slice(b"v") });
    let pointer = EntryPointer { key: &key, entry: &entry };
    assert_eq!(pointer.key(), b"k");
    assert!(matches!(pointer.value(), KvDataRef::Value { cached: false, value: b"v" }));
    let owned = OwnedPointer {
        key: ByteStream::from_slice(b"q"),
        data: KvData::Tombstone { cached: false },
    };
    assert_eq!(owned.key(), b"q");
    assert!(matches!(owned.value(), KvDataRef::Tombstone { cached: false }));
}
