//! The records that the engine stores under its keys.

use crate::record::bytestream::ByteStream;
use vstd::prelude::*;

verus! {

/// What a record says, with its bytes as a sequence.
pub enum RecordView {
    /// The key was deleted.
    Tombstone { cached: bool },
    /// The key holds a value.
    Value { cached: bool, value: Seq<u8> },
}

impl RecordView {
    /// Whether the record is a copy of one that a lower level holds, kept
    /// for faster reads. Such a record is no write of its own.
    pub open spec fn is_cached(self) -> bool {
        match self {
            RecordView::Tombstone { cached } => cached,
            RecordView::Value { cached, .. } => cached,
        }
    }

    /// The value that a reader sees: none behind a tombstone.
    pub open spec fn visible(self) -> Option<Seq<u8>> {
        match self {
            RecordView::Tombstone { .. } => None,
            RecordView::Value { value, .. } => Some(value),
        }
    }

    /// The same record with its provenance flag set as given.
    pub open spec fn with_cached(self, cached: bool) -> RecordView {
        match self {
            RecordView::Tombstone { .. } => RecordView::Tombstone { cached },
            RecordView::Value { value, .. } => RecordView::Value { cached, value },
        }
    }
}

/// A record is either deleted or re-applied to that value.
#[derive(Debug)]
pub enum KvData {
    /// The key-value pair is marked as deleted at this record.
    Tombstone { cached: bool },
    /// The record contains a key-value pair.
    Value { cached: bool, value: ByteStream },
}

impl View for KvData {
    type V = RecordView;

    open spec fn view(&self) -> RecordView {
        match self {
            KvData::Tombstone { cached } => RecordView::Tombstone { cached: *cached },
            KvData::Value { cached, value } => RecordView::Value { cached: *cached, value: value@ },
        }
    }
}

impl Clone for KvData {
    fn clone(&self) -> (copy: Self)
        ensures
            copy@ == self@,
    {
        match self {
            KvData::Tombstone { cached } => KvData::Tombstone { cached: *cached },
            KvData::Value { cached, value } => KvData::Value {
                cached: *cached,
                value: value.clone(),
            },
        }
    }
}

impl KvData {
    /// Whether the record is a look-aside copy.
    pub fn is_cached(&self) -> (cached: bool)
        ensures
            cached == self@.is_cached(),
    {
        match self {
            KvData::Tombstone { cached } => *cached,
            KvData::Value { cached, .. } => *cached,
        }
    }

    /// The record as a reference to its bytes.
    pub fn as_ref(&self) -> (r: KvDataRef<'_>)
        ensures
            r@ == self@,
    {
        match self {
            KvData::Tombstone { cached } => KvDataRef::Tombstone { cached: *cached },
            KvData::Value { cached, value } => KvDataRef::Value {
                cached: *cached,
                value: value.as_ref(),
            },
        }
    }

    /// An owned copy of the record that `other` refers to, as a write of its
    /// own: not marked as cached.
    pub fn authoritative(other: &KvDataRef<'_>) -> (data: Self)
        ensures
            data@ == other@.with_cached(false),
    {
        match other {
            KvDataRef::Tombstone { .. } => KvData::Tombstone { cached: false },
            KvDataRef::Value { value, .. } => KvData::Value {
                cached: false,
                value: ByteStream::from_slice(value),
            },
        }
    }

    /// An owned copy of the record that `other` refers to.
    pub fn from_ref(other: &KvDataRef<'_>) -> (data: Self)
        ensures
            data@ == other@,
    {
        match other {
            KvDataRef::Tombstone { cached } => KvData::Tombstone { cached: *cached },
            KvDataRef::Value { cached, value } => KvData::Value {
                cached: *cached,
                value: ByteStream::from_slice(value),
            },
        }
    }
}

/// Reference to `KvData`.
#[derive(Debug)]
pub enum KvDataRef<'a> {
    Tombstone { cached: bool },
    Value { cached: bool, value: &'a [u8] },
}

impl<'a> View for KvDataRef<'a> {
    type V = RecordView;

    open spec fn view(&self) -> RecordView {
        match self {
            KvDataRef::Tombstone { cached } => RecordView::Tombstone { cached: *cached },
            KvDataRef::Value { cached, value } => RecordView::Value {
                cached: *cached,
                value: value@,
            },
        }
    }
}

impl<'a> Clone for KvDataRef<'a> {
    fn clone(&self) -> (copy: Self)
        ensures
            copy@ == self@,
    {
        match self {
            KvDataRef::Tombstone { cached } => KvDataRef::Tombstone { cached: *cached },
            KvDataRef::Value { cached, value } => KvDataRef::Value { cached: *cached, value: *value },
        }
    }
}

impl<'a> KvDataRef<'a> {
    /// Whether the record is a look-aside copy.
    pub fn is_cached(&self) -> (cached: bool)
        ensures
            cached == self@.is_cached(),
    {
        match self {
            KvDataRef::Tombstone { cached } => *cached,
            KvDataRef::Value { cached, .. } => *cached,
        }
    }
}

/// An entry as plain values.
pub struct EntryView {
    pub ts_read: u64,
    pub ts_write: u64,
    pub record: RecordView,
}

/// A level-0 data record that is stored within memory. The key is stored
/// outside the entry.
#[derive(Debug)]
pub struct KvEntry {
    /// Read timestamp: the highest timestamp of a transaction that has read
    /// the record.
    pub ts_read: u64,
    /// Write timestamp: that of the transaction that last wrote the record.
    pub ts_write: u64,
    /// Content of the entry.
    pub record: KvData,
}

impl View for KvEntry {
    type V = EntryView;

    open spec fn view(&self) -> EntryView {
        EntryView { ts_read: self.ts_read, ts_write: self.ts_write, record: self.record@ }
    }
}

impl KvEntry {
    /// A fresh entry that no transaction has touched.
    pub fn new(record: KvData) -> (entry: Self)
        ensures
            entry.ts_read == 0,
            entry.ts_write == 0,
            entry.record == record,
    {
        Self { ts_read: 0_u64, ts_write: 0_u64, record }
    }
}

} // verus!
