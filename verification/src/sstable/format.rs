//! The byte format of a sorted run.
//!
//! A run holds, in this order: the records, ended by an all-zero record
//! header; the index block with the offsets of the anchors; the Bloom filter
//! block; the header block with the offsets of the two blocks before it; and
//! a footer of sixteen bytes with the offset of the header block and a magic
//! number.
//!
//! A record is written as four variable-length integers (length of the key,
//! length of the prefix that the key shares with the key before it, length of
//! the value, flags), then the rest of the key and the value. Bit 0 of the
//! flags marks a tombstone. An anchor is a record whose key is written in
//! full and whose offset stands in the index block.

use crate::bloom::fimpl::filter_size;
use crate::bloom::BloomFilter;
use crate::bloom::fimpl::all_set;
use crate::record::bytestream::{common_prefix_len, lex_le, lex_lt};
use crate::record::iterator::Pair;
use crate::record::kventry::RecordView;
use crate::utils::varint::{decode, encode, encoded_len, VarUint64, VarintError};
use vstd::prelude::*;

verus! {

/// The number that ends every run.
pub const MAGIC: u64 = 0x1145_1419_1981_fee1;

/// Tag of the index block in the header block.
pub const TAG_INDEX: u64 = 1;

/// Tag of the Bloom filter block in the header block.
pub const TAG_BLOOM: u64 = 2;

/// Flags of a tombstone.
pub const FLAG_TOMBSTONE: u64 = 1;

/// Flags of a live value.
pub const FLAG_VALUE: u64 = 0;

/// The most compressed records that follow one anchor.
pub const BLOCK_SIZE: usize = 50;

/// Why a run could not be opened.
#[derive(Clone, Copy, Debug, PartialEq, Eq, Structural)]
pub enum SSTableError {
    /// The bytes do not end in the magic number.
    InvalidMagic,
    /// The header block names a block of unknown type.
    InvalidBlockType,
    /// The header block names no index block.
    MissingIndex,
    /// The header block names no Bloom filter block.
    MissingBloomFilter,
    /// The index points at a record whose key is compressed.
    CompressedIndexKey,
    /// The keys of the anchors do not ascend.
    UnsortedIndex,
    /// The Bloom filter block has not the size of the engine's filter.
    BloomSizeMismatch,
    /// A number, a key or a block runs past the end of the bytes.
    OutOfBounds,
}

// ---------------------------------------------------------------------------
// Fixed-width integers
// ---------------------------------------------------------------------------

/// The eight bytes of `value`, lowest first.
pub open spec fn le64(value: u64) -> Seq<u8> {
    seq![
        (value & 0xff) as u8,
        ((value >> 8) & 0xff) as u8,
        ((value >> 16) & 0xff) as u8,
        ((value >> 24) & 0xff) as u8,
        ((value >> 32) & 0xff) as u8,
        ((value >> 40) & 0xff) as u8,
        ((value >> 48) & 0xff) as u8,
        (value >> 56) as u8,
    ]
}

/// The number that the eight bytes from `at` on spell, lowest first.
pub open spec fn le64_at(bytes: Seq<u8>, at: int) -> u64 {
    (bytes[at] as u64) | ((bytes[at + 1] as u64) << 8) | ((bytes[at + 2] as u64) << 16) | ((bytes[at
        + 3] as u64) << 24) | ((bytes[at + 4] as u64) << 32) | ((bytes[at + 5] as u64) << 40) | ((
    bytes[at + 6] as u64) << 48) | ((bytes[at + 7] as u64) << 56)
}

proof fn lemma_le64_bits(v: u64)
    by (bit_vector)
    ensures
        ((((v & 0xff) as u8) as u64) | ((((v >> 8) & 0xff) as u8 as u64) << 8) | ((((v >> 16)
            & 0xff) as u8 as u64) << 16) | ((((v >> 24) & 0xff) as u8 as u64) << 24) | ((((v >> 32)
            & 0xff) as u8 as u64) << 32) | ((((v >> 40) & 0xff) as u8 as u64) << 40) | ((((v >> 48)
            & 0xff) as u8 as u64) << 48) | ((((v >> 56) as u8) as u64) << 56)) == v,
{
}

/// Reading inverts writing: bytes that hold `le64(value)` at `at` spell
/// `value` there.
pub proof fn lemma_le64_roundtrip(bytes: Seq<u8>, at: int, value: u64)
    requires
        holds_at(bytes, at, le64(value)),
    ensures
        le64_at(bytes, at) == value,
{
    lemma_le64_bits(value);
    assert forall|i: int| 0 <= i < 8 implies bytes[at + i] == le64(value)[i] by {
        assert(bytes.subrange(at, at + 8)[i] == bytes[at + i]);
    }
}

/// `bytes` holds `piece` at offset `at`.
pub open spec fn holds_at(bytes: Seq<u8>, at: int, piece: Seq<u8>) -> bool {
    &&& 0 <= at
    &&& at + piece.len() <= bytes.len()
    &&& bytes.subrange(at, at + piece.len()) == piece
}

// ---------------------------------------------------------------------------
// Writing
// ---------------------------------------------------------------------------

/// The bytes of the value of a record: none for a tombstone.
pub open spec fn value_bytes(r: RecordView) -> Seq<u8> {
    match r {
        RecordView::Tombstone { .. } => Seq::empty(),
        RecordView::Value { value, .. } => value,
    }
}

/// The flags of a record.
pub open spec fn flags_of(r: RecordView) -> u64 {
    match r {
        RecordView::Tombstone { .. } => FLAG_TOMBSTONE,
        RecordView::Value { .. } => FLAG_VALUE,
    }
}

/// The four numbers that a record starts with.
pub open spec fn encode_header(key_len: int, common: int, value_len: int, flags: u64) -> Seq<u8> {
    encode(key_len as u64) + encode(common as u64) + encode(value_len as u64) + encode(flags)
}

/// One record: its header, the part of the key behind the shared prefix, and
/// the value.
pub open spec fn encode_record(key: Seq<u8>, common: int, r: RecordView) -> Seq<u8> {
    encode_header(key.len() as int, common, value_bytes(r).len() as int, flags_of(r)) + key.skip(
        common,
    ) + value_bytes(r)
}

/// Whether record `i` of a run of `n` records is an anchor: the first, every
/// one that follows `BLOCK_SIZE` compressed records, and the last.
pub open spec fn is_anchor(i: int, n: int) -> bool {
    i % (BLOCK_SIZE + 1) == 0 || i == n - 1
}

/// Length of the prefix that record `i` leaves out: none for an anchor, else
/// the longest that its key shares with the key before it.
pub open spec fn shared(run: Seq<Pair>, i: int) -> int {
    if is_anchor(i, run.len() as int) {
        0
    } else {
        common_prefix_len(run[i - 1].0, run[i].0)
    }
}

/// The first `upto` records of a run.
pub open spec fn data_upto(run: Seq<Pair>, upto: int) -> Seq<u8>
    decreases upto,
{
    if upto <= 0 {
        Seq::empty()
    } else {
        data_upto(run, upto - 1) + encode_record(run[upto - 1].0, shared(run, upto - 1), run[upto
            - 1].1)
    }
}

/// The offsets of the anchors among the first `upto` records of a run.
pub open spec fn anchors_upto(run: Seq<Pair>, upto: int) -> Seq<int>
    decreases upto,
{
    if upto <= 0 {
        Seq::empty()
    } else if is_anchor(upto - 1, run.len() as int) {
        anchors_upto(run, upto - 1).push(data_upto(run, upto - 1).len() as int)
    } else {
        anchors_upto(run, upto - 1)
    }
}

/// The header that ends the records.
pub open spec fn terminator() -> Seq<u8> {
    encode_header(0, 0, 0, 0)
}

/// The first `upto` offsets, each as a variable-length integer.
pub open spec fn encode_offsets(offsets: Seq<int>, upto: int) -> Seq<u8>
    decreases upto,
{
    if upto <= 0 {
        Seq::empty()
    } else {
        encode_offsets(offsets, upto - 1) + encode(offsets[upto - 1] as u64)
    }
}

/// The index block: the number of anchors, then their offsets.
pub open spec fn index_block(offsets: Seq<int>) -> Seq<u8> {
    encode(offsets.len() as u64) + encode_offsets(offsets, offsets.len() as int)
}

/// The Bloom filter block: the length of the bit array, then the bit array.
pub open spec fn bloom_block(bloom: Seq<u8>) -> Seq<u8> {
    encode(bloom.len() as u64) + bloom
}

/// The header block: the number of blocks, then tag and offset of each.
pub open spec fn header_block(index_at: int, bloom_at: int) -> Seq<u8> {
    encode(2) + encode(TAG_INDEX) + encode(index_at as u64) + encode(TAG_BLOOM) + encode(
        bloom_at as u64,
    )
}

/// The footer: the offset of the header block, then the magic number.
pub open spec fn footer(header_at: int) -> Seq<u8> {
    le64(header_at as u64) + le64(MAGIC)
}

/// The bit array of the engine's filter once the keys of the first `upto`
/// records of a run have been inserted into an empty one.
pub open spec fn bloom_upto(run: Seq<Pair>, upto: int) -> Seq<u8>
    decreases upto,
{
    if upto <= 0 {
        Seq::new(filter_size(24) as nat, |i: int| 0u8)
    } else {
        BloomFilter::inserted(bloom_upto(run, upto - 1), run[upto - 1].0)
    }
}

/// Everything up to the index block: the records and the header that ends
/// them.
pub open spec fn data_section(run: Seq<Pair>) -> Seq<u8> {
    data_upto(run, run.len() as int) + terminator()
}

/// Offset of the Bloom filter block.
pub open spec fn bloom_offset(run: Seq<Pair>) -> int {
    (data_section(run).len() + index_block(anchors_upto(run, run.len() as int)).len()) as int
}

/// Offset of the header block.
pub open spec fn header_offset(run: Seq<Pair>) -> int {
    bloom_offset(run) + bloom_block(bloom_upto(run, run.len() as int)).len()
}

/// The bytes of the run that holds the given pairs.
pub open spec fn table_bytes(run: Seq<Pair>) -> Seq<u8> {
    data_section(run) + index_block(anchors_upto(run, run.len() as int)) + bloom_block(
        bloom_upto(run, run.len() as int),
    ) + header_block(data_section(run).len() as int, bloom_offset(run)) + footer(header_offset(run))
}

// ---------------------------------------------------------------------------
// Reading
// ---------------------------------------------------------------------------

/// The variable-length integer at offset `at`: the offset behind it and its
/// value, or `None` where it runs past the end.
pub open spec fn varint_at(bytes: Seq<u8>, at: int) -> Option<(int, u64)> {
    if 0 <= at <= bytes.len() {
        match decode(bytes.skip(at)) {
            Some((n, v)) => Some((at + n, v)),
            None => None,
        }
    } else {
        None
    }
}

/// The four numbers that a record starts with, and the offset of its body.
pub struct RecordHeader {
    pub key_len: u64,
    pub common_len: u64,
    pub value_len: u64,
    pub flags: u64,
    pub body: usize,
}

/// The header of the record at offset `at`, or `None` where it runs past the
/// end.
#[verifier::opaque]
pub open spec fn header_at(bytes: Seq<u8>, at: int) -> Option<RecordHeader> {
    match varint_at(bytes, at) {
        None => None,
        Some((a, key_len)) => match varint_at(bytes, a) {
            None => None,
            Some((b, common_len)) => match varint_at(bytes, b) {
                None => None,
                Some((c, value_len)) => match varint_at(bytes, c) {
                    None => None,
                    Some((d, flags)) => Some(
                        RecordHeader { key_len, common_len, value_len, flags, body: d as usize },
                    ),
                },
            },
        },
    }
}

/// Whether a record header ends the records.
pub open spec fn is_terminator(h: RecordHeader) -> bool {
    h.key_len == 0 && h.common_len == 0 && h.value_len == 0
}

/// The record at offset `at`, read behind a record with the key `prev`: the
/// pair and the offset behind it. `None` at the end of the records and where
/// the bytes are no record: where a length runs past the end, the shared
/// prefix is longer than either key, or the flags are unknown. A record read
/// from a run is marked as cached.
#[verifier::opaque]
pub open spec fn record_at(bytes: Seq<u8>, at: int, prev: Seq<u8>) -> Option<(Pair, int)> {
    match header_at(bytes, at) {
        None => None,
        Some(h) => {
            let suffix_len = h.key_len - h.common_len;
            let end = h.body + suffix_len + h.value_len;
            if is_terminator(h) || h.common_len > h.key_len || h.common_len > prev.len() || end
                > bytes.len() || h.flags > 1 {
                None
            } else {
                let key = prev.take(h.common_len as int) + bytes.subrange(
                    h.body as int,
                    h.body + suffix_len,
                );
                let value = bytes.subrange(h.body + suffix_len, end);
                let record = if h.flags == FLAG_TOMBSTONE {
                    RecordView::Tombstone { cached: true }
                } else {
                    RecordView::Value { cached: true, value }
                };
                Some(((key, record), end))
            }
        },
    }
}

/// The pairs that the records from offset `at` on hold, up to the end of the
/// records.
pub open spec fn records_from(bytes: Seq<u8>, at: int, prev: Seq<u8>) -> Seq<Pair>
    decreases bytes.len() - at,
{
    match record_at(bytes, at, prev) {
        None => Seq::empty(),
        Some((pair, next)) => if at < next <= bytes.len() {
            seq![pair] + records_from(bytes, next, pair.0)
        } else {
            Seq::empty()
        },
    }
}

/// A variable-length integer takes at least one byte and ends within the
/// bytes.
pub proof fn lemma_varint_at(bytes: Seq<u8>, at: int)
    ensures
        match varint_at(bytes, at) {
            Some((next, v)) => 0 <= at < next <= bytes.len() && next <= at + 9,
            None => true,
        },
{
    if 0 <= at <= bytes.len() {
        crate::utils::varint::lemma_decode_len(bytes.skip(at));
    }
}

/// A record header takes at least four bytes and ends within the bytes.
pub proof fn lemma_header_at(bytes: Seq<u8>, at: int)
    requires
        bytes.len() <= usize::MAX,
    ensures
        match header_at(bytes, at) {
            Some(h) => 0 <= at && at + 4 <= h.body <= bytes.len() && h.body <= at + 36,
            None => true,
        },
{
    reveal(header_at);
    lemma_varint_at(bytes, at);
    match varint_at(bytes, at) {
        None => {},
        Some((a, _)) => {
            lemma_varint_at(bytes, a);
            match varint_at(bytes, a) {
                None => {},
                Some((b, _)) => {
                    lemma_varint_at(bytes, b);
                    match varint_at(bytes, b) {
                        None => {},
                        Some((c, _)) => {
                            lemma_varint_at(bytes, c);
                        },
                    }
                },
            }
        },
    }
}

/// The rest of a run from the first pair on whose key is not below `key`.
pub open spec fn skip_below(run: Seq<Pair>, key: Seq<u8>) -> Seq<Pair>
    decreases run.len(),
{
    if run.len() == 0 {
        run
    } else if lex_lt(run[0].0, key) {
        skip_below(run.skip(1), key)
    } else {
        run
    }
}

/// The record under `key` in a run that is searched from its start: that of
/// the first pair whose key is not below `key`, if its key is `key`.
pub open spec fn seek(run: Seq<Pair>, key: Seq<u8>) -> Option<RecordView> {
    let rest = skip_below(run, key);
    if rest.len() > 0 && rest[0].0 == key {
        Some(rest[0].1)
    } else {
        None
    }
}

/// The last of the first `upto` anchors whose key is not above `key`.
pub open spec fn floor_upto(anchors: Seq<(Seq<u8>, int)>, key: Seq<u8>, upto: int) -> Option<int>
    decreases upto,
{
    if upto <= 0 {
        None
    } else if lex_le(anchors[upto - 1].0, key) {
        Some(upto - 1)
    } else {
        floor_upto(anchors, key, upto - 1)
    }
}

/// The last anchor whose key is not above `key`: the one from which a search
/// for `key` starts.
pub open spec fn floor_anchor(anchors: Seq<(Seq<u8>, int)>, key: Seq<u8>) -> Option<int> {
    floor_upto(anchors, key, anchors.len() as int)
}

/// The anchor from which a search starts is the last one that is not above
/// the key.
pub proof fn lemma_floor_upto(anchors: Seq<(Seq<u8>, int)>, key: Seq<u8>, upto: int)
    requires
        0 <= upto <= anchors.len(),
    ensures
        match floor_upto(anchors, key, upto) {
            Some(i) => {
                &&& 0 <= i < upto
                &&& lex_le(anchors[i].0, key)
                &&& forall|j: int| i < j < upto ==> !lex_le((#[trigger] anchors[j]).0, key)
            },
            None => forall|j: int| 0 <= j < upto ==> !lex_le((#[trigger] anchors[j]).0, key),
        },
    decreases upto,
{
    if upto > 0 && !lex_le(anchors[upto - 1].0, key) {
        lemma_floor_upto(anchors, key, upto - 1);
    }
}

/// Anchors of which each comes before the next ascend.
pub proof fn lemma_neighbours_ascend(anchors: Seq<(Seq<u8>, int)>)
    requires
        neighbours_ascend(anchors),
    ensures
        anchors_ascend(anchors),
{
    assert forall|i: int, j: int| 0 <= i < j < anchors.len() implies lex_lt(
        (#[trigger] anchors[i]).0,
        (#[trigger] anchors[j]).0,
    ) by {
        lemma_ascend_between(anchors, i, j);
    }
}

proof fn lemma_ascend_between(anchors: Seq<(Seq<u8>, int)>, i: int, j: int)
    requires
        neighbours_ascend(anchors),
        0 <= i < j < anchors.len(),
    ensures
        lex_lt(anchors[i].0, anchors[j].0),
    decreases j - i,
{
    if i + 1 < j {
        lemma_ascend_between(anchors, i, j - 1);
        assert(lex_lt(anchors[j - 1].0, anchors[j].0));
        crate::record::bytestream::lemma_lex_lt_transitive(
            anchors[i].0,
            anchors[j - 1].0,
            anchors[j].0,
        );
    }
}

/// What a search of a run finds under `key`: nothing where the Bloom filter
/// does not know the key or every anchor is above it, else what a search
/// from the last anchor that is not above the key finds.
pub open spec fn table_lookup(bytes: Seq<u8>, key: Seq<u8>) -> Option<RecordView> {
    match parse_table(bytes) {
        Err(_) => None,
        Ok(table) => if !all_set(table.bloom, BloomFilter::slots(key)) {
            None
        } else {
            match floor_anchor(table.anchors, key) {
                None => None,
                Some(a) => seek(records_from(bytes, table.anchors[a].1, Seq::empty()), key),
            }
        },
    }
}

/// The pairs that a scan of the whole run yields: those from the first anchor
/// on, or from the start of a run without anchors.
pub open spec fn table_scan(bytes: Seq<u8>) -> Seq<Pair> {
    match parse_table(bytes) {
        Err(_) => Seq::empty(),
        Ok(table) => records_from(
            bytes,
            if table.anchors.len() == 0 {
                0
            } else {
                table.anchors[0].1
            },
            Seq::empty(),
        ),
    }
}

/// The run holds the pair behind one of its anchors.
pub open spec fn table_holds(bytes: Seq<u8>, pair: Pair) -> bool {
    match parse_table(bytes) {
        Err(_) => false,
        Ok(table) => exists|a: int, i: int|
            0 <= a < table.anchors.len() && 0 <= i < records_from(
                bytes,
                table.anchors[a].1,
                Seq::empty(),
            ).len() && #[trigger] records_from(bytes, table.anchors[a].1, Seq::empty())[i] == pair,
    }
}

/// What the blocks behind the records say: the anchors with their keys and
/// offsets, and the bit array of the Bloom filter.
pub struct TableView {
    pub anchors: Seq<(Seq<u8>, int)>,
    pub bloom: Seq<u8>,
}

/// The offset of the header block as the footer gives it, where the bytes
/// end in the magic number.
pub open spec fn footer_of(bytes: Seq<u8>) -> Result<u64, SSTableError> {
    if bytes.len() < 16 || le64_at(bytes, bytes.len() - 8) != MAGIC {
        Err(SSTableError::InvalidMagic)
    } else {
        Ok(le64_at(bytes, bytes.len() - 16))
    }
}

/// What is known of the header block once some of its entries are read: the
/// offset of the next entry and the offsets of the two blocks, as far as
/// entries named them.
pub struct HeaderState {
    pub next: int,
    pub index: Option<u64>,
    pub bloom: Option<u64>,
}

/// The state behind entry number `upto` of the header block whose entries
/// start at `at`. A later entry for a block replaces an earlier one.
pub open spec fn header_entries(bytes: Seq<u8>, at: int, upto: int) -> Result<
    HeaderState,
    SSTableError,
>
    decreases upto,
{
    if upto <= 0 {
        Ok(HeaderState { next: at, index: None, bloom: None })
    } else {
        match header_entries(bytes, at, upto - 1) {
            Err(e) => Err(e),
            Ok(state) => match varint_at(bytes, state.next) {
                None => Err(SSTableError::OutOfBounds),
                Some((a, tag)) => match varint_at(bytes, a) {
                    None => Err(SSTableError::OutOfBounds),
                    Some((b, offset)) => if tag == TAG_INDEX {
                        Ok(HeaderState { next: b, index: Some(offset), bloom: state.bloom })
                    } else if tag == TAG_BLOOM {
                        Ok(HeaderState { next: b, index: state.index, bloom: Some(offset) })
                    } else {
                        Err(SSTableError::InvalidBlockType)
                    },
                },
            },
        }
    }
}

/// What the header block at offset `at` says.
pub open spec fn header_of(bytes: Seq<u8>, at: u64) -> Result<HeaderState, SSTableError> {
    match varint_at(bytes, at as int) {
        None => Err(SSTableError::OutOfBounds),
        Some((first, count)) => header_entries(bytes, first, count as int),
    }
}

/// The first `upto` numbers of a list of variable-length integers that
/// starts at `at`, with the offset behind them.
pub open spec fn numbers_at(bytes: Seq<u8>, at: int, upto: int) -> Option<(Seq<u64>, int)>
    decreases upto,
{
    if upto <= 0 {
        Some((Seq::empty(), at))
    } else {
        match numbers_at(bytes, at, upto - 1) {
            None => None,
            Some((numbers, next)) => match varint_at(bytes, next) {
                None => None,
                Some((after, v)) => Some((numbers.push(v), after)),
            },
        }
    }
}

/// The anchor at `offset`: its key, which must be written in full.
pub open spec fn anchor_at(bytes: Seq<u8>, offset: u64) -> Result<(Seq<u8>, int), SSTableError> {
    match header_at(bytes, offset as int) {
        None => Err(SSTableError::OutOfBounds),
        Some(h) => if h.common_len != 0 {
            Err(SSTableError::CompressedIndexKey)
        } else if h.body + h.key_len > bytes.len() {
            Err(SSTableError::OutOfBounds)
        } else {
            Ok((bytes.subrange(h.body as int, h.body + h.key_len), offset as int))
        },
    }
}

/// The anchors at the first `upto` of the given offsets.
pub open spec fn anchors_at(bytes: Seq<u8>, offsets: Seq<u64>, upto: int) -> Result<
    Seq<(Seq<u8>, int)>,
    SSTableError,
>
    decreases upto,
{
    if upto <= 0 {
        Ok(Seq::empty())
    } else {
        match anchors_at(bytes, offsets, upto - 1) {
            Err(e) => Err(e),
            Ok(anchors) => match anchor_at(bytes, offsets[upto - 1]) {
                Err(e) => Err(e),
                Ok(anchor) => Ok(anchors.push(anchor)),
            },
        }
    }
}

/// The keys of the anchors ascend strictly.
pub open spec fn anchors_ascend(anchors: Seq<(Seq<u8>, int)>) -> bool {
    forall|i: int, j: int|
        0 <= i < j < anchors.len() ==> lex_lt((#[trigger] anchors[i]).0, (#[trigger] anchors[j]).0)
}

/// Each anchor comes before the next.
pub open spec fn neighbours_ascend(anchors: Seq<(Seq<u8>, int)>) -> bool {
    forall|i: int|
        0 <= i < anchors.len() - 1 ==> lex_lt((#[trigger] anchors[i]).0, anchors[i + 1].0)
}

/// What the index block at offset `at` says.
pub open spec fn index_of(bytes: Seq<u8>, at: u64) -> Result<Seq<(Seq<u8>, int)>, SSTableError> {
    match varint_at(bytes, at as int) {
        None => Err(SSTableError::OutOfBounds),
        Some((first, count)) => match numbers_at(bytes, first, count as int) {
            None => Err(SSTableError::OutOfBounds),
            Some((offsets, _)) => match anchors_at(bytes, offsets, offsets.len() as int) {
                Err(e) => Err(e),
                Ok(anchors) => if neighbours_ascend(anchors) {
                    Ok(anchors)
                } else {
                    Err(SSTableError::UnsortedIndex)
                },
            },
        },
    }
}

/// What the Bloom filter block at offset `at` says.
pub open spec fn bloom_of(bytes: Seq<u8>, at: u64) -> Result<Seq<u8>, SSTableError> {
    match varint_at(bytes, at as int) {
        None => Err(SSTableError::OutOfBounds),
        Some((first, size)) => if size != filter_size(24) {
            Err(SSTableError::BloomSizeMismatch)
        } else if first + size > bytes.len() {
            Err(SSTableError::OutOfBounds)
        } else {
            Ok(bytes.subrange(first, first + size))
        },
    }
}

/// What the blocks of a run say, or why the bytes are no run. The checks
/// come in this order: the magic number, the entries of the header block,
/// the index block, the Bloom filter block.
pub open spec fn parse_table(bytes: Seq<u8>) -> Result<TableView, SSTableError> {
    match footer_of(bytes) {
        Err(e) => Err(e),
        Ok(header_at) => match header_of(bytes, header_at) {
            Err(e) => Err(e),
            Ok(state) => match state.index {
                None => Err(SSTableError::MissingIndex),
                Some(index_at) => match index_of(bytes, index_at) {
                    Err(e) => Err(e),
                    Ok(anchors) => match state.bloom {
                        None => Err(SSTableError::MissingBloomFilter),
                        Some(bloom_at) => match bloom_of(bytes, bloom_at) {
                            Err(e) => Err(e),
                            Ok(bloom) => Ok(TableView { anchors, bloom }),
                        },
                    },
                },
            },
        },
    }
}

/// Reads the variable-length integer at `*offset` and moves the offset
/// behind it.
pub fn read_varu64(region: &[u8], offset: &mut usize) -> (res: Result<u64, SSTableError>)
    ensures
        match varint_at(region@, *old(offset) as int) {
            Some((next, v)) => res == Ok::<u64, SSTableError>(v) && *final(offset) == next,
            None => res == Err::<u64, SSTableError>(SSTableError::OutOfBounds) && *final(offset)
                == *old(offset),
        },
{
    let len: usize = region.len();
    let at: usize = *offset;
    if at > len {
        return Err(SSTableError::OutOfBounds);
    }
    let rest = vstd::slice::slice_subrange(region, at, len);
    assert(rest@ =~= region@.skip(at as int));
    match VarUint64::read_offset(rest, len - at) {
        Ok((n, v)) => {
            *offset = at + n;
            Ok(v)
        },
        Err(_) => Err(SSTableError::OutOfBounds),
    }
}

/// Reads the header of the record at `at`.
pub fn read_header(region: &[u8], at: usize) -> (res: Option<RecordHeader>)
    ensures
        res == header_at(region@, at as int),
{
    reveal(header_at);
    let mut offset: usize = at;
    let key_len = match read_varu64(region, &mut offset) {
        Ok(v) => v,
        Err(_) => return None,
    };
    let common_len = match read_varu64(region, &mut offset) {
        Ok(v) => v,
        Err(_) => return None,
    };
    let value_len = match read_varu64(region, &mut offset) {
        Ok(v) => v,
        Err(_) => return None,
    };
    let flags = match read_varu64(region, &mut offset) {
        Ok(v) => v,
        Err(_) => return None,
    };
    Some(RecordHeader { key_len, common_len, value_len, flags, body: offset })
}

/// Accesses u64 value in little-endian.
pub fn read_u64(region: &[u8], at: usize) -> (value: u64)
    requires
        at + 8 <= region@.len(),
    ensures
        value == le64_at(region@, at as int),
{
    let len: usize = region.len();
    (region[at] as u64) | ((region[at + 1] as u64) << 8) | ((region[at + 2] as u64) << 16) | ((
    region[at + 3] as u64) << 24) | ((region[at + 4] as u64) << 32) | ((region[at + 5] as u64)
        << 40) | ((region[at + 6] as u64) << 48) | ((region[at + 7] as u64) << 56)
}

} // verus!
