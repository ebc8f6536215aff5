//! What is written can be read: the laws that tie the writer's bytes to what
//! the reader finds in them.

use crate::bloom::fimpl::{all_set, filter_size};
use crate::bloom::BloomFilter;
use crate::record::bytestream::{
    common_prefix_len, lemma_common_prefix_len, lemma_lex_equal, lemma_lex_flip,
    lemma_lex_lt_transitive, lemma_lex_reflexive, lex_le, lex_lt, stops_agreeing_at,
};
use crate::record::iterator::{ascending, Pair};
use crate::record::kventry::RecordView;
use crate::sstable::format::{
    anchor_at, anchors_ascend, anchors_at, anchors_upto, bloom_block, bloom_of, bloom_offset,
    bloom_upto, data_section, data_upto, encode_header, encode_offsets, encode_record, flags_of,
    floor_anchor, floor_upto, footer, footer_of, header_at, header_block, header_entries,
    header_of, header_offset, holds_at, index_block, index_of, is_anchor, is_terminator, le64,
    le64_at, lemma_floor_upto, lemma_le64_roundtrip, neighbours_ascend, numbers_at, parse_table,
    record_at, records_from, seek, shared, skip_below, table_bytes, table_holds, table_lookup,
    terminator, value_bytes, varint_at, HeaderState, RecordHeader, SSTableError, TableView,
    BLOCK_SIZE, FLAG_TOMBSTONE, FLAG_VALUE, MAGIC, TAG_BLOOM, TAG_INDEX,
};
use crate::utils::varint::{decode, encode, encoded_len, lemma_decode_encode, lemma_roundtrip};
use vstd::prelude::*;

verus! {

// ---------------------------------------------------------------------------
// Pieces of a byte string
// ---------------------------------------------------------------------------

/// What stands in a byte string still stands there once bytes are appended.
pub proof fn lemma_holds_extended(bytes: Seq<u8>, more: Seq<u8>, at: int, piece: Seq<u8>)
    requires
        holds_at(bytes, at, piece),
    ensures
        holds_at(bytes + more, at, piece),
{
    assert((bytes + more).subrange(at, at + piece.len()) =~= bytes.subrange(at, at + piece.len()));
}

/// What is appended to a byte string stands at its old end.
pub proof fn lemma_holds_appended(bytes: Seq<u8>, piece: Seq<u8>)
    ensures
        holds_at(bytes + piece, bytes.len() as int, piece),
{
    assert((bytes + piece).subrange(bytes.len() as int, (bytes.len() + piece.len()) as int) =~= piece);
}

/// Where two pieces stand one behind the other, each of them stands.
pub proof fn lemma_holds_split(bytes: Seq<u8>, at: int, first: Seq<u8>, second: Seq<u8>)
    requires
        holds_at(bytes, at, first + second),
    ensures
        holds_at(bytes, at, first),
        holds_at(bytes, at + first.len(), second),
{
    let whole = bytes.subrange(at, at + first.len() + second.len());
    assert(whole == first + second);
    assert(bytes.subrange(at, at + first.len()) =~= whole.subrange(0, first.len() as int));
    assert((first + second).subrange(0, first.len() as int) =~= first);
    assert(bytes.subrange(at + first.len(), at + first.len() + second.len()) =~= whole.subrange(
        first.len() as int,
        (first.len() + second.len()) as int,
    ));
    assert((first + second).subrange(first.len() as int, (first.len() + second.len()) as int) =~= second);
}

/// A number that stands at an offset is read there.
pub proof fn lemma_varint_holds(bytes: Seq<u8>, at: int, value: u64)
    requires
        holds_at(bytes, at, encode(value)),
    ensures
        varint_at(bytes, at) == Some((at + encoded_len(value), value)),
        encode(value).len() == encoded_len(value),
        1 <= encoded_len(value) <= 9,
{
    lemma_roundtrip(value);
    let rest = bytes.skip(at);
    assert(rest.take(encoded_len(value)) =~= bytes.subrange(at, at + encoded_len(value)));
    lemma_decode_encode(value, rest);
}

/// Length of a record header.
pub open spec fn header_len(key_len: int, common: int, value_len: int, flags: u64) -> int {
    encoded_len(key_len as u64) + encoded_len(common as u64) + encoded_len(value_len as u64)
        + encoded_len(flags)
}

/// A record header that stands at an offset is read there.
pub proof fn lemma_header_holds(
    bytes: Seq<u8>,
    at: int,
    key_len: int,
    common: int,
    value_len: int,
    flags: u64,
)
    requires
        bytes.len() <= usize::MAX,
        0 <= key_len <= u64::MAX,
        0 <= common <= u64::MAX,
        0 <= value_len <= u64::MAX,
        holds_at(bytes, at, encode_header(key_len, common, value_len, flags)),
    ensures
        encode_header(key_len, common, value_len, flags).len() == header_len(
            key_len,
            common,
            value_len,
            flags,
        ),
        4 <= header_len(key_len, common, value_len, flags) <= 36,
        header_at(bytes, at) == Some(
            RecordHeader {
                key_len: key_len as u64,
                common_len: common as u64,
                value_len: value_len as u64,
                flags,
                body: (at + header_len(key_len, common, value_len, flags)) as usize,
            },
        ),
{
    reveal(header_at);
    let a = encode(key_len as u64);
    let b = encode(common as u64);
    let c = encode(value_len as u64);
    let d = encode(flags);
    lemma_roundtrip(key_len as u64);
    lemma_roundtrip(common as u64);
    lemma_roundtrip(value_len as u64);
    lemma_roundtrip(flags);
    assert(encode_header(key_len, common, value_len, flags) == ((a + b) + c) + d);
    lemma_holds_split(bytes, at, (a + b) + c, d);
    lemma_holds_split(bytes, at, a + b, c);
    lemma_holds_split(bytes, at, a, b);
    lemma_varint_holds(bytes, at, key_len as u64);
    lemma_varint_holds(bytes, at + a.len(), common as u64);
    lemma_varint_holds(bytes, at + a.len() + b.len(), value_len as u64);
    lemma_varint_holds(bytes, at + a.len() + b.len() + c.len(), flags);
}

/// A record as it comes back from a run: marked as cached.
pub open spec fn read_back(pair: Pair) -> Pair {
    (pair.0, pair.1.with_cached(true))
}

/// A run as it comes back: every record marked as cached.
pub open spec fn run_read_back(run: Seq<Pair>) -> Seq<Pair> {
    Seq::new(run.len(), |i: int| read_back(run[i]))
}

/// Whether the format can hold the pair: a record with an empty key and no
/// value bytes would read as the end of the records.
pub open spec fn representable(pair: Pair) -> bool {
    pair.0.len() > 0 || value_bytes(pair.1).len() > 0
}

/// A record that stands at an offset is read there, behind any key that
/// starts with the prefix that the record leaves out.
pub proof fn lemma_record_holds(
    bytes: Seq<u8>,
    at: int,
    pair: Pair,
    common: int,
    prev: Seq<u8>,
)
    requires
        bytes.len() <= usize::MAX,
        pair.0.len() <= u64::MAX,
        representable(pair),
        0 <= common <= pair.0.len(),
        common <= prev.len(),
        prev.take(common) == pair.0.take(common),
        holds_at(bytes, at, encode_record(pair.0, common, pair.1)),
    ensures
        record_at(bytes, at, prev) == Some(
            (read_back(pair), at + encode_record(pair.0, common, pair.1).len()),
        ),
        encode_record(pair.0, common, pair.1).len() >= 4,
{
    reveal(record_at);
    let key = pair.0;
    let value = value_bytes(pair.1);
    let head = encode_header(key.len() as int, common, value.len() as int, flags_of(pair.1));
    let suffix = key.skip(common);
    assert(encode_record(key, common, pair.1) == (head + suffix) + value);
    lemma_holds_split(bytes, at, head + suffix, value);
    lemma_holds_split(bytes, at, head, suffix);
    assert(value.len() <= bytes.len());
    lemma_header_holds(bytes, at, key.len() as int, common, value.len() as int, flags_of(pair.1));
    let body = at + head.len();
    assert(bytes.subrange(body, body + suffix.len()) == suffix);
    assert(prev.take(common) + suffix =~= key);
    assert(bytes.subrange(body + suffix.len(), body + suffix.len() + value.len()) == value);
}

/// The header that ends the records is read as the end.
pub proof fn lemma_terminator_holds(bytes: Seq<u8>, at: int, prev: Seq<u8>)
    requires
        bytes.len() <= usize::MAX,
        holds_at(bytes, at, terminator()),
    ensures
        record_at(bytes, at, prev) is None,
        terminator().len() == 4,
{
    reveal(record_at);
    lemma_header_holds(bytes, at, 0, 0, 0, 0);
}

// ---------------------------------------------------------------------------
// The records
// ---------------------------------------------------------------------------

/// Offset of record `i` of a run.
pub open spec fn offset_of(run: Seq<Pair>, i: int) -> int {
    data_upto(run, i).len() as int
}

/// The offsets of the records ascend.
pub proof fn lemma_offsets(run: Seq<Pair>, i: int, j: int)
    requires
        0 <= i <= j <= run.len(),
    ensures
        offset_of(run, i) <= offset_of(run, j),
        offset_of(run, j) == offset_of(run, i) + (data_upto(run, j).len() - data_upto(
            run,
            i,
        ).len()),
    decreases j - i,
{
    if i < j {
        lemma_offsets(run, i, j - 1);
    }
}

/// Every record stands at its offset in the records of the run.
pub proof fn lemma_data_holds(run: Seq<Pair>, i: int, upto: int)
    requires
        0 <= i < upto <= run.len(),
    ensures
        holds_at(
            data_upto(run, upto),
            offset_of(run, i),
            encode_record(run[i].0, shared(run, i), run[i].1),
        ),
    decreases upto - i,
{
    let piece = encode_record(run[i].0, shared(run, i), run[i].1);
    if i == upto - 1 {
        lemma_holds_appended(data_upto(run, i), piece);
    } else {
        lemma_data_holds(run, i, upto - 1);
        lemma_holds_extended(
            data_upto(run, upto - 1),
            encode_record(run[upto - 1].0, shared(run, upto - 1), run[upto - 1].1),
            offset_of(run, i),
            piece,
        );
    }
}

/// The prefix that a record leaves out is one that it shares with the key
/// before it.
pub proof fn lemma_shared(run: Seq<Pair>, i: int)
    requires
        0 <= i < run.len(),
    ensures
        0 <= shared(run, i) <= run[i].0.len(),
        !is_anchor(i, run.len() as int) ==> i > 0 && shared(run, i) <= run[i - 1].0.len() && run[i
            - 1].0.take(shared(run, i)) == run[i].0.take(shared(run, i)),
{
    if !is_anchor(i, run.len() as int) {
        assert(i > 0) by {
            if i == 0 {
                assert(0int % 51 == 0);
            }
        }
        lemma_common_prefix_len(run[i - 1].0, run[i].0);
        let k = shared(run, i);
        assert(run[i - 1].0.take(k) =~= run[i].0.take(k));
    }
}

/// The conditions under which what was written can be read back: the format
/// can hold every pair, and every length and offset fits the machine's
/// integers.
pub open spec fn readable_run(run: Seq<Pair>, bytes: Seq<u8>) -> bool {
    &&& bytes.len() <= usize::MAX
    &&& forall|i: int| 0 <= i < run.len() ==> representable(#[trigger] run[i])
    &&& forall|i: int| 0 <= i < run.len() ==> (#[trigger] run[i]).0.len() <= usize::MAX
}

/// The record at the offset of record `i` is read as record `i`, where the
/// reader starts at an anchor or knows the key before.
proof fn lemma_record_step(bytes: Seq<u8>, run: Seq<Pair>, i: int, prev: Seq<u8>)
    requires
        bytes.len() <= usize::MAX,
        0 <= i < run.len(),
        representable(run[i]),
        run[i].0.len() <= usize::MAX,
        holds_at(bytes, offset_of(run, i), encode_record(run[i].0, shared(run, i), run[i].1)),
        is_anchor(i, run.len() as int) || (i > 0 && prev == run[i - 1].0),
    ensures
        record_at(bytes, offset_of(run, i), prev) == Some((read_back(run[i]), offset_of(run, i + 1))),
        offset_of(run, i) < offset_of(run, i + 1) <= bytes.len(),
{
    lemma_shared(run, i);
    if is_anchor(i, run.len() as int) {
        assert(prev.take(0) =~= run[i].0.take(0));
    }
    lemma_record_holds(bytes, offset_of(run, i), run[i], shared(run, i), prev);
}

/// A scan from record `i` on yields the records from `i` on, where it starts
/// at an anchor or knows the key before.
#[verifier::rlimit(50)]
pub proof fn lemma_records_from(bytes: Seq<u8>, run: Seq<Pair>, i: int, prev: Seq<u8>)
    requires
        readable_run(run, bytes),
        0 <= i <= run.len(),
        forall|j: int|
            0 <= j < run.len() ==> holds_at(
                bytes,
                offset_of(run, j),
                #[trigger] encode_record(run[j].0, shared(run, j), run[j].1),
            ),
        holds_at(bytes, offset_of(run, run.len() as int), terminator()),
        i < run.len() ==> is_anchor(i, run.len() as int) || (i > 0 && prev == run[i - 1].0),
    ensures
        records_from(bytes, offset_of(run, i), prev) == run_read_back(run).skip(i),
    decreases run.len() - i,
{
    let back = run_read_back(run);
    if i == run.len() {
        lemma_terminator_holds(bytes, offset_of(run, i), prev);
        assert(back.skip(i) =~= Seq::<Pair>::empty());
    } else {
        assert(holds_at(
            bytes,
            offset_of(run, i),
            encode_record(run[i].0, shared(run, i), run[i].1),
        ));
        lemma_record_step(bytes, run, i, prev);
        lemma_records_from(bytes, run, i + 1, run[i].0);
        assert(back.skip(i) =~= seq![read_back(run[i])] + back.skip(i + 1));
    }
}

// ---------------------------------------------------------------------------
// The blocks behind the records
// ---------------------------------------------------------------------------

/// The records among the first `upto` that are anchors.
pub open spec fn anchor_records(run: Seq<Pair>, upto: int) -> Seq<int>
    decreases upto,
{
    if upto <= 0 {
        Seq::empty()
    } else if is_anchor(upto - 1, run.len() as int) {
        anchor_records(run, upto - 1).push(upto - 1)
    } else {
        anchor_records(run, upto - 1)
    }
}

/// The anchors of a run as a reader holds them: key and offset of each.
pub open spec fn anchors_of_run(run: Seq<Pair>) -> Seq<(Seq<u8>, int)> {
    Seq::new(
        anchor_records(run, run.len() as int).len(),
        |k: int|
            (
                run[anchor_records(run, run.len() as int)[k]].0,
                offset_of(run, anchor_records(run, run.len() as int)[k]),
            ),
    )
}

/// What the blocks of a written run say.
pub open spec fn table_of_run(run: Seq<Pair>) -> TableView {
    TableView { anchors: anchors_of_run(run), bloom: bloom_upto(run, run.len() as int) }
}

/// The anchors among the first `upto` records: as many as offsets in the
/// index, each an anchor, in ascending order, and the first record first.
pub proof fn lemma_anchor_records(run: Seq<Pair>, upto: int)
    requires
        0 <= upto <= run.len(),
    ensures
        anchor_records(run, upto).len() == anchors_upto(run, upto).len(),
        anchor_records(run, upto).len() <= upto,
        forall|k: int|
            0 <= k < anchor_records(run, upto).len() ==> {
                &&& 0 <= (#[trigger] anchor_records(run, upto)[k]) < upto
                &&& is_anchor(anchor_records(run, upto)[k], run.len() as int)
                &&& anchors_upto(run, upto)[k] == offset_of(run, anchor_records(run, upto)[k])
            },
        forall|k: int, l: int|
            0 <= k < l < anchor_records(run, upto).len() ==> (#[trigger] anchor_records(
                run,
                upto,
            )[k]) < (#[trigger] anchor_records(run, upto)[l]),
        upto > 0 ==> anchor_records(run, upto).len() > 0 && anchor_records(run, upto)[0] == 0,
        forall|i: int|
            0 <= i < upto && is_anchor(i, run.len() as int) ==> exists|k: int|
                0 <= k < anchor_records(run, upto).len() && #[trigger] anchor_records(run, upto)[k]
                    == i,
    decreases upto,
{
    if upto > 0 {
        lemma_anchor_records(run, upto - 1);
        let before = anchor_records(run, upto - 1);
        let now = anchor_records(run, upto);
        if upto == 1 {
            assert(0int % 51 == 0);
        }
        assert forall|i: int| 0 <= i < upto && is_anchor(i, run.len() as int) implies exists|
            k: int,
        |
            0 <= k < now.len() && #[trigger] now[k] == i by {
            if i < upto - 1 {
                let k = choose|k: int| 0 <= k < before.len() && #[trigger] before[k] == i;
                assert(now[k] == i);
            } else {
                assert(now[now.len() - 1] == i);
            }
        }
    }
}

/// The layout of a written run: where its pieces stand.
pub proof fn lemma_layout(run: Seq<Pair>)
    ensures
        ({
            let bytes = table_bytes(run);
            let n = run.len() as int;
            &&& forall|j: int|
                0 <= j < n ==> holds_at(
                    bytes,
                    offset_of(run, j),
                    #[trigger] encode_record(run[j].0, shared(run, j), run[j].1),
                )
            &&& holds_at(bytes, offset_of(run, n), terminator())
            &&& holds_at(bytes, data_section(run).len() as int, index_block(anchors_upto(run, n)))
            &&& holds_at(bytes, bloom_offset(run), bloom_block(bloom_upto(run, n)))
            &&& holds_at(
                bytes,
                header_offset(run),
                header_block(data_section(run).len() as int, bloom_offset(run)),
            )
            &&& holds_at(bytes, bytes.len() - 16, footer(header_offset(run)))
            &&& footer(header_offset(run)).len() == 16
            &&& 0 <= offset_of(run, n) <= data_section(run).len() <= bloom_offset(run)
                <= header_offset(run) <= bytes.len() - 16
        }),
{
    let n = run.len() as int;
    let data = data_upto(run, n);
    let a = data_section(run);
    let x = index_block(anchors_upto(run, n));
    let b = bloom_block(bloom_upto(run, n));
    let h = header_block(a.len() as int, bloom_offset(run));
    let f = footer(header_offset(run));
    let bytes = table_bytes(run);
    assert(bytes == (((a + x) + b) + h) + f);
    assert(f.len() == 16);
    lemma_holds_appended(data, terminator());
    lemma_holds_extended(a, x, offset_of(run, n), terminator());
    lemma_holds_extended(a + x, b, offset_of(run, n), terminator());
    lemma_holds_extended((a + x) + b, h, offset_of(run, n), terminator());
    lemma_holds_extended(((a + x) + b) + h, f, offset_of(run, n), terminator());
    lemma_holds_appended(a, x);
    lemma_holds_extended(a + x, b, a.len() as int, x);
    lemma_holds_extended((a + x) + b, h, a.len() as int, x);
    lemma_holds_extended(((a + x) + b) + h, f, a.len() as int, x);
    lemma_holds_appended(a + x, b);
    lemma_holds_extended((a + x) + b, h, (a + x).len() as int, b);
    lemma_holds_extended(((a + x) + b) + h, f, (a + x).len() as int, b);
    lemma_holds_appended((a + x) + b, h);
    lemma_holds_extended(((a + x) + b) + h, f, ((a + x) + b).len() as int, h);
    lemma_holds_appended(((a + x) + b) + h, f);
    assert forall|j: int| 0 <= j < n implies holds_at(
        bytes,
        offset_of(run, j),
        #[trigger] encode_record(run[j].0, shared(run, j), run[j].1),
    ) by {
        let piece = encode_record(run[j].0, shared(run, j), run[j].1);
        lemma_data_holds(run, j, n);
        lemma_holds_extended(data, terminator(), offset_of(run, j), piece);
        lemma_holds_extended(a, x, offset_of(run, j), piece);
        lemma_holds_extended(a + x, b, offset_of(run, j), piece);
        lemma_holds_extended((a + x) + b, h, offset_of(run, j), piece);
        lemma_holds_extended(((a + x) + b) + h, f, offset_of(run, j), piece);
    }
}

/// The footer of a written run gives the offset of its header block.
#[verifier::rlimit(50)]
pub proof fn lemma_footer(run: Seq<Pair>)
    requires
        table_bytes(run).len() <= usize::MAX,
    ensures
        footer_of(table_bytes(run)) == Ok::<u64, SSTableError>(header_offset(run) as u64),
{
    let bytes = table_bytes(run);
    lemma_layout(run);
    let at = bytes.len() - 16;
    lemma_holds_split(bytes, at, le64(header_offset(run) as u64), le64(MAGIC));
    lemma_le64_roundtrip(bytes, at, header_offset(run) as u64);
    lemma_le64_roundtrip(bytes, at + 8, MAGIC);
}

/// The header block of a written run names its two blocks.
#[verifier::rlimit(50)]
pub proof fn lemma_header(run: Seq<Pair>)
    requires
        table_bytes(run).len() <= usize::MAX,
    ensures
        header_of(table_bytes(run), header_offset(run) as u64) matches Ok(state) && state.index
            == Some(data_section(run).len() as u64) && state.bloom == Some(
            bloom_offset(run) as u64,
        ),
{
    let bytes = table_bytes(run);
    lemma_layout(run);
    let at = header_offset(run);
    let ia = data_section(run).len() as u64;
    let ba = bloom_offset(run) as u64;
    let p0 = encode(2);
    let p1 = encode(TAG_INDEX);
    let p2 = encode(ia);
    let p3 = encode(TAG_BLOOM);
    let p4 = encode(ba);
    assert(header_block(data_section(run).len() as int, bloom_offset(run)) == (((p0 + p1) + p2)
        + p3) + p4);
    lemma_holds_split(bytes, at, ((p0 + p1) + p2) + p3, p4);
    lemma_holds_split(bytes, at, (p0 + p1) + p2, p3);
    lemma_holds_split(bytes, at, p0 + p1, p2);
    lemma_holds_split(bytes, at, p0, p1);
    lemma_varint_holds(bytes, at, 2);
    let a1 = at + p0.len();
    lemma_varint_holds(bytes, a1, TAG_INDEX);
    let a2 = a1 + p1.len();
    lemma_varint_holds(bytes, a2, ia);
    let a3 = a2 + p2.len();
    lemma_varint_holds(bytes, a3, TAG_BLOOM);
    let a4 = a3 + p3.len();
    lemma_varint_holds(bytes, a4, ba);
    assert(header_entries(bytes, a1, 0) == Ok::<HeaderState, SSTableError>(
        HeaderState { next: a1, index: None, bloom: None },
    ));
    assert(header_entries(bytes, a1, 1) == Ok::<HeaderState, SSTableError>(
        HeaderState { next: a3, index: Some(ia), bloom: None },
    ));
    assert(header_entries(bytes, a1, 2) == Ok::<HeaderState, SSTableError>(
        HeaderState { next: a4 + p4.len(), index: Some(ia), bloom: Some(ba) },
    ));
}

/// The numbers of the index block of a written run are the offsets of its
/// anchors.
pub proof fn lemma_numbers(bytes: Seq<u8>, at: int, offsets: Seq<int>, upto: int)
    requires
        0 <= upto <= offsets.len(),
        forall|k: int| 0 <= k < offsets.len() ==> 0 <= #[trigger] offsets[k] <= u64::MAX,
        holds_at(bytes, at, encode_offsets(offsets, offsets.len() as int)),
    ensures
        holds_at(bytes, at, encode_offsets(offsets, upto)),
        numbers_at(bytes, at, upto) == Some(
            (
                Seq::new(upto as nat, |k: int| offsets[k] as u64),
                at + encode_offsets(offsets, upto).len(),
            ),
        ),
    decreases offsets.len() - upto,
{
    if upto < offsets.len() {
        lemma_numbers(bytes, at, offsets, upto + 1);
        let front = encode_offsets(offsets, upto);
        let piece = encode(offsets[upto] as u64);
        assert(encode_offsets(offsets, upto + 1) == front + piece);
        lemma_holds_split(bytes, at, front, piece);
    }
    lemma_numbers_upto(bytes, at, offsets, upto);
}

proof fn lemma_numbers_upto(bytes: Seq<u8>, at: int, offsets: Seq<int>, upto: int)
    requires
        0 <= upto <= offsets.len(),
        forall|k: int| 0 <= k < offsets.len() ==> 0 <= #[trigger] offsets[k] <= u64::MAX,
        holds_at(bytes, at, encode_offsets(offsets, upto)),
    ensures
        numbers_at(bytes, at, upto) == Some(
            (
                Seq::new(upto as nat, |k: int| offsets[k] as u64),
                at + encode_offsets(offsets, upto).len(),
            ),
        ),
    decreases upto,
{
    if upto > 0 {
        let front = encode_offsets(offsets, upto - 1);
        let piece = encode(offsets[upto - 1] as u64);
        assert(encode_offsets(offsets, upto) == front + piece);
        lemma_holds_split(bytes, at, front, piece);
        lemma_numbers_upto(bytes, at, offsets, upto - 1);
        lemma_varint_holds(bytes, at + front.len(), offsets[upto - 1] as u64);
        assert(Seq::new(upto as nat, |k: int| offsets[k] as u64) =~= Seq::new(
            (upto - 1) as nat,
            |k: int| offsets[k] as u64,
        ).push(offsets[upto - 1] as u64));
    } else {
        assert(Seq::new(0 as nat, |k: int| offsets[k] as u64) =~= Seq::<u64>::empty());
    }
}

/// The anchors of a written run are read at the offsets that its index
/// block gives.
#[verifier::rlimit(50)]
pub proof fn lemma_anchors(run: Seq<Pair>, upto: int)
    requires
        readable_run(run, table_bytes(run)),
        0 <= upto <= anchors_upto(run, run.len() as int).len(),
    ensures
        anchors_at(table_bytes(run), offsets64(run), upto) == Ok::<
            Seq<(Seq<u8>, int)>,
            SSTableError,
        >(anchors_of_run(run).take(upto)),
    decreases upto,
{
    let bytes = table_bytes(run);
    let n = run.len() as int;
    let offsets = offsets64(run);
    lemma_anchor_records(run, n);
    if upto > 0 {
        lemma_anchors(run, upto - 1);
        let i = anchor_records(run, n)[upto - 1];
        let at = offset_of(run, i);
        lemma_layout(run);
        lemma_offsets(run, i, n);
        assert(offsets[upto - 1] == at as u64);
        let piece = encode_record(run[i].0, shared(run, i), run[i].1);
        assert(holds_at(bytes, at, piece));
        let key = run[i].0;
        let value = value_bytes(run[i].1);
        let head = encode_header(key.len() as int, 0, value.len() as int, flags_of(run[i].1));
        assert(shared(run, i) == 0);
        assert(piece == (head + key.skip(0)) + value);
        lemma_holds_split(bytes, at, head + key.skip(0), value);
        lemma_holds_split(bytes, at, head, key.skip(0));
        lemma_header_holds(bytes, at, key.len() as int, 0, value.len() as int, flags_of(run[i].1));
        assert(key.skip(0) =~= key);
        assert(anchor_at(bytes, at as u64) == Ok::<(Seq<u8>, int), SSTableError>((key, at)));
        assert(anchors_of_run(run).take(upto) =~= anchors_of_run(run).take(upto - 1).push(
            (key, at),
        ));
    } else {
        assert(anchors_of_run(run).take(0) =~= Seq::<(Seq<u8>, int)>::empty());
    }
}

/// The keys of the anchors of an ascending run ascend.
pub proof fn lemma_anchors_ascend(run: Seq<Pair>)
    requires
        ascending(run),
    ensures
        anchors_ascend(anchors_of_run(run)),
        neighbours_ascend(anchors_of_run(run)),
{
    lemma_anchor_records(run, run.len() as int);
}

/// The offsets of the anchors of a run as the index block holds them.
pub open spec fn offsets64(run: Seq<Pair>) -> Seq<u64> {
    Seq::new(
        anchors_upto(run, run.len() as int).len(),
        |k: int| anchors_upto(run, run.len() as int)[k] as u64,
    )
}

/// The offsets of the anchors lie within the run.
proof fn lemma_offsets_in_range(run: Seq<Pair>)
    requires
        table_bytes(run).len() <= usize::MAX,
    ensures
        forall|k: int|
            0 <= k < anchors_upto(run, run.len() as int).len() ==> 0 <= #[trigger] anchors_upto(
                run,
                run.len() as int,
            )[k] <= u64::MAX,
{
    let n = run.len() as int;
    let offsets = anchors_upto(run, n);
    lemma_layout(run);
    lemma_anchor_records(run, n);
    assert forall|k: int| 0 <= k < offsets.len() implies 0 <= #[trigger] offsets[k]
        <= u64::MAX by {
        lemma_offsets(run, anchor_records(run, n)[k], n);
    }
}

/// The index block of a written run lists the offsets of its anchors.
proof fn lemma_index_numbers(run: Seq<Pair>)
    requires
        table_bytes(run).len() <= usize::MAX,
    ensures
        varint_at(table_bytes(run), data_section(run).len() as int) matches Some((first, count))
            && count == offsets64(run).len() && (numbers_at(
            table_bytes(run),
            first,
            count as int,
        ) matches Some((numbers, _)) && numbers == offsets64(run)),
{
    let bytes = table_bytes(run);
    let n = run.len() as int;
    let at = data_section(run).len() as int;
    let offsets = anchors_upto(run, n);
    let m = offsets.len();
    lemma_layout(run);
    lemma_offsets_in_range(run);
    assert(m <= n) by {
        lemma_anchor_records(run, n);
    }
    assert(n <= bytes.len()) by {
        lemma_run_len(run, n);
    }
    let count = encode(m as u64);
    let list = encode_offsets(offsets, m as int);
    assert(index_block(offsets) == count + list);
    lemma_holds_split(bytes, at, count, list);
    lemma_varint_holds(bytes, at, m as u64);
    lemma_numbers(bytes, at + count.len(), offsets, m as int);
    assert(Seq::new(m, |k: int| offsets[k] as u64) =~= offsets64(run));
}

/// A run has no more records than bytes.
proof fn lemma_run_len(run: Seq<Pair>, upto: int)
    requires
        0 <= upto <= run.len(),
    ensures
        upto <= data_upto(run, upto).len(),
        data_upto(run, upto).len() <= data_upto(run, run.len() as int).len(),
        data_upto(run, run.len() as int).len() <= table_bytes(run).len(),
    decreases upto,
{
    lemma_offsets(run, upto, run.len() as int);
    if upto > 0 {
        lemma_run_len(run, upto - 1);
        lemma_roundtrip(run[upto - 1].0.len() as u64);
    }
}

/// The index block of a written run gives its anchors.
pub proof fn lemma_index(run: Seq<Pair>)
    requires
        ascending(run),
        readable_run(run, table_bytes(run)),
    ensures
        index_of(table_bytes(run), data_section(run).len() as u64) == Ok::<
            Seq<(Seq<u8>, int)>,
            SSTableError,
        >(anchors_of_run(run)),
{
    let bytes = table_bytes(run);
    let m = offsets64(run).len() as int;
    lemma_index_numbers(run);
    lemma_anchors(run, m);
    assert(anchors_of_run(run).take(m) =~= anchors_of_run(run)) by {
        lemma_anchor_records(run, run.len() as int);
    }
    lemma_anchors_ascend(run);
    assert(data_section(run).len() <= usize::MAX) by {
        lemma_layout(run);
    }
}

/// The bit array of the filter of a run has the size of the engine's filter.
pub proof fn lemma_bloom_len(run: Seq<Pair>, upto: int)
    requires
        0 <= upto,
    ensures
        bloom_upto(run, upto).len() == filter_size(24),
        filter_size(24) == 0x20_0000,
    decreases upto,
{
    assert((1u64 << 21u64) == 0x20_0000) by (bit_vector);
    if upto > 0 {
        lemma_bloom_len(run, upto - 1);
        crate::bloom::fimpl::lemma_inserted::<crate::bloom::strategies::sfhash::SfHash64<24, 2>, 24, 2>(
            bloom_upto(run, upto - 1),
            run[upto - 1].0,
        );
    }
}

/// The filter of a run knows every key of the run.
pub proof fn lemma_bloom_has(run: Seq<Pair>, i: int, upto: int)
    requires
        0 <= i < upto,
    ensures
        all_set(bloom_upto(run, upto), BloomFilter::slots(run[i].0)),
    decreases upto,
{
    lemma_bloom_len(run, upto - 1);
    crate::bloom::fimpl::lemma_inserted::<crate::bloom::strategies::sfhash::SfHash64<24, 2>, 24, 2>(
        bloom_upto(run, upto - 1),
        run[upto - 1].0,
    );
    if i < upto - 1 {
        lemma_bloom_has(run, i, upto - 1);
        let slots = BloomFilter::slots(run[i].0);
        assert forall|j: int| 0 <= j < slots.len() implies (#[trigger] slots[j] as u64) < (1u64 << (
        24usize as u64)) by {
            crate::bloom::lemma_slot_in_range(
                crate::bloom::strategies::sfhash::sfhash64_spec(run[i].0),
                24,
                j,
            );
        }
        crate::bloom::fimpl::lemma_stays_after_insert(
            bloom_upto(run, upto - 1),
            bloom_upto(run, upto),
            BloomFilter::slots(run[upto - 1].0),
            24,
            slots,
        );
    }
}

/// The Bloom filter block of a written run gives the bit array of its
/// filter.
pub proof fn lemma_bloom(run: Seq<Pair>)
    requires
        table_bytes(run).len() <= usize::MAX,
    ensures
        bloom_of(table_bytes(run), bloom_offset(run) as u64) == Ok::<Seq<u8>, SSTableError>(
            bloom_upto(run, run.len() as int),
        ),
{
    let bytes = table_bytes(run);
    let n = run.len() as int;
    let bits = bloom_upto(run, n);
    lemma_layout(run);
    lemma_bloom_len(run, n);
    let size = encode(bits.len() as u64);
    assert(bloom_block(bits) == size + bits);
    lemma_holds_split(bytes, bloom_offset(run), size, bits);
    lemma_varint_holds(bytes, bloom_offset(run), bits.len() as u64);
}

/// A written run opens: the reader finds the anchors and the filter that the
/// writer put there.
pub proof fn lemma_written_run_opens(run: Seq<Pair>)
    requires
        ascending(run),
        readable_run(run, table_bytes(run)),
    ensures
        parse_table(table_bytes(run)) == Ok::<TableView, SSTableError>(table_of_run(run)),
{
    lemma_footer(run);
    lemma_header(run);
    lemma_index(run);
    lemma_bloom(run);
}


// ---------------------------------------------------------------------------
// Lookups
// ---------------------------------------------------------------------------

/// The record of the pair with the given key, if the run has one.
pub open spec fn find_pair(run: Seq<Pair>, key: Seq<u8>) -> Option<RecordView> {
    if exists|i: int| 0 <= i < run.len() && (#[trigger] run[i]).0 == key {
        Some(run[choose|i: int| 0 <= i < run.len() && (#[trigger] run[i]).0 == key].1)
    } else {
        None
    }
}

/// In an ascending run a key stands at one place at most.
pub proof fn lemma_find_pair(run: Seq<Pair>, i: int)
    requires
        ascending(run),
        0 <= i < run.len(),
    ensures
        find_pair(run, run[i].0) == Some(run[i].1),
{
    let j = choose|j: int| 0 <= j < run.len() && (#[trigger] run[j]).0 == run[i].0;
    lemma_lex_reflexive(run[i].0);
    if j < i {
        assert(lex_lt(run[j].0, run[i].0));
    } else if i < j {
        assert(lex_lt(run[i].0, run[j].0));
    }
}

/// A search of an ascending run from its start finds the pair with the key.
pub proof fn lemma_seek(run: Seq<Pair>, key: Seq<u8>)
    requires
        ascending(run),
    ensures
        seek(run, key) == find_pair(run, key),
    decreases run.len(),
{
    if run.len() == 0 {
    } else if lex_lt(run[0].0, key) {
        let rest = run.skip(1);
        assert forall|i: int, j: int| 0 <= i < j < rest.len() implies lex_lt(
            (#[trigger] rest[i]).0,
            (#[trigger] rest[j]).0,
        ) by {
            assert(lex_lt(run[i + 1].0, run[j + 1].0));
        }
        lemma_seek(rest, key);
        lemma_lex_reflexive(key);
        if exists|i: int| 0 <= i < run.len() && (#[trigger] run[i]).0 == key {
            let i = choose|i: int| 0 <= i < run.len() && (#[trigger] run[i]).0 == key;
            assert(rest[i - 1] == run[i]);
            lemma_find_pair(run, i);
            lemma_find_pair(rest, i - 1);
        } else {
            if exists|i: int| 0 <= i < rest.len() && (#[trigger] rest[i]).0 == key {
                let i = choose|i: int| 0 <= i < rest.len() && (#[trigger] rest[i]).0 == key;
                assert(run[i + 1] == rest[i]);
            }
        }
    } else {
        if run[0].0 == key {
            lemma_find_pair(run, 0);
        } else {
            lemma_lex_flip(run[0].0, key);
            lemma_lex_equal(run[0].0, key);
            if exists|i: int| 0 <= i < run.len() && (#[trigger] run[i]).0 == key {
                let i = choose|i: int| 0 <= i < run.len() && (#[trigger] run[i]).0 == key;
                assert(lex_lt(run[0].0, run[i].0));
                lemma_lex_lt_transitive(key, run[0].0, run[i].0);
                lemma_lex_reflexive(key);
            }
        }
    }
}

/// A run that is read back ascends as the run that was written.
pub proof fn lemma_read_back_ascends(run: Seq<Pair>, from: int)
    requires
        ascending(run),
        0 <= from <= run.len(),
    ensures
        ascending(run_read_back(run).skip(from)),
{
    let back = run_read_back(run).skip(from);
    assert forall|i: int, j: int| 0 <= i < j < back.len() implies lex_lt(
        (#[trigger] back[i]).0,
        (#[trigger] back[j]).0,
    ) by {
        assert(lex_lt(run[from + i].0, run[from + j].0));
    }
}

/// A scan from an anchor of a written run yields the records from the anchor
/// on.
pub proof fn lemma_scan_from_anchor(run: Seq<Pair>, a: int)
    requires
        ascending(run),
        readable_run(run, table_bytes(run)),
        0 <= a < anchors_of_run(run).len(),
    ensures
        0 <= anchor_records(run, run.len() as int)[a] < run.len(),
        anchors_of_run(run)[a].0 == run[anchor_records(run, run.len() as int)[a]].0,
        records_from(table_bytes(run), anchors_of_run(run)[a].1, Seq::empty()) == run_read_back(
            run,
        ).skip(anchor_records(run, run.len() as int)[a]),
{
    let n = run.len() as int;
    lemma_anchor_records(run, n);
    lemma_layout(run);
    lemma_records_from(table_bytes(run), run, anchor_records(run, n)[a], Seq::empty());
}

/// A scan of a written run yields the pairs that were written, in their
/// order, each marked as cached.
pub proof fn lemma_written_run_scans(run: Seq<Pair>)
    requires
        ascending(run),
        readable_run(run, table_bytes(run)),
    ensures
        crate::sstable::format::table_scan(table_bytes(run)) == run_read_back(run),
{
    let n = run.len() as int;
    lemma_written_run_opens(run);
    lemma_anchor_records(run, n);
    lemma_layout(run);
    if n > 0 {
        lemma_scan_from_anchor(run, 0);
        assert(run_read_back(run).skip(0) =~= run_read_back(run));
    } else {
        lemma_records_from(table_bytes(run), run, 0, Seq::empty());
        assert(run_read_back(run).skip(0) =~= run_read_back(run));
    }
}

/// A key below the first record of an ascending run is not in the run.
proof fn lemma_below_first(run: Seq<Pair>, key: Seq<u8>)
    requires
        ascending(run),
        run.len() > 0,
        !lex_le(run[0].0, key),
    ensures
        find_pair(run_read_back(run), key) is None,
{
    let back = run_read_back(run);
    if exists|i: int| 0 <= i < back.len() && (#[trigger] back[i]).0 == key {
        let i = choose|i: int| 0 <= i < back.len() && (#[trigger] back[i]).0 == key;
        lemma_lex_flip(run[0].0, key);
        lemma_lex_equal(run[0].0, key);
        if i > 0 {
            assert(lex_lt(run[0].0, run[i].0));
            lemma_lex_flip(run[0].0, run[i].0);
        }
    }
}

/// A key that is not below record `r` of an ascending run stands, if
/// anywhere, at `r` or behind.
proof fn lemma_behind_anchor(run: Seq<Pair>, r: int, key: Seq<u8>)
    requires
        ascending(run),
        0 <= r < run.len(),
        lex_le(run[r].0, key),
    ensures
        find_pair(run_read_back(run).skip(r), key) == find_pair(run_read_back(run), key),
{
    let back = run_read_back(run);
    let rest = back.skip(r);
    lemma_read_back_ascends(run, 0);
    assert(back.skip(0) =~= back);
    lemma_read_back_ascends(run, r);
    if exists|i: int| 0 <= i < back.len() && (#[trigger] back[i]).0 == key {
        let i = choose|i: int| 0 <= i < back.len() && (#[trigger] back[i]).0 == key;
        if i < r {
            assert(lex_lt(run[i].0, run[r].0));
            lemma_lex_flip(run[r].0, key);
            lemma_lex_equal(run[r].0, key);
            lemma_lex_flip(run[i].0, run[r].0);
        }
        assert(rest[i - r] == back[i]);
        lemma_find_pair(back, i);
        lemma_find_pair(rest, i - r);
    } else {
        if exists|i: int| 0 <= i < rest.len() && (#[trigger] rest[i]).0 == key {
            let i = choose|i: int| 0 <= i < rest.len() && (#[trigger] rest[i]).0 == key;
            assert(back[r + i] == rest[i]);
        }
    }
}

/// The filter of a run knows every key under which the run holds a pair.
proof fn lemma_filter_knows(run: Seq<Pair>, key: Seq<u8>)
    requires
        find_pair(run_read_back(run), key) is Some,
    ensures
        all_set(bloom_upto(run, run.len() as int), BloomFilter::slots(key)),
{
    let back = run_read_back(run);
    let i = choose|i: int| 0 <= i < back.len() && (#[trigger] back[i]).0 == key;
    lemma_bloom_has(run, i, run.len() as int);
}

/// What a search from the anchor that a lookup starts from finds.
proof fn lemma_from_floor(run: Seq<Pair>, key: Seq<u8>)
    requires
        ascending(run),
        readable_run(run, table_bytes(run)),
    ensures
        match floor_anchor(anchors_of_run(run), key) {
            None => find_pair(run_read_back(run), key) is None,
            Some(a) => 0 <= a < anchors_of_run(run).len() && seek(
                records_from(table_bytes(run), anchors_of_run(run)[a].1, Seq::empty()),
                key,
            ) == find_pair(run_read_back(run), key),
        },
{
    let n = run.len() as int;
    let anchors = anchors_of_run(run);
    lemma_floor_upto(anchors, key, anchors.len() as int);
    match floor_anchor(anchors, key) {
        None => {
            if n > 0 {
                assert(anchors.len() > 0 && anchors[0].0 == run[0].0) by {
                    lemma_anchor_records(run, n);
                }
                lemma_below_first(run, key);
            }
        },
        Some(a) => {
            lemma_scan_from_anchor(run, a);
            let r = anchor_records(run, n)[a];
            lemma_read_back_ascends(run, r);
            lemma_seek(run_read_back(run).skip(r), key);
            lemma_behind_anchor(run, r, key);
        },
    }
}

/// A lookup in a written run finds the pair that was written under the key,
/// marked as cached, and nothing under a key that was not written.
pub proof fn lemma_written_run_lookup(run: Seq<Pair>, key: Seq<u8>)
    requires
        ascending(run),
        readable_run(run, table_bytes(run)),
    ensures
        table_lookup(table_bytes(run), key) == find_pair(run_read_back(run), key),
{
    lemma_written_run_opens(run);
    lemma_from_floor(run, key);
    if find_pair(run_read_back(run), key) is Some {
        lemma_filter_knows(run, key);
    }
}

/// A pair that a written run holds behind one of its anchors is one of the
/// pairs that were written, marked as cached.
proof fn lemma_held_pair(run: Seq<Pair>, pair: Pair) -> (at: int)
    requires
        ascending(run),
        readable_run(run, table_bytes(run)),
        table_holds(table_bytes(run), pair),
    ensures
        0 <= at < run.len(),
        read_back(run[at]) == pair,
{
    let n = run.len() as int;
    let bytes = table_bytes(run);
    let anchors = anchors_of_run(run);
    lemma_written_run_opens(run);
    let (a, i) = choose|a: int, i: int|
        0 <= a < anchors.len() && 0 <= i < records_from(bytes, anchors[a].1, Seq::empty()).len()
            && #[trigger] records_from(bytes, anchors[a].1, Seq::empty())[i] == pair;
    lemma_scan_from_anchor(run, a);
    let r = anchor_records(run, n)[a];
    assert(run_read_back(run).skip(r)[i] == run_read_back(run)[r + i]);
    r + i
}

/// A pair that a written run holds behind one of its anchors is the pair
/// that a lookup finds under its key.
pub proof fn lemma_written_run_holds(run: Seq<Pair>, pair: Pair)
    requires
        ascending(run),
        readable_run(run, table_bytes(run)),
        table_holds(table_bytes(run), pair),
    ensures
        table_lookup(table_bytes(run), pair.0) == Some(pair.1),
        exists|i: int| 0 <= i < run.len() && read_back(#[trigger] run[i]) == pair,
{
    let at = lemma_held_pair(run, pair);
    let back = run_read_back(run);
    assert(back[at] == pair);
    lemma_read_back_ascends(run, 0);
    assert(back.skip(0) =~= back);
    lemma_find_pair(back, at);
    lemma_written_run_lookup(run, pair.0);
}

} // verus!
