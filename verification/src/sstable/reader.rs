//! Reads one sorted run: point lookups through two small caches, and scans.

use crate::bloom::fimpl::{all_set, filter_size};
use crate::bloom::BloomFilter;
use crate::order::Order;
use crate::record::bytestream::{
    compare_bytes, lemma_lex_equal, lemma_lex_flip, lemma_lex_lt_transitive, lex_le, lex_lt,
    lex_order, ByteStream,
};
use crate::record::iterator::{pair_of, KvPointer, KvSource, Pair};
use crate::record::kventry::{KvData, KvDataRef, RecordView};
use crate::sstable::cache::{
    after_put, has_key, key_index, lemma_after_put, lemma_touched, lru_cap, lru_entries, lru_get,
    lru_new, lru_put, touched,
};
use crate::sstable::format::{
    anchor_at, anchors_ascend, anchors_at, bloom_of, floor_anchor, floor_upto, footer_of, header_at,
    header_entries, header_of, index_of, is_terminator, le64_at, lemma_floor_upto, lemma_header_at,
    lemma_neighbours_ascend, lemma_varint_at, neighbours_ascend, numbers_at, parse_table, read_header,
    read_u64, read_varu64, record_at, records_from, seek, skip_below, table_holds, table_lookup,
    table_scan,
    varint_at, HeaderState, RecordHeader, SSTableError, TableView, FLAG_TOMBSTONE, MAGIC, TAG_BLOOM,
    TAG_INDEX,
};
use crate::record::iterator::ascending;
use crate::sstable::format::table_bytes;
use crate::sstable::roundtrip::{
    find_pair, lemma_written_run_holds, lemma_written_run_lookup, lemma_written_run_scans,
    readable_run, run_read_back,
};
use lru::LruCache;
use vstd::prelude::*;
use vstd::slice::slice_to_vec;

verus! {

/// Number of pairs that the cache of looked-up pairs holds.
pub const READ_CACHE_SIZE: usize = 2048;

/// Number of pairs that the look-aside cache holds.
pub const LOOKASIDE_CACHE_SIZE: usize = 256;

/// The most pairs that one lookup adds to the look-aside cache.
pub const LOOKASIDE_LIMIT: usize = 8;

/// Reader iterator (pointer) interface: one pair of a run.
pub struct SSTableReaderPointer<'a> {
    /// The key, in full.
    _key: Vec<u8>,
    /// Reference to value.
    _value: &'a [u8],
    /// Item flags.
    _flags: u64,
    /// Offset from file begin.
    _offset: usize,
}

impl<'a> SSTableReaderPointer<'a> {
    /// Offset of the record in the run.
    pub closed spec fn spec_offset(&self) -> int {
        self._offset as int
    }

    /// Offset of the record in the run.
    pub fn offset(&self) -> (at: usize)
        ensures
            at == self.spec_offset(),
    {
        self._offset
    }
}

impl<'a> KvPointer for SSTableReaderPointer<'a> {
    closed spec fn spec_key(&self) -> Seq<u8> {
        self._key@
    }

    closed spec fn spec_value(&self) -> RecordView {
        if self._flags == FLAG_TOMBSTONE {
            RecordView::Tombstone { cached: true }
        } else {
            RecordView::Value { cached: true, value: self._value@ }
        }
    }

    /// Get key where iterator points to.
    fn key(&self) -> (k: &[u8]) {
        self._key.as_slice()
    }

    /// The record, marked as cached: it was read from a run.
    fn value(&self) -> (v: KvDataRef<'_>) {
        if self._flags == FLAG_TOMBSTONE {
            KvDataRef::Tombstone { cached: true }
        } else {
            KvDataRef::Value { cached: true, value: self._value }
        }
    }
}

/// The bytes of `a` followed by those of `b`.
fn concat(a: &[u8], b: &[u8]) -> (joined: Vec<u8>)
    ensures
        joined@ == a@ + b@,
{
    let mut joined: Vec<u8> = Vec::new();
    let mut i: usize = 0;
    while i < a.len()
        invariant
            i <= a@.len(),
            joined@ == a@.take(i as int),
        decreases a@.len() - i,
    {
        joined.push(a[i]);
        assert(a@.take(i + 1) =~= a@.take(i as int).push(a@[i as int]));
        i += 1;
    }
    assert(a@.take(a@.len() as int) =~= a@);
    let mut j: usize = 0;
    while j < b.len()
        invariant
            j <= b@.len(),
            joined@ == a@ + b@.take(j as int),
        decreases b@.len() - j,
    {
        joined.push(b[j]);
        assert(a@ + b@.take(j + 1) =~= (a@ + b@.take(j as int)).push(b@[j as int]));
        j += 1;
    }
    assert(b@.take(b@.len() as int) =~= b@);
    joined
}

/// SSTable reader iterator manager.
pub struct SSTableReaderIterator<'a> {
    /// Reference to file as a memory region.
    region: &'a [u8],
    /// Current iterator offset.
    offset: usize,
    /// Holds previous key (index compression).
    last_key: Vec<u8>,
}

impl<'a> SSTableReaderIterator<'a> {
    /// The bytes of the run.
    pub closed spec fn bytes(&self) -> Seq<u8> {
        self.region@
    }

    /// Offset of the next record.
    pub closed spec fn position(&self) -> int {
        self.offset as int
    }

    /// The key of the record read last.
    pub closed spec fn previous_key(&self) -> Seq<u8> {
        self.last_key@
    }

    /// The pairs yet to come.
    pub open spec fn rest(&self) -> Seq<Pair> {
        records_from(self.bytes(), self.position(), self.previous_key())
    }

    /// An iterator over the records from `offset` on, of which the first has
    /// its key written in full.
    pub fn new(region: &'a [u8], offset: usize) -> (iter: Self)
        ensures
            iter.bytes() == region@,
            iter.position() == offset,
            iter.previous_key() == Seq::<u8>::empty(),
    {
        SSTableReaderIterator { region, offset, last_key: Vec::new() }
    }

    /// Reads the next record without moving on.
    fn parse_next(&self) -> (res: Option<(SSTableReaderPointer<'a>, usize)>)
        ensures
            match record_at(self.bytes(), self.position(), self.previous_key()) {
                Some((pair, end)) => {
                    &&& res matches Some((p, e))
                    &&& pair_of(p) == pair
                    &&& e == end
                    &&& self.position() < end <= self.bytes().len()
                    &&& p.spec_offset() == self.position()
                },
                None => res is None,
            },
    {
        reveal(record_at);
        let len: usize = self.region.len();
        let h = match read_header(self.region, self.offset) {
            Some(h) => h,
            None => return None,
        };
        proof {
            lemma_header_at(self.region@, self.offset as int);
        }
        // terminated
        if h.key_len == 0 && h.common_len == 0 && h.value_len == 0 {
            return None;
        }
        if h.common_len > h.key_len || h.common_len > self.last_key.len() as u64 || h.flags > 1 {
            return None;
        }
        let suffix_len: u64 = h.key_len - h.common_len;
        let avail: usize = len - h.body;
        if suffix_len > avail as u64 {
            return None;
        }
        let suffix: usize = suffix_len as usize;
        if h.value_len > (avail - suffix) as u64 {
            return None;
        }
        let common: usize = h.common_len as usize;
        let key_end: usize = h.body + suffix;
        let end: usize = key_end + h.value_len as usize;

        // deflate new key
        let shared = vstd::slice::slice_subrange(self.last_key.as_slice(), 0, common);
        let stored = vstd::slice::slice_subrange(self.region, h.body, key_end);
        let key = concat(shared, stored);
        assert(shared@ =~= self.last_key@.take(common as int));

        // get reference to value
        let value = vstd::slice::slice_subrange(self.region, key_end, end);

        // construct pointer
        Some(
            (
                SSTableReaderPointer {
                    _key: key,
                    _value: value,
                    _flags: h.flags,
                    _offset: self.offset,
                },
                end,
            ),
        )
    }

    /// Moves to the first record whose key is not below `key`, and says
    /// whether its key is `key`.
    pub fn advance_to(&mut self, key: &[u8]) -> (found: bool)
        ensures
            final(self).bytes() == old(self).bytes(),
            final(self).rest() == skip_below(old(self).rest(), key@),
            found <==> final(self).rest().len() > 0 && final(self).rest()[0].0 == key@,
    {
        let mut hit: bool = false;
        loop
            invariant
                self.bytes() == old(self).bytes(),
                skip_below(self.rest(), key@) == skip_below(old(self).rest(), key@),
            ensures
                self.bytes() == old(self).bytes(),
                self.rest() == skip_below(old(self).rest(), key@),
                hit <==> self.rest().len() > 0 && self.rest()[0].0 == key@,
            decreases self.bytes().len() - self.position(),
        {
            let ghost before = self.rest();
            match self.parse_next() {
                None => {
                    hit = false;
                    break;
                },
                Some((item, end)) => {
                    proof {
                        lemma_lex_equal(item.spec_key(), key@);
                        assert(before[0] == pair_of(item));
                        assert(before.skip(1) =~= records_from(
                            self.bytes(),
                            end as int,
                            item.spec_key(),
                        ));
                    }
                    match compare_bytes(item.key(), key) {
                        Order::Less => {
                            self.offset = end;
                            self.last_key = item._key;
                        },
                        Order::Equal => {
                            hit = true;
                            break;
                        },
                        Order::Greater => {
                            hit = false;
                            break;
                        },
                    }
                },
            }
        }
        hit
    }
}

impl<'a> KvSource for SSTableReaderIterator<'a> {
    type Pointer = SSTableReaderPointer<'a>;

    open spec fn wf(&self) -> bool {
        true
    }

    open spec fn remaining(&self) -> Seq<Pair> {
        self.rest()
    }

    /// Yields the next pair. The scan ends at the header that ends the
    /// records, and also where the bytes are no record.
    fn next(&mut self) -> (item: Option<Self::Pointer>)
        ensures
            final(self).bytes() == old(self).bytes(),
            item matches Some(p) ==> p.spec_offset() == old(self).position(),
            match record_at(old(self).bytes(), old(self).position(), old(self).previous_key()) {
                Some((pair, end)) => {
                    &&& item matches Some(p) && pair_of(p) == pair
                    &&& final(self).position() == end
                    &&& final(self).previous_key() == pair.0
                },
                None => {
                    &&& item is None
                    &&& final(self).position() == old(self).position()
                    &&& final(self).previous_key() == old(self).previous_key()
                },
            },
    {
        match self.parse_next() {
            None => None,
            Some((item, end)) => {
                proof {
                    assert(self.rest().skip(1) =~= records_from(
                        self.bytes(),
                        end as int,
                        item.spec_key(),
                    ));
                }
                self.offset = end;
                self.last_key = item._key.clone();
                Some(item)
            },
        }
    }
}


/// The anchors as plain values.
pub open spec fn anchors_of(keys: Seq<(ByteStream, usize)>) -> Seq<(Seq<u8>, int)> {
    Seq::new(keys.len(), |i: int| (keys[i].0@, keys[i].1 as int))
}

/// What a cache answers for `key`.
pub open spec fn cache_answer(entries: Seq<Pair>, key: Seq<u8>) -> Option<RecordView> {
    if has_key(entries, key) {
        Some(entries[key_index(entries, key)].1)
    } else {
        None
    }
}

/// The pairs of a cache once the records from `at` on have been put into it
/// one after the other: `limit` records at most, none behind the first that
/// lies at or behind `term`, and none behind the end of the records.
pub open spec fn looked_ahead(
    entries: Seq<Pair>,
    cap: nat,
    bytes: Seq<u8>,
    at: int,
    prev: Seq<u8>,
    term: int,
    limit: nat,
) -> Seq<Pair>
    decreases limit,
{
    if limit == 0 {
        entries
    } else {
        match record_at(bytes, at, prev) {
            None => entries,
            Some((pair, end)) => {
                let put = after_put(entries, cap, pair);
                if at >= term {
                    put
                } else {
                    looked_ahead(put, cap, bytes, end, pair.0, term, (limit - 1) as nat)
                }
            },
        }
    }
}

/// Every pair of the cache is a pair of the run.
pub open spec fn cache_agrees(entries: Seq<Pair>, bytes: Seq<u8>) -> bool {
    forall|i: int| 0 <= i < entries.len() ==> table_holds(bytes, #[trigger] entries[i])
}

/// Reads one run that lies in memory as a whole.
pub struct SSTableReader {
    /// The bytes of the run.
    region: Vec<u8>,
    /// Internal bloom filter to check for missing keys.
    bloom: BloomFilter,
    /// The anchors: their keys and their offsets.
    keys: Vec<(ByteStream, usize)>,
    /// LRU cache for recently *accessed* items.
    cache_read: LruCache<Vec<u8>, KvData>,
    /// LRU cache as a look-aside buffer: the pairs that follow a pair that
    /// was looked up.
    cache_lookaside: LruCache<Vec<u8>, KvData>,
}

impl SSTableReader {
    /// The bytes of the run.
    pub closed spec fn bytes(&self) -> Seq<u8> {
        self.region@
    }

    /// The invariant of the reader: its bytes are a run, of which it holds
    /// the index and the Bloom filter, and its caches hold pairs of the run
    /// alone.
    pub closed spec fn wf(&self) -> bool {
        &&& parse_table(self.region@) == Ok::<TableView, SSTableError>(
            TableView { anchors: anchors_of(self.keys@), bloom: self.bloom@ },
        )
        &&& self.bloom.wf()
        &&& cache_agrees(lru_entries(self.cache_read), self.region@)
        &&& cache_agrees(lru_entries(self.cache_lookaside), self.region@)
    }

    /// What the caches answer for `key`: the cache of looked-up pairs comes
    /// first.
    pub closed spec fn cached(&self, key: Seq<u8>) -> Option<RecordView> {
        match cache_answer(lru_entries(self.cache_read), key) {
            Some(r) => Some(r),
            None => cache_answer(lru_entries(self.cache_lookaside), key),
        }
    }

    /// What a search of the run finds under `key`.
    pub open spec fn lookup(&self, key: Seq<u8>) -> Option<RecordView> {
        table_lookup(self.bytes(), key)
    }

    /// What `get` answers for `key`: what the caches hold under it, else what
    /// a search of the run finds.
    pub open spec fn answer(&self, key: Seq<u8>) -> Option<RecordView> {
        match self.cached(key) {
            Some(r) => Some(r),
            None => self.lookup(key),
        }
    }

    /// A reader of a written run answers with the pair that was written
    /// under the key, marked as cached, whatever its caches hold.
    pub proof fn lemma_answer_of_written_run(&self, run: Seq<Pair>, key: Seq<u8>)
        requires
            self.wf(),
            self.bytes() == table_bytes(run),
            ascending(run),
            readable_run(run, table_bytes(run)),
        ensures
            self.answer(key) == find_pair(run_read_back(run), key),
            self.scan() == run_read_back(run),
    {
        self.lemma_cached(key);
        lemma_written_run_lookup(run, key);
        lemma_written_run_scans(run);
        match self.cached(key) {
            Some(r) => {
                lemma_written_run_holds(run, (key, r));
            },
            None => {},
        }
    }

    /// What the caches answer is in the run.
    pub proof fn lemma_cached(&self, key: Seq<u8>)
        requires
            self.wf(),
        ensures
            match self.cached(key) {
                Some(r) => table_holds(self.bytes(), (key, r)),
                None => true,
            },
    {
    }

    /// Reads the entries of the header block at `at`.
    fn get_header(region: &[u8], at: u64) -> (res: Result<(Option<u64>, Option<u64>), SSTableError>)
        ensures
            match header_of(region@, at) {
                Ok(state) => res == Ok::<(Option<u64>, Option<u64>), SSTableError>(
                    (state.index, state.bloom),
                ),
                Err(e) => res == Err::<(Option<u64>, Option<u64>), SSTableError>(e),
            },
    {
        if at > region.len() as u64 {
            return Err(SSTableError::OutOfBounds);
        }
        let mut offset: usize = at as usize;
        let count: u64 = read_varu64(region, &mut offset)?;
        let ghost first = offset as int;
        let mut index: Option<u64> = None;
        let mut bloom: Option<u64> = None;
        let mut i: u64 = 0;
        while i < count
            invariant
                i <= count,
                varint_at(region@, at as int) == Some((first, count)),
                header_entries(region@, first, i as int) == Ok::<HeaderState, SSTableError>(
                    HeaderState { next: offset as int, index, bloom },
                ),
            ensures
                i == count,
                header_entries(region@, first, count as int) == Ok::<HeaderState, SSTableError>(
                    HeaderState { next: offset as int, index, bloom },
                ),
            decreases count - i,
        {
            let tag = match read_varu64(region, &mut offset) {
                Ok(v) => v,
                Err(e) => {
                    proof {
                        lemma_header_error(region@, first, i + 1, count as int);
                    }
                    return Err(e);
                },
            };
            let indice = match read_varu64(region, &mut offset) {
                Ok(v) => v,
                Err(e) => {
                    proof {
                        lemma_header_error(region@, first, i + 1, count as int);
                    }
                    return Err(e);
                },
            };
            if tag == TAG_INDEX {
                index = Some(indice);
            } else if tag == TAG_BLOOM {
                bloom = Some(indice);
            } else {
                proof {
                    lemma_header_error(region@, first, i + 1, count as int);
                }
                return Err(SSTableError::InvalidBlockType);
            }
            i += 1;
        }
        Ok((index, bloom))
    }

    /// Reads the anchor at offset `indice`: its key, which must be written in
    /// full.
    fn get_anchor(region: &[u8], indice: u64) -> (res: Result<(ByteStream, usize), SSTableError>)
        ensures
            match anchor_at(region@, indice) {
                Ok(anchor) => res matches Ok(found) && found.0@ == anchor.0 && found.1 == anchor.1,
                Err(e) => res matches Err(x) && x == e,
            },
    {
        let len: usize = region.len();
        if indice > len as u64 {
            proof {
                reveal(header_at);
            }
            return Err(SSTableError::OutOfBounds);
        }
        let h = match read_header(region, indice as usize) {
            Some(h) => h,
            None => return Err(SSTableError::OutOfBounds),
        };
        proof {
            lemma_header_at(region@, indice as int);
        }
        // you shouldn't index a compressed key
        if h.common_len != 0 {
            return Err(SSTableError::CompressedIndexKey);
        }
        if h.key_len > (len - h.body) as u64 {
            return Err(SSTableError::OutOfBounds);
        }
        // read key and send it away
        let key = vstd::slice::slice_subrange(region, h.body, h.body + h.key_len as usize);
        Ok((ByteStream::from_slice(key), indice as usize))
    }

    /// Reads `count` offsets from `*offset` on.
    fn get_offsets(region: &[u8], offset: &mut usize, count: u64) -> (res: Result<
        Vec<u64>,
        SSTableError,
    >)
        ensures
            match numbers_at(region@, *old(offset) as int, count as int) {
                Some((numbers, next)) => res matches Ok(found) && found@ == numbers,
                None => res matches Err(e) && e == SSTableError::OutOfBounds,
            },
    {
        let ghost first = *offset as int;
        let mut indices: Vec<u64> = Vec::new();
        let mut i: u64 = 0;
        while i < count
            invariant
                i <= count,
                first == *old(offset),
                numbers_at(region@, first, i as int) == Some((indices@, *offset as int)),
            ensures
                i == count,
                numbers_at(region@, first, count as int) == Some((indices@, *offset as int)),
            decreases count - i,
        {
            let indice = match read_varu64(region, offset) {
                Ok(v) => v,
                Err(e) => {
                    proof {
                        lemma_numbers_error(region@, first, i + 1, count as int);
                    }
                    return Err(e);
                },
            };
            indices.push(indice);
            i += 1;
        }
        Ok(indices)
    }

    /// Reads the anchors at the given offsets.
    fn get_anchors(region: &[u8], indices: &Vec<u64>) -> (res: Result<
        Vec<(ByteStream, usize)>,
        SSTableError,
    >)
        ensures
            match anchors_at(region@, indices@, indices@.len() as int) {
                Ok(anchors) => res matches Ok(keys) && anchors_of(keys@) == anchors,
                Err(e) => res matches Err(x) && x == e,
            },
    {
        let mut keys: Vec<(ByteStream, usize)> = Vec::new();
        let marks: usize = indices.len();
        let mut j: usize = 0;
        assert(anchors_of(keys@) =~= Seq::empty());
        while j < marks
            invariant
                j <= marks,
                marks == indices@.len(),
                anchors_at(region@, indices@, j as int) == Ok::<Seq<(Seq<u8>, int)>, SSTableError>(
                    anchors_of(keys@),
                ),
            ensures
                j == marks,
                anchors_at(region@, indices@, marks as int) == Ok::<
                    Seq<(Seq<u8>, int)>,
                    SSTableError,
                >(anchors_of(keys@)),
            decreases marks - j,
        {
            let ghost before = anchors_of(keys@);
            let anchor = match Self::get_anchor(region, indices[j]) {
                Ok(anchor) => anchor,
                Err(e) => {
                    proof {
                        lemma_anchors_error(region@, indices@, j + 1, marks as int);
                    }
                    return Err(e);
                },
            };
            let ghost found = (anchor.0@, anchor.1 as int);
            keys.push(anchor);
            proof {
                assert(anchors_of(keys@) =~= before.push(found));
            }
            j += 1;
        }
        Ok(keys)
    }

    /// Whether each anchor comes before the next.
    fn keys_ascend(keys: &Vec<(ByteStream, usize)>) -> (ascend: bool)
        ensures
            ascend == neighbours_ascend(anchors_of(keys@)),
    {
        let ghost anchors = anchors_of(keys@);
        let mut k: usize = 1;
        while k < keys.len()
            invariant
                1 <= k,
                anchors == anchors_of(keys@),
                forall|t: int|
                    0 <= t < k - 1 && t < anchors.len() - 1 ==> lex_lt(
                        (#[trigger] anchors[t]).0,
                        anchors[t + 1].0,
                    ),
            decreases keys@.len() - k,
        {
            match compare_bytes(keys[k - 1].0.as_ref(), keys[k].0.as_ref()) {
                Order::Less => {},
                _ => {
                    assert(!lex_lt(anchors[k - 1].0, anchors[k - 1 + 1].0));
                    return false;
                },
            }
            k += 1;
        }
        true
    }

    /// Reads the index block at `at`: the offsets of the anchors, and then
    /// the key of each.
    fn get_index(region: &[u8], at: u64) -> (res: Result<Vec<(ByteStream, usize)>, SSTableError>)
        ensures
            match index_of(region@, at) {
                Ok(anchors) => res matches Ok(keys) && anchors_of(keys@) == anchors,
                Err(e) => res matches Err(x) && x == e,
            },
    {
        let len: usize = region.len();
        if at > len as u64 {
            return Err(SSTableError::OutOfBounds);
        }
        // read key offset values
        let mut offset: usize = at as usize;
        let count: u64 = match read_varu64(region, &mut offset) {
            Ok(v) => v,
            Err(e) => return Err(e),
        };
        let indices = match Self::get_offsets(region, &mut offset, count) {
            Ok(found) => found,
            Err(e) => return Err(e),
        };
        proof {
            lemma_numbers_len(region@, offset as int, count as int);
        }
        // scan database for keys
        let keys = match Self::get_anchors(region, &indices) {
            Ok(found) => found,
            Err(e) => return Err(e),
        };
        // the keys of the anchors must ascend
        if !Self::keys_ascend(&keys) {
            return Err(SSTableError::UnsortedIndex);
        }
        Ok(keys)
    }

    /// Reads the Bloom filter block at `at`.
    fn get_bloom_filter(region: &[u8], at: u64) -> (res: Result<BloomFilter, SSTableError>)
        ensures
            match bloom_of(region@, at) {
                Ok(bits) => res matches Ok(bloom) && bloom@ == bits && bloom.wf(),
                Err(e) => res matches Err(x) && x == e,
            },
    {
        let len: usize = region.len();
        if at > len as u64 {
            return Err(SSTableError::OutOfBounds);
        }
        // validate filter size
        let mut offset: usize = at as usize;
        let size: u64 = match read_varu64(region, &mut offset) {
            Ok(v) => v,
            Err(e) => return Err(e),
        };
        proof {
            lemma_varint_at(region@, at as int);
        }
        let wanted: usize = BloomFilter::default_size();
        if size != wanted as u64 {
            return Err(SSTableError::BloomSizeMismatch);
        }
        if wanted > len - offset {
            return Err(SSTableError::OutOfBounds);
        }
        // read a lot of bytes
        let bloom = vstd::slice::slice_subrange(region, offset, offset + wanted);
        Ok(BloomFilter::from_slice(bloom))
    }

    /// Opens the run that `region` holds: checks the magic number and loads
    /// the index and the Bloom filter. Nothing is loaded from bytes that are
    /// no run.
    pub fn new(region: Vec<u8>) -> (res: Result<Self, SSTableError>)
        ensures
            match parse_table(region@) {
                Ok(table) => {
                    &&& res matches Ok(reader)
                    &&& reader.wf()
                    &&& reader.bytes() == region@
                    &&& forall|key: Seq<u8>| #[trigger] reader.cached(key) is None
                },
                Err(e) => res matches Err(x) && x == e,
            },
    {
        let len: usize = region.len();

        // validate magic
        if len < 16 {
            return Err(SSTableError::InvalidMagic);
        }
        let magic = read_u64(region.as_slice(), len - 8);
        if magic != MAGIC {
            return Err(SSTableError::InvalidMagic);
        }

        // extract header block
        let header_at = read_u64(region.as_slice(), len - 16);
        let (index_at, bloom_at) = match Self::get_header(region.as_slice(), header_at) {
            Ok(found) => found,
            Err(e) => return Err(e),
        };

        // extract index block
        let index_at = match index_at {
            Some(at) => at,
            None => return Err(SSTableError::MissingIndex),
        };
        let keys = match Self::get_index(region.as_slice(), index_at) {
            Ok(keys) => keys,
            Err(e) => return Err(e),
        };

        // extract bloom block
        let bloom_at = match bloom_at {
            Some(at) => at,
            None => return Err(SSTableError::MissingBloomFilter),
        };
        let bloom = match Self::get_bloom_filter(region.as_slice(), bloom_at) {
            Ok(bloom) => bloom,
            Err(e) => return Err(e),
        };

        Ok(
            Self {
                region,
                bloom,
                keys,
                cache_read: lru_new(READ_CACHE_SIZE),
                cache_lookaside: lru_new(LOOKASIDE_CACHE_SIZE),
            },
        )
    }

    /// Get lower-bound key reference index: the last anchor whose key is not
    /// above `key`.
    fn get_iter_lower_bound(keys: &Vec<(ByteStream, usize)>, key: &[u8]) -> (found: Option<usize>)
        requires
            anchors_ascend(anchors_of(keys@)),
        ensures
            match floor_anchor(anchors_of(keys@), key@) {
                Some(i) => found matches Some(x) && x == i && 0 <= i < keys@.len(),
                None => found is None,
            },
    {
        let ghost anchors = anchors_of(keys@);
        let len: usize = keys.len();
        let mut left: usize = 0;
        let mut right: usize = len;
        proof {
            lemma_floor_upto(anchors, key@, len as int);
        }
        while left < right
            invariant
                left <= right <= len,
                len == keys@.len(),
                anchors == anchors_of(keys@),
                anchors_ascend(anchors),
                forall|i: int| 0 <= i < left ==> lex_le((#[trigger] anchors[i]).0, key@),
                forall|i: int| right <= i < len ==> !lex_le((#[trigger] anchors[i]).0, key@),
                match floor_anchor(anchors, key@) {
                    Some(i) => {
                        &&& 0 <= i < len
                        &&& lex_le(anchors[i].0, key@)
                        &&& forall|j: int| i < j < len ==> !lex_le((#[trigger] anchors[j]).0, key@)
                    },
                    None => forall|j: int| 0 <= j < len ==> !lex_le((#[trigger] anchors[j]).0, key@),
                },
            decreases right - left,
        {
            let mid: usize = left + (right - left) / 2;
            assert(anchors[mid as int].0 == keys@[mid as int].0@);
            match compare_bytes(keys[mid].0.as_ref(), key) {
                Order::Less => {
                    proof {
                        assert forall|i: int| 0 <= i < mid + 1 implies lex_le(
                            (#[trigger] anchors[i]).0,
                            key@,
                        ) by {
                            if i < mid {
                                lemma_lex_lt_transitive(anchors[i].0, anchors[mid as int].0, key@);
                            }
                        }
                    }
                    left = mid + 1;
                },
                Order::Greater => {
                    proof {
                        assert forall|i: int| mid <= i < len implies !lex_le(
                            (#[trigger] anchors[i]).0,
                            key@,
                        ) by {
                            lemma_lex_flip(anchors[mid as int].0, key@);
                            lemma_lex_flip(anchors[i].0, key@);
                            lemma_lex_equal(anchors[i].0, key@);
                            if i > mid {
                                if lex_le(anchors[i].0, key@) {
                                    if anchors[i].0 == key@ {
                                    } else {
                                        lemma_lex_lt_transitive(
                                            anchors[mid as int].0,
                                            anchors[i].0,
                                            key@,
                                        );
                                    }
                                }
                            }
                        }
                    }
                    right = mid;
                },
                Order::Equal => {
                    proof {
                        lemma_lex_equal(anchors[mid as int].0, key@);
                        assert forall|i: int| mid < i < len implies !lex_le(
                            (#[trigger] anchors[i]).0,
                            key@,
                        ) by {
                            lemma_lex_flip(anchors[i].0, key@);
                        }
                    }
                    return Some(mid);
                },
            }
        }
        proof {
            if left > 0 {
                assert(lex_le(anchors[left - 1].0, key@));
            }
            match floor_anchor(anchors, key@) {
                Some(i) => {
                    assert(lex_le(anchors[i].0, key@));
                    assert(i < right);
                },
                None => {},
            }
        }
        if left == 0 {
            None
        } else {
            Some(left - 1)
        }
    }

    /// An iterator that stands at the record of `key`, with the index of the
    /// anchor from which it was found and the number of records that were
    /// passed on the way; `None` where the run has no such key.
    fn get_iter_internal<'a>(
        region: &'a [u8],
        bloom: &BloomFilter,
        keys: &Vec<(ByteStream, usize)>,
        key: &[u8],
    ) -> (found: Option<(usize, SSTableReaderIterator<'a>, Ghost<int>)>)
        requires
            bloom.wf(),
            parse_table(region@) == Ok::<TableView, SSTableError>(
                TableView { anchors: anchors_of(keys@), bloom: bloom@ },
            ),
        ensures
            match found {
                Some((index, iter, skipped)) => {
                    &&& iter.bytes() == region@
                    &&& index < keys@.len()
                    &&& iter.rest().len() > 0
                    &&& iter.rest()[0].0 == key@
                    &&& table_lookup(region@, key@) == Some(iter.rest()[0].1)
                    &&& 0 <= skipped@ <= records_from(
                        region@,
                        keys@[index as int].1 as int,
                        Seq::empty(),
                    ).len()
                    &&& records_from(region@, keys@[index as int].1 as int, Seq::empty()).skip(
                        skipped@,
                    ) == iter.rest()
                },
                None => table_lookup(region@, key@) is None,
            },
    {
        // check if key might be non-existent in bloom filter
        if !bloom.query(key) {
            return None;
        }
        proof {
            lemma_neighbours_ascend(anchors_of(keys@));
        }
        // resolve index of lower-bound key and go through it
        let index = match Self::get_iter_lower_bound(keys, key) {
            None => return None,
            Some(idx) => idx,
        };
        assert(floor_anchor(anchors_of(keys@), key@) == Some(index as int));
        assert(anchors_of(keys@)[index as int].1 == keys@[index as int].1);
        let mut iter = SSTableReaderIterator::new(region, keys[index].1);
        let ghost run = iter.rest();
        assert(run == records_from(region@, keys@[index as int].1 as int, Seq::empty()));
        if iter.advance_to(key) {
            let ghost skipped = lemma_skip_below(run, key@);
            assert(seek(run, key@) == Some(iter.rest()[0].1));
            Some((index, iter, Ghost(skipped)))
        } else {
            assert(seek(run, key@) is None);
            None
        }
    }

    /// Access item from table, returning a partial-scan iterator from that
    /// location.
    pub fn get_iter(&self, key: &[u8]) -> (found: Option<SSTableReaderIterator<'_>>)
        requires
            self.wf(),
        ensures
            match found {
                Some(iter) => {
                    &&& iter.bytes() == self.bytes()
                    &&& iter.rest().len() > 0
                    &&& iter.rest()[0].0 == key@
                    &&& self.lookup(key@) == Some(iter.rest()[0].1)
                },
                None => self.lookup(key@) is None,
            },
    {
        match Self::get_iter_internal(self.region.as_slice(), &self.bloom, &self.keys, key) {
            None => None,
            Some((_index, iter, _)) => Some(iter),
        }
    }

    /// Create full-scan iterator.
    pub fn iter(&self) -> (iter: SSTableReaderIterator<'_>)
        requires
            self.wf(),
        ensures
            iter.bytes() == self.bytes(),
            iter.rest() == self.scan(),
    {
        proof {
            if self.keys@.len() > 0 {
                assert(anchors_of(self.keys@)[0].1 == self.keys@[0].1);
            }
        }
        // the sstable file should contain some keys
        // otherwise we should run into a (0, 0, 0, 0) termination file
        let offset: usize = if self.keys.len() == 0 {
            0
        } else {
            self.keys[0].1
        };
        SSTableReaderIterator::new(self.region.as_slice(), offset)
    }

    /// The pairs that a full scan yields: those from the first anchor on.
    pub open spec fn scan(&self) -> Seq<Pair> {
        table_scan(self.bytes())
    }

    /// Whether the keys of the run ascend from record to record, as they do
    /// in every run that the writer made.
    pub fn scan_ascends(&self) -> (ascends: bool)
        requires
            self.wf(),
        ensures
            ascends == ascending(self.scan()),
    {
        let mut iter = self.iter();
        let ghost run = self.scan();
        let ghost mut n: int = 0;
        let mut prev: Vec<u8> = Vec::new();
        let mut first: bool = true;
        assert(run.skip(0) =~= run);
        loop
            invariant
                run == self.scan(),
                0 <= n <= run.len(),
                iter.rest() == run.skip(n),
                first <==> n == 0,
                !first ==> prev@ == run[n - 1].0,
                forall|i: int, j: int|
                    0 <= i < j < n ==> lex_lt((#[trigger] run[i]).0, (#[trigger] run[j]).0),
            ensures
                ascending(run),
            decreases run.len() - n,
        {
            let item = match iter.next() {
                None => {
                    break;
                },
                Some(item) => item,
            };
            proof {
                assert(run.skip(n)[0] == run[n]);
                assert(run.skip(n).skip(1) =~= run.skip(n + 1));
            }
            if !first {
                match compare_bytes(prev.as_slice(), item.key()) {
                    Order::Less => {},
                    _ => {
                        assert(!lex_lt(run[n - 1].0, run[n].0));
                        return false;
                    },
                }
            }
            proof {
                assert forall|i: int, j: int| 0 <= i < j < n + 1 implies lex_lt(
                    (#[trigger] run[i]).0,
                    (#[trigger] run[j]).0,
                ) by {
                    if j == n && i < n - 1 {
                        lemma_lex_lt_transitive(run[i].0, run[n - 1].0, run[n].0);
                    }
                }
                n = n + 1;
            }
            prev = slice_to_vec(item.key());
            first = false;
        }
        true
    }

    /// Asks a cache for `key`.
    fn probe(cache: &mut LruCache<Vec<u8>, KvData>, key: &[u8], Ghost(bytes): Ghost<Seq<u8>>) -> (found:
        Option<KvData>)
        requires
            cache_agrees(lru_entries(*old(cache)), bytes),
        ensures
            cache_agrees(lru_entries(*final(cache)), bytes),
            lru_cap(*final(cache)) == lru_cap(*old(cache)),
            match cache_answer(lru_entries(*old(cache)), key@) {
                Some(r) => found matches Some(data) && data@ == r,
                None => found is None && lru_entries(*final(cache)) == lru_entries(*old(cache)),
            },
    {
        proof {
            let entries = lru_entries(*cache);
            if has_key(entries, key@) {
                lemma_touched(entries, key_index(entries, key@));
            }
        }
        let found = lru_get(cache, key);
        proof {
            if found is Some {
                lemma_kept(lru_entries(*old(cache)), lru_entries(*cache), bytes);
            }
        }
        found
    }

    /// Puts a pair of the run into a cache.
    fn remember(
        cache: &mut LruCache<Vec<u8>, KvData>,
        key: &[u8],
        data: KvData,
        Ghost(bytes): Ghost<Seq<u8>>,
    )
        requires
            cache_agrees(lru_entries(*old(cache)), bytes),
            table_holds(bytes, (key@, data@)),
        ensures
            cache_agrees(lru_entries(*final(cache)), bytes),
            lru_cap(*final(cache)) == lru_cap(*old(cache)),
            lru_entries(*final(cache)) == after_put(
                lru_entries(*old(cache)),
                lru_cap(*old(cache)),
                (key@, data@),
            ),
    {
        proof {
            lemma_put_agrees(lru_entries(*cache), lru_cap(*cache), (key@, data@), bytes);
        }
        lru_put(cache, slice_to_vec(key), data);
    }

    /// Puts the pairs that follow a pair that was looked up into the
    /// look-aside cache: up to the first record at or behind `term_offset`,
    /// and `LOOKASIDE_LIMIT` at most.
    fn look_ahead<'a>(
        cache: &mut LruCache<Vec<u8>, KvData>,
        iter: SSTableReaderIterator<'a>,
        term_offset: usize,
        Ghost(anchor): Ghost<int>,
        Ghost(start): Ghost<int>,
    )
        requires
            cache_agrees(lru_entries(*old(cache)), iter.bytes()),
            parse_table(iter.bytes()) is Ok,
            0 <= anchor < parse_table(iter.bytes())->Ok_0.anchors.len(),
            0 <= start <= records_from(
                iter.bytes(),
                parse_table(iter.bytes())->Ok_0.anchors[anchor].1,
                Seq::empty(),
            ).len(),
            records_from(
                iter.bytes(),
                parse_table(iter.bytes())->Ok_0.anchors[anchor].1,
                Seq::empty(),
            ).skip(start) == iter.rest(),
        ensures
            cache_agrees(lru_entries(*final(cache)), iter.bytes()),
            lru_cap(*final(cache)) == lru_cap(*old(cache)),
            lru_entries(*final(cache)) == looked_ahead(
                lru_entries(*old(cache)),
                lru_cap(*old(cache)),
                iter.bytes(),
                iter.position(),
                iter.previous_key(),
                term_offset as int,
                LOOKASIDE_LIMIT as nat,
            ),
    {
        let ghost cap = lru_cap(*cache);
        let ghost wanted = looked_ahead(
            lru_entries(*cache),
            cap,
            iter.bytes(),
            iter.position(),
            iter.previous_key(),
            term_offset as int,
            LOOKASIDE_LIMIT as nat,
        );
        let mut iter = iter;
        let ghost bytes = iter.bytes();
        let ghost run = records_from(
            bytes,
            parse_table(bytes)->Ok_0.anchors[anchor].1,
            Seq::empty(),
        );
        let ghost mut at = start;
        let mut max_items: usize = LOOKASIDE_LIMIT;
        loop
            invariant_except_break
                0 < max_items <= LOOKASIDE_LIMIT,
                wanted == looked_ahead(
                    lru_entries(*cache),
                    cap,
                    bytes,
                    iter.position(),
                    iter.previous_key(),
                    term_offset as int,
                    max_items as nat,
                ),
            invariant
                iter.bytes() == bytes,
                parse_table(bytes) is Ok,
                0 <= anchor < parse_table(bytes)->Ok_0.anchors.len(),
                run == records_from(bytes, parse_table(bytes)->Ok_0.anchors[anchor].1, Seq::empty()),
                0 <= at <= run.len(),
                run.skip(at) == iter.rest(),
                cache_agrees(lru_entries(*cache), bytes),
                lru_cap(*cache) == cap,
            ensures
                lru_entries(*cache) == wanted,
            decreases max_items,
        {
            proof {
                reveal_with_fuel(looked_ahead, 2);
            }
            let next = match iter.next() {
                None => break,
                Some(it) => it,
            };
            let data = KvData::from_ref(&next.value());
            proof {
                assert(run.skip(at)[0] == run[at]);
                assert(run.skip(at).skip(1) =~= run.skip(at + 1));
                assert(table_holds(bytes, pair_of(next)));
                at = at + 1;
            }
            Self::remember(cache, next.key(), data, Ghost(bytes));
            if next.offset() >= term_offset {
                break;
            }
            // ensure we don't look-ahead too much
            max_items -= 1;
            if max_items == 0 {
                break;
            }
        }
    }

    /// Access item from table: from the caches where they know the key, else
    /// from the run. A pair that was found in the run goes into the cache of
    /// looked-up pairs, and the pairs that follow it, up to the next anchor
    /// and `LOOKASIDE_LIMIT` at most, go into the look-aside cache.
    pub fn get(&mut self, key: &[u8]) -> (found: Option<KvData>)
        requires
            old(self).wf(),
        ensures
            final(self).wf(),
            final(self).bytes() == old(self).bytes(),
            match old(self).answer(key@) {
                Some(r) => found matches Some(data) && data@ == r,
                None => found is None,
            },
    {
        // check for lru cache(s)
        let ghost bytes = self.region@;
        match Self::probe(&mut self.cache_read, key, Ghost(bytes)) {
            Some(entry) => return Some(entry),
            None => {},
        }
        match Self::probe(&mut self.cache_lookaside, key, Ghost(bytes)) {
            Some(entry) => return Some(entry),
            None => {},
        }

        // locate item and clone
        let (index, mut iter, Ghost(skipped)) = match Self::get_iter_internal(
            self.region.as_slice(),
            &self.bloom,
            &self.keys,
            key,
        ) {
            None => return None,
            Some(it) => it,
        };
        let ghost run = records_from(bytes, self.keys@[index as int].1 as int, Seq::empty());
        let item = match iter.next() {
            None => return None,
            Some(it) => it,
        };
        let result = KvData::from_ref(&item.value());
        proof {
            assert(run.skip(skipped)[0] == run[skipped]);
            assert(run.skip(skipped).skip(1) =~= run.skip(skipped + 1));
            assert(anchors_of(self.keys@)[index as int].1 == self.keys@[index as int].1);
            assert(table_holds(bytes, pair_of(item)));
        }

        // update lru cache, flushing entire region into lru
        let anchors: usize = self.keys.len();
        let term_offset: usize = if index + 1 < anchors {
            self.keys[index + 1].1
        } else {
            self.keys[index].1
        };
        Self::remember(&mut self.cache_read, key, result.clone(), Ghost(bytes));
        Self::look_ahead(
            &mut self.cache_lookaside,
            iter,
            term_offset,
            Ghost(index as int),
            Ghost(skipped + 1),
        );
        Some(result)
    }
}

/// A cache whose pairs were all there before agrees with the run as before.
proof fn lemma_kept(before: Seq<Pair>, after: Seq<Pair>, bytes: Seq<u8>)
    requires
        cache_agrees(before, bytes),
        forall|i: int|
            0 <= i < after.len() ==> exists|j: int|
                0 <= j < before.len() && before[j] == #[trigger] after[i],
    ensures
        cache_agrees(after, bytes),
{
    assert forall|i: int| 0 <= i < after.len() implies table_holds(bytes, #[trigger] after[i]) by {
        let j = choose|j: int| 0 <= j < before.len() && before[j] == after[i];
        assert(table_holds(bytes, before[j]));
    }
}

/// A cache that agreed with the run still does once a pair of the run has
/// been put into it.
proof fn lemma_put_agrees(before: Seq<Pair>, cap: nat, pair: Pair, bytes: Seq<u8>)
    requires
        cache_agrees(before, bytes),
        table_holds(bytes, pair),
    ensures
        cache_agrees(after_put(before, cap, pair), bytes),
{
    lemma_after_put(before, cap, pair);
    let after = after_put(before, cap, pair);
    assert forall|i: int| 0 <= i < after.len() implies table_holds(bytes, #[trigger] after[i]) by {
        if after[i] != pair {
            let j = choose|j: int| 0 <= j < before.len() && before[j] == after[i];
            assert(table_holds(bytes, before[j]));
        }
    }
}

/// What is left of a run behind the pairs below `key` is a rest of the run.
proof fn lemma_skip_below(run: Seq<Pair>, key: Seq<u8>) -> (skipped: int)
    ensures
        0 <= skipped <= run.len(),
        run.skip(skipped) == skip_below(run, key),
    decreases run.len(),
{
    if run.len() > 0 && lex_lt(run[0].0, key) {
        let inner = lemma_skip_below(run.skip(1), key);
        assert(run.skip(1).skip(inner) =~= run.skip(inner + 1));
        inner + 1
    } else {
        assert(run.skip(0) =~= run);
        0
    }
}

/// A list of numbers has as many numbers as were asked for.
proof fn lemma_numbers_len(bytes: Seq<u8>, at: int, count: int)
    requires
        0 <= count,
    ensures
        match numbers_at(bytes, at, count) {
            Some((numbers, _)) => numbers.len() == count,
            None => true,
        },
    decreases count,
{
    if count > 0 {
        lemma_numbers_len(bytes, at, count - 1);
    }
}

/// An error in the first entries of the header block is the error of the
/// block.
proof fn lemma_header_error(bytes: Seq<u8>, at: int, upto: int, count: int)
    requires
        0 <= upto <= count,
        header_entries(bytes, at, upto) is Err,
    ensures
        header_entries(bytes, at, count) == header_entries(bytes, at, upto),
    decreases count - upto,
{
    if upto < count {
        lemma_header_error(bytes, at, upto, count - 1);
    }
}

/// A list of numbers that runs past the end runs past the end however many
/// numbers more are asked for.
proof fn lemma_numbers_error(bytes: Seq<u8>, at: int, upto: int, count: int)
    requires
        0 <= upto <= count,
        numbers_at(bytes, at, upto) is None,
    ensures
        numbers_at(bytes, at, count) is None,
    decreases count - upto,
{
    if upto < count {
        lemma_numbers_error(bytes, at, upto, count - 1);
    }
}

/// An error at one of the first anchors is the error of the index.
proof fn lemma_anchors_error(bytes: Seq<u8>, offsets: Seq<u64>, upto: int, count: int)
    requires
        0 <= upto <= count,
        anchors_at(bytes, offsets, upto) is Err,
    ensures
        anchors_at(bytes, offsets, count) == anchors_at(bytes, offsets, upto),
    decreases count - upto,
{
    if upto < count {
        lemma_anchors_error(bytes, offsets, upto, count - 1);
    }
}

} // verus!
