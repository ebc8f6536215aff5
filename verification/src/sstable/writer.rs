//! Writes one sorted run.

use crate::bloom::BloomFilter;
use crate::record::bytestream::shared_prefix_len;
use crate::record::iterator::{live, live_upto, pair_of, pairs_of, ascending, KvPointer, Pair};
use crate::record::kventry::{KvDataRef, RecordView};
use crate::sstable::format::{
    anchors_upto, bloom_block, bloom_offset, bloom_upto, data_section, data_upto, encode_header,
    encode_offsets, encode_record, flags_of, footer, header_block, header_offset, index_block,
    is_anchor, le64, shared, table_bytes, terminator, value_bytes, BLOCK_SIZE, FLAG_TOMBSTONE,
    FLAG_VALUE, MAGIC, TAG_BLOOM, TAG_INDEX,
};
use crate::utils::varint::{encode, encoded_len, VarUint64};
use vstd::prelude::*;

verus! {

/// The bytes that the writer stages before it hands them over, unless it is
/// made with another interval.
pub const FLUSH_INTERVAL: usize = 4194304;

/// Where a writer stands: how many bytes it has written, how many of them it
/// has handed over, and where the writes that handed them over ended.
pub struct Staging {
    pub len: int,
    pub flushed: int,
    pub cuts: Seq<int>,
}

/// Number of bytes that are staged: written, and not handed over yet.
pub open spec fn staged(s: Staging) -> int {
    s.len - s.flushed
}

/// The state once the staged bytes, if there are any, have been handed over
/// in one write.
pub open spec fn flushed_all(s: Staging) -> Staging {
    if s.flushed < s.len {
        Staging { flushed: s.len, cuts: s.cuts.push(s.len), ..s }
    } else {
        s
    }
}

/// The state once `n` bytes have been staged.
pub open spec fn after_bytes(s: Staging, n: int) -> Staging {
    Staging { len: s.len + n, ..s }
}

/// The state once `n` bytes have been handed over in a write of their own.
pub open spec fn after_direct(s: Staging, n: int) -> Staging {
    Staging { len: s.len + n, flushed: s.len + n, cuts: s.cuts.push(s.len + n) }
}

/// The state once a slice of `n` bytes has been written. A slice that would
/// fill the staging buffer, which holds two intervals, goes out in a write
/// of its own, behind what was staged; a slice that fills the staged bytes
/// up to an interval or more is staged and goes out with them; any other
/// slice is staged.
pub open spec fn after_slice(s: Staging, n: int, interval: int) -> Staging {
    if staged(s) + n >= 2 * interval - 1 {
        after_direct(flushed_all(s), n)
    } else if staged(s) + n >= interval {
        flushed_all(after_bytes(s, n))
    } else {
        after_bytes(s, n)
    }
}

/// The state once the staged bytes have been handed over if they are more
/// than an interval.
pub open spec fn after_lazy(s: Staging, interval: int) -> Staging {
    if staged(s) > interval {
        flushed_all(s)
    } else {
        s
    }
}

/// The state once a record has been written: its header is staged, then
/// the rest of its key is written as a slice, and then its value.
pub open spec fn after_record(s: Staging, key: Seq<u8>, common: int, r: RecordView, interval: int) -> Staging {
    let head = after_bytes(
        s,
        encode_header(key.len() as int, common, value_bytes(r).len() as int, flags_of(r)).len() as int,
    );
    let with_key = after_slice(head, key.len() - common, interval);
    match r {
        RecordView::Tombstone { .. } => with_key,
        RecordView::Value { value, .. } => after_slice(with_key, value.len() as int, interval),
    }
}

/// The state once the first `upto` records of a run have been written by a
/// writer that had written nothing.
pub open spec fn staging_upto(run: Seq<Pair>, upto: int, interval: int) -> Staging
    decreases upto,
{
    if upto <= 0 {
        Staging { len: 0, flushed: 0, cuts: Seq::empty() }
    } else {
        after_record(
            staging_upto(run, upto - 1, interval),
            run[upto - 1].0,
            shared(run, upto - 1),
            run[upto - 1].1,
            interval,
        )
    }
}

/// The state once the first `upto` offsets of the index have been written:
/// each is staged, and the staged bytes go out once they are more than an
/// interval.
pub open spec fn after_offsets(s: Staging, offsets: Seq<int>, upto: int, interval: int) -> Staging
    decreases upto,
{
    if upto <= 0 {
        s
    } else {
        after_lazy(
            after_bytes(
                after_offsets(s, offsets, upto - 1, interval),
                encode(offsets[upto - 1] as u64).len() as int,
            ),
            interval,
        )
    }
}

/// The state once a whole run has been written: the records, the header
/// that ends them, and the blocks behind them. The staged bytes go out
/// behind the index block, before the bit array of the filter, which goes
/// out in a write of its own, and at the end.
pub open spec fn staging_of(run: Seq<Pair>, interval: int) -> Staging {
    let n = run.len() as int;
    let offsets = anchors_upto(run, n);
    let bloom = bloom_upto(run, n);
    let records = after_bytes(staging_upto(run, n, interval), terminator().len() as int);
    let index = flushed_all(
        after_offsets(
            after_bytes(records, encode(offsets.len() as u64).len() as int),
            offsets,
            offsets.len() as int,
            interval,
        ),
    );
    let filter = after_direct(
        flushed_all(after_bytes(index, encode(bloom.len() as u64).len() as int)),
        bloom.len() as int,
    );
    let header = after_bytes(
        filter,
        header_block(data_section(run).len() as int, bloom_offset(run)).len() as int,
    );
    flushed_all(after_bytes(header, footer(header_offset(run)).len() as int))
}

/// Builds the bytes of one run from pairs that come in ascending key order,
/// and notes the writes in which a file takes them: the writer stages what
/// it writes and hands the staged bytes over in large writes.
pub struct SSTableWriter {
    /// The bytes written: those that were handed over, and behind them those
    /// that are staged.
    out: Vec<u8>,
    /// Where the writes that handed bytes over ended.
    cuts: Vec<usize>,
    /// Number of bytes that were handed over.
    handle_pointer: usize,
    /// Staged bytes are handed over once they are this many.
    flush_interval: usize,
}

impl View for SSTableWriter {
    type V = Seq<u8>;

    /// The bytes written so far.
    closed spec fn view(&self) -> Seq<u8> {
        self.out@
    }
}

/// The offsets as integers.
pub open spec fn offsets_of(indices: Seq<usize>) -> Seq<int> {
    Seq::new(indices.len(), |i: int| indices[i] as int)
}

/// The first `upto` live pairs are a prefix of all live pairs.
proof fn lemma_live_prefix(all: Seq<Pair>, i: int, j: int)
    requires
        0 <= i <= j <= all.len(),
    ensures
        live_upto(all, i).len() <= live_upto(all, j).len(),
        live_upto(all, j).take(live_upto(all, i).len() as int) == live_upto(all, i),
    decreases j - i,
{
    if i < j {
        lemma_live_prefix(all, i, j - 1);
        let a = live_upto(all, i);
        let b = live_upto(all, j - 1);
        let c = live_upto(all, j);
        assert(c.take(a.len() as int) =~= b.take(a.len() as int));
    } else {
        assert(live_upto(all, j).take(live_upto(all, i).len() as int) =~= live_upto(all, i));
    }
}

/// What writing pair `i`, the next live one, adds to the run.
proof fn lemma_step(all: Seq<Pair>, i: int)
    requires
        0 <= i < all.len(),
        !all[i].1.is_cached(),
    ensures
        ({
            let run = live(all);
            let w = live_upto(all, i).len() as int;
            &&& w < run.len()
            &&& live_upto(all, i + 1).len() == w + 1
            &&& run[w] == all[i]
            &&& data_upto(run, w + 1) == data_upto(run, w) + encode_record(
                run[w].0,
                shared(run, w),
                run[w].1,
            )
            &&& anchors_upto(run, w + 1) == (if is_anchor(w, run.len() as int) {
                anchors_upto(run, w).push(data_upto(run, w).len() as int)
            } else {
                anchors_upto(run, w)
            })
            &&& bloom_upto(run, w + 1) == BloomFilter::inserted(bloom_upto(run, w), run[w].0)
            &&& forall|interval: int|
                #[trigger] staging_upto(run, w + 1, interval) == after_record(
                    staging_upto(run, w, interval),
                    run[w].0,
                    shared(run, w),
                    run[w].1,
                    interval,
                )
        }),
{
    let run = live(all);
    let w = live_upto(all, i).len() as int;
    lemma_live_prefix(all, i + 1, all.len() as int);
    assert(live_upto(all, i + 1) == live_upto(all, i).push(all[i]));
    assert(run.take(w + 1)[w] == run[w]);
}

/// A look-aside copy adds nothing to the run.
proof fn lemma_skip(all: Seq<Pair>, i: int)
    requires
        0 <= i < all.len(),
        all[i].1.is_cached(),
    ensures
        live_upto(all, i + 1) == live_upto(all, i),
{
}

/// Record `w` follows a full block exactly when `BLOCK_SIZE` compressed
/// records stand before it.
proof fn lemma_block_full(w: int, q: int, prev_block: int)
    requires
        w > 0,
        w - 1 == (BLOCK_SIZE + 1) * q + prev_block,
        0 <= q,
        0 <= prev_block <= BLOCK_SIZE,
    ensures
        w % (BLOCK_SIZE as int + 1) == 0 <==> prev_block >= BLOCK_SIZE,
        prev_block >= BLOCK_SIZE ==> w == (BLOCK_SIZE + 1) * (q + 1),
{
    if prev_block >= BLOCK_SIZE {
        assert(w == 51 * (q + 1));
        assert((51 * (q + 1)) % 51 == 0) by (nonlinear_arith)
            requires
                q >= 0,
        ;
    } else {
        assert(w == 51 * q + (prev_block + 1));
        assert((51 * q + (prev_block + 1)) % 51 == prev_block + 1) by (nonlinear_arith)
            requires
                q >= 0,
                0 <= prev_block < 50,
        ;
    }
}

impl SSTableWriter {
    /// Where the writer stands.
    pub closed spec fn staging(&self) -> Staging {
        Staging {
            len: self.out@.len() as int,
            flushed: self.handle_pointer as int,
            cuts: offsets_of(self.cuts@),
        }
    }

    /// The interval of the writer.
    pub closed spec fn interval(&self) -> int {
        self.flush_interval as int
    }

    /// The invariant of the writer: the bytes that were handed over are bytes
    /// that were written, and the writes that handed them over follow one
    /// another up to the last of these bytes.
    pub closed spec fn wf(&self) -> bool {
        &&& 1 <= self.flush_interval <= usize::MAX / 2
        &&& self.handle_pointer <= self.out@.len()
        &&& forall|i: int, j: int|
            0 <= i <= j < self.cuts@.len() ==> (#[trigger] self.cuts@[i]) <= (#[trigger] self.cuts@[j])
        &&& forall|i: int| 0 <= i < self.cuts@.len() ==> (#[trigger] self.cuts@[i]) <= self.handle_pointer
        &&& if self.cuts@.len() == 0 {
            self.handle_pointer == 0
        } else {
            self.cuts@[self.cuts@.len() - 1] == self.handle_pointer
        }
    }

    /// A writer that has written nothing.
    pub fn new() -> (writer: Self)
        ensures
            writer.wf(),
            writer@ == Seq::<u8>::empty(),
            writer.interval() == FLUSH_INTERVAL,
            writer.staging() == (Staging { len: 0, flushed: 0, cuts: Seq::empty() }),
    {
        Self::with_interval(FLUSH_INTERVAL)
    }

    /// A writer that has written nothing and hands staged bytes over once
    /// they are `interval` many.
    pub fn with_interval(interval: usize) -> (writer: Self)
        requires
            1 <= interval <= usize::MAX / 2,
        ensures
            writer.wf(),
            writer@ == Seq::<u8>::empty(),
            writer.interval() == interval,
            writer.staging() == (Staging { len: 0, flushed: 0, cuts: Seq::empty() }),
    {
        let writer = Self {
            out: Vec::new(),
            cuts: Vec::new(),
            handle_pointer: 0,
            flush_interval: interval,
        };
        assert(offsets_of(writer.cuts@) =~= Seq::<int>::empty());
        writer
    }

    /// Informs current position.
    pub fn tell(&self) -> (at: usize)
        ensures
            at == self@.len(),
    {
        self.out.len()
    }

    /// The bytes written so far.
    pub fn as_bytes(&self) -> (bytes: &[u8])
        ensures
            bytes@ == self@,
    {
        self.out.as_slice()
    }

    /// Hands the bytes over.
    pub fn into_bytes(self) -> (bytes: Vec<u8>)
        ensures
            bytes@ == self@,
    {
        self.out
    }

    /// The writes in which a file takes the bytes that were handed over, in
    /// their order: each holds the bytes between the end of the write before
    /// it and its own end.
    pub fn chunks(&self) -> (writes: Vec<&[u8]>)
        requires
            self.wf(),
        ensures
            writes@.len() == self.staging().cuts.len(),
            forall|i: int|
                0 <= i < writes@.len() ==> (#[trigger] writes@[i])@ == self@.subrange(
                    if i == 0 {
                        0
                    } else {
                        self.staging().cuts[i - 1]
                    },
                    self.staging().cuts[i],
                ),
    {
        let mut writes: Vec<&[u8]> = Vec::new();
        let mut from: usize = 0;
        let mut i: usize = 0;
        while i < self.cuts.len()
            invariant
                self.wf(),
                i <= self.cuts@.len(),
                writes@.len() == i,
                from == (if i == 0 {
                    0
                } else {
                    self.cuts@[i - 1] as int
                }),
                forall|j: int|
                    0 <= j < i ==> (#[trigger] writes@[j])@ == self.out@.subrange(
                        if j == 0 {
                            0
                        } else {
                            self.cuts@[j - 1] as int
                        },
                        self.cuts@[j] as int,
                    ),
            decreases self.cuts@.len() - i,
        {
            let to: usize = self.cuts[i];
            proof {
                if i > 0 {
                    assert(self.cuts@[i - 1] <= self.cuts@[i as int]);
                }
            }
            writes.push(vstd::slice::slice_subrange(self.out.as_slice(), from, to));
            from = to;
            i += 1;
        }
        writes
    }

    /// Forcefully flush buffer: the staged bytes are handed over.
    fn flush_buffer(&mut self)
        requires
            old(self).wf(),
        ensures
            final(self).wf(),
            final(self)@ == old(self)@,
            final(self).interval() == old(self).interval(),
            final(self).staging() == flushed_all(old(self).staging()),
    {
        if self.out.len() > self.handle_pointer {
            self.handle_pointer = self.out.len();
            self.cuts.push(self.handle_pointer);
            proof {
                assert(offsets_of(self.cuts@) =~= offsets_of(old(self).cuts@).push(
                    self.out@.len() as int,
                ));
                assert forall|i: int, j: int| 0 <= i <= j < self.cuts@.len() implies (
                #[trigger] self.cuts@[i]) <= (#[trigger] self.cuts@[j]) by {
                    if j < old(self).cuts@.len() {
                        assert(old(self).cuts@[i] <= old(self).cuts@[j]);
                    } else if i < old(self).cuts@.len() {
                        assert(old(self).cuts@[i] <= old(self).handle_pointer);
                    }
                }
            }
        }
    }

    /// Flush buffer only if it'd exceeded size limit.
    fn flush_buffer_lazy(&mut self)
        requires
            old(self).wf(),
        ensures
            final(self).wf(),
            final(self)@ == old(self)@,
            final(self).interval() == old(self).interval(),
            final(self).staging() == after_lazy(old(self).staging(), old(self).interval()),
    {
        if self.out.len() - self.handle_pointer > self.flush_interval {
            self.flush_buffer();
        }
    }

    /// Stages a slice.
    fn stage(&mut self, slice: &[u8])
        requires
            old(self).wf(),
        ensures
            final(self).wf(),
            final(self)@ == old(self)@ + slice@,
            final(self).interval() == old(self).interval(),
            final(self).staging() == after_bytes(old(self).staging(), slice@.len() as int),
    {
        let len: usize = slice.len();
        let mut i: usize = 0;
        while i < len
            invariant
                i <= len,
                len == slice@.len(),
                self.out@ == old(self).out@ + slice@.take(i as int),
                self.cuts == old(self).cuts,
                self.handle_pointer == old(self).handle_pointer,
                self.flush_interval == old(self).flush_interval,
            decreases len - i,
        {
            self.out.push(slice[i]);
            assert(slice@.take(i + 1) =~= slice@.take(i as int).push(slice@[i as int]));
            i += 1;
        }
        assert(slice@.take(len as int) =~= slice@);
    }

    /// Hands a slice over in a write of its own. Nothing is staged.
    fn write_direct(&mut self, slice: &[u8])
        requires
            old(self).wf(),
            staged(old(self).staging()) == 0,
        ensures
            final(self).wf(),
            final(self)@ == old(self)@ + slice@,
            final(self).interval() == old(self).interval(),
            final(self).staging() == after_direct(old(self).staging(), slice@.len() as int),
    {
        self.stage(slice);
        self.handle_pointer = self.out.len();
        self.cuts.push(self.handle_pointer);
        proof {
            assert(offsets_of(self.cuts@) =~= offsets_of(old(self).cuts@).push(
                self.out@.len() as int,
            ));
            assert forall|i: int, j: int| 0 <= i <= j < self.cuts@.len() implies (
            #[trigger] self.cuts@[i]) <= (#[trigger] self.cuts@[j]) by {
                if j < old(self).cuts@.len() {
                    assert(old(self).cuts@[i] <= old(self).cuts@[j]);
                } else if i < old(self).cuts@.len() {
                    assert(old(self).cuts@[i] <= old(self).handle_pointer);
                }
            }
        }
    }

    /// Writes a large string slice. Will try and fit it into buffer. If
    /// buffer is insufficiently large to hold it, forced flush will be
    /// executed.
    fn write_slice(&mut self, slice: &[u8])
        requires
            old(self).wf(),
        ensures
            final(self).wf(),
            final(self)@ == old(self)@ + slice@,
            final(self).interval() == old(self).interval(),
            final(self).staging() == after_slice(
                old(self).staging(),
                slice@.len() as int,
                old(self).interval(),
            ),
    {
        let len: usize = slice.len();
        let buffer_pointer: usize = self.out.len() - self.handle_pointer;
        let limit: usize = self.flush_interval * 2 - 1;
        if buffer_pointer >= limit || len >= limit - buffer_pointer {
            self.flush_buffer();
            self.write_direct(slice);
        } else if len >= self.flush_interval || buffer_pointer >= self.flush_interval - len {
            self.stage(slice);
            self.flush_buffer();
        } else {
            self.stage(slice);
        }
    }

    /// Writes VarUint64 value. It is staged: the bytes that are staged go
    /// out with a slice or at the end of a block.
    fn write_varu64(&mut self, value: u64)
        requires
            old(self).wf(),
        ensures
            final(self).wf(),
            final(self)@ == old(self)@ + encode(value),
            final(self).interval() == old(self).interval(),
            final(self).staging() == after_bytes(old(self).staging(), encode(value).len() as int),
    {
        let mut buffer: [u8; 9] = [0u8;9];
        let n: usize = VarUint64::as_slice(value, &mut buffer);
        let written = vstd::slice::slice_subrange(buffer.as_slice(), 0, n);
        assert(written@ =~= encode(value));
        self.stage(written);
    }

    /// Writes uint64 value in exactly 8 bytes.
    fn write_u64(&mut self, value: u64)
        requires
            old(self).wf(),
        ensures
            final(self).wf(),
            final(self)@ == old(self)@ + le64(value),
            final(self).interval() == old(self).interval(),
            final(self).staging() == after_bytes(old(self).staging(), 8),
    {
        let bytes: [u8; 8] = [
            (value & 0xff) as u8,
            ((value >> 8) & 0xff) as u8,
            ((value >> 16) & 0xff) as u8,
            ((value >> 24) & 0xff) as u8,
            ((value >> 32) & 0xff) as u8,
            ((value >> 40) & 0xff) as u8,
            ((value >> 48) & 0xff) as u8,
            (value >> 56) as u8,
        ];
        assert(bytes@ =~= le64(value));
        self.stage(bytes.as_slice());
    }

    /// Writes one record: its header, the key behind the first
    /// `k_common_len` bytes, and the value.
    #[verifier::rlimit(50)]
    fn write_kv_pair(&mut self, k: &[u8], k_common_len: usize, v: &KvDataRef<'_>)
        requires
            old(self).wf(),
            k_common_len <= k@.len(),
        ensures
            final(self).wf(),
            final(self)@ == old(self)@ + encode_record(k@, k_common_len as int, v@),
            final(self).interval() == old(self).interval(),
            final(self).staging() == after_record(
                old(self).staging(),
                k@,
                k_common_len as int,
                v@,
                old(self).interval(),
            ),
    {
        let tail = vstd::slice::slice_subrange(k, k_common_len, k.len());
        assert(tail@ =~= k@.skip(k_common_len as int));
        match v {
            KvDataRef::Tombstone { .. } => {
                // write lengths
                self.write_varu64(k.len() as u64);
                self.write_varu64(k_common_len as u64);
                self.write_varu64(0_u64);
                // write flag
                self.write_varu64(FLAG_TOMBSTONE);
                // write (compressed) key
                self.write_slice(tail);
                assert(self@ =~= old(self)@ + encode_record(k@, k_common_len as int, v@));
            },
            KvDataRef::Value { value, .. } => {
                // write lengths
                self.write_varu64(k.len() as u64);
                self.write_varu64(k_common_len as u64);
                self.write_varu64(value.len() as u64);
                // write flag
                self.write_varu64(FLAG_VALUE);
                // write (compressed) key and value
                self.write_slice(tail);
                self.write_slice(value);
                assert(self@ =~= old(self)@ + encode_record(k@, k_common_len as int, v@));
            },
        }
    }

    /// Writes the run that holds the given pairs, which come in ascending key
    /// order. Pairs that are marked as cached are left out: they are copies
    /// of what a lower level holds. What the writer held before is dropped.
    /// The staged bytes are handed over behind each block and at the end.
    #[verifier::rlimit(50)]
    pub fn write<P: KvPointer>(&mut self, items: &[P])
        requires
            old(self).wf(),
            ascending(live(pairs_of(items@))),
        ensures
            final(self).wf(),
            final(self).interval() == old(self).interval(),
            final(self)@ == table_bytes(live(pairs_of(items@))),
            final(self).staging() == staging_of(live(pairs_of(items@)), old(self).interval()),
            staged(final(self).staging()) == 0,
    {
        // reset pointer
        self.out = Vec::new();
        self.cuts = Vec::new();
        self.handle_pointer = 0;
        let ghost all = pairs_of(items@);
        let ghost run = live(all);
        let ghost interval = self.interval();
        let count: usize = items.len();
        assert(offsets_of(self.cuts@) =~= Seq::<int>::empty());

        // how many pairs will be written: the last of them is an anchor
        let mut total: usize = 0;
        let mut i: usize = 0;
        while i < count
            invariant
                i <= count,
                count == items@.len(),
                all == pairs_of(items@),
                total == live_upto(all, i as int).len(),
                total <= i,
            decreases count - i,
        {
            let v = items[i].value();
            if !v.is_cached() {
                total += 1;
            }
            i += 1;
        }

        // assure index distance
        let mut prev_block: usize = 0;
        let mut indices: Vec<usize> = Vec::new();
        let ghost mut blocks: int = 0;

        // prepare bloom filter
        let mut bloom = BloomFilter::new();

        // index prefix compression
        let mut last: usize = 0;
        let mut written: usize = 0;

        // start writing keys
        let mut i: usize = 0;
        assert(bloom@ =~= bloom_upto(run, 0));
        assert(offsets_of(indices@) =~= anchors_upto(run, 0));
        while i < count
            invariant
                i <= count,
                count == items@.len(),
                all == pairs_of(items@),
                run == live(all),
                total == run.len(),
                written == live_upto(all, i as int).len(),
                written <= i,
                written <= total,
                bloom.wf(),
                bloom@ == bloom_upto(run, written as int),
                self.wf(),
                self.interval() == interval,
                self@ == data_upto(run, written as int),
                self.staging() == staging_upto(run, written as int, interval),
                offsets_of(indices@) == anchors_upto(run, written as int),
                written > 0 ==> last < i && pair_of(items@[last as int]) == run[written - 1],
                0 < written < total ==> written - 1 == (BLOCK_SIZE + 1) * blocks + prev_block,
                0 <= blocks,
                written == 0 ==> blocks == 0,
                prev_block <= BLOCK_SIZE,
            decreases count - i,
        {
            // fetch values
            let k: &[u8] = items[i].key();
            let v: KvDataRef<'_> = items[i].value();

            // skip cached values
            if v.is_cached() {
                proof {
                    lemma_skip(all, i as int);
                }
                i += 1;
                continue;
            }
            proof {
                lemma_step(all, i as int);
                if written > 0 {
                    lemma_block_full(written as int, blocks, prev_block as int);
                }
            }

            // maintain bloom filter
            let is_last_value: bool = written + 1 == total;
            bloom.insert(k);

            // compress index prefixes
            let offset: usize = self.tell();
            let mut common_len: usize = 0;

            if written == 0 || prev_block >= BLOCK_SIZE || is_last_value {
                // the first record, the one behind a full block and the last
                // one are written in full, and the index gets their offset
                indices.push(offset);
                proof {
                    assert(is_anchor(written as int, run.len() as int));
                    assert(offsets_of(indices@) =~= anchors_upto(run, written as int).push(
                        offset as int,
                    ));
                    if written > 0 && prev_block >= BLOCK_SIZE {
                        blocks = blocks + 1;
                    }
                }
                prev_block = 0;
            } else {
                // perform compression
                common_len = shared_prefix_len(items[last].key(), k);
                prev_block += 1;
                proof {
                    assert(!is_anchor(written as int, run.len() as int));
                    crate::record::bytestream::lemma_common_prefix_len(run[written - 1].0, k@);
                }
            }
            last = i;

            // write key
            self.write_kv_pair(k, common_len, &v);

            written += 1;
            i += 1;
        }
        proof {
            assert(written == total);
        }

        // write empty key marking end of data section
        self.write_terminator();
        // write index block
        let index_at: usize = self.tell();
        self.write_index_block(&indices);
        // write bloom filter block
        let bloom_at: usize = self.tell();
        self.write_bloom_block(&bloom);
        // write header block, and the footer behind it
        let header_at: usize = self.tell();
        self.write_header_block(index_at, bloom_at);
        self.write_footer(header_at);
    }

    /// Writes the empty header that marks the end of the records.
    fn write_terminator(&mut self)
        requires
            old(self).wf(),
        ensures
            final(self).wf(),
            final(self)@ == old(self)@ + terminator(),
            final(self).interval() == old(self).interval(),
            final(self).staging() == after_bytes(old(self).staging(), terminator().len() as int),
    {
        self.write_varu64(0_u64);
        self.write_varu64(0_u64);
        self.write_varu64(0_u64);
        self.write_varu64(0_u64);
        assert(self@ =~= old(self)@ + terminator());
    }

    /// Writes the index block: a counter and as many offsets, all as
    /// variable-length integers. The staged bytes are handed over at the
    /// end, and before that whenever they are more than an interval.
    fn write_index_block(&mut self, indices: &Vec<usize>)
        requires
            old(self).wf(),
        ensures
            final(self).wf(),
            final(self)@ == old(self)@ + index_block(offsets_of(indices@)),
            final(self).interval() == old(self).interval(),
            final(self).staging() == flushed_all(
                after_offsets(
                    after_bytes(old(self).staging(), encode(indices@.len() as u64).len() as int),
                    offsets_of(indices@),
                    indices@.len() as int,
                    old(self).interval(),
                ),
            ),
    {
        let ghost offsets = offsets_of(indices@);
        self.write_varu64(indices.len() as u64);
        let ghost before = self@;
        let ghost start = self.staging();
        let marks: usize = indices.len();
        let mut j: usize = 0;
        while j < marks
            invariant
                j <= marks,
                marks == indices@.len(),
                offsets == offsets_of(indices@),
                self.wf(),
                self.interval() == old(self).interval(),
                self@ == before + encode_offsets(offsets, j as int),
                self.staging() == after_offsets(start, offsets, j as int, self.interval()),
            decreases marks - j,
        {
            self.write_varu64(indices[j] as u64);
            self.flush_buffer_lazy();
            assert(self@ =~= before + encode_offsets(offsets, j + 1));
            j += 1;
        }
        self.flush_buffer();
        assert(self@ =~= old(self)@ + index_block(offsets));
    }

    /// Writes the Bloom filter block: the size of the bit array, which is
    /// handed over with what was staged, and the bit array, which goes out
    /// in a write of its own.
    fn write_bloom_block(&mut self, bloom: &BloomFilter)
        requires
            old(self).wf(),
            bloom.wf(),
        ensures
            final(self).wf(),
            final(self)@ == old(self)@ + bloom_block(bloom@),
            final(self).interval() == old(self).interval(),
            final(self).staging() == after_direct(
                flushed_all(
                    after_bytes(old(self).staging(), encode(bloom@.len() as u64).len() as int),
                ),
                bloom@.len() as int,
            ),
    {
        self.write_varu64(bloom.size() as u64);
        self.flush_buffer();
        self.write_direct(bloom.as_bytes());
        assert(self@ =~= old(self)@ + bloom_block(bloom@));
    }

    /// Writes the header block: a counter and, for each block, its type and
    /// its offset.
    fn write_header_block(&mut self, index_at: usize, bloom_at: usize)
        requires
            old(self).wf(),
        ensures
            final(self).wf(),
            final(self)@ == old(self)@ + header_block(index_at as int, bloom_at as int),
            final(self).interval() == old(self).interval(),
            final(self).staging() == after_bytes(
                old(self).staging(),
                header_block(index_at as int, bloom_at as int).len() as int,
            ),
    {
        self.write_varu64(2_u64);
        self.write_varu64(TAG_INDEX);
        self.write_varu64(index_at as u64);
        self.write_varu64(TAG_BLOOM);
        self.write_varu64(bloom_at as u64);
        assert(self@ =~= old(self)@ + header_block(index_at as int, bloom_at as int));
    }

    /// Writes the footer: the offset of the header block and the magic
    /// number. All that is staged is handed over.
    fn write_footer(&mut self, header_at: usize)
        requires
            old(self).wf(),
        ensures
            final(self).wf(),
            final(self)@ == old(self)@ + footer(header_at as int),
            final(self).interval() == old(self).interval(),
            final(self).staging() == flushed_all(
                after_bytes(old(self).staging(), footer(header_at as int).len() as int),
            ),
            staged(final(self).staging()) == 0,
    {
        self.write_u64(header_at as u64);
        self.write_u64(MAGIC);
        assert(self@ =~= old(self)@ + footer(header_at as int));
        self.flush_buffer();
    }
}

} // verus!
