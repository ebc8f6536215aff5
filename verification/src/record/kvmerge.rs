//! Joins sorted runs into one. Where runs hold the same key, the run that
//! comes first in the list wins, and the pairs of the others under that key
//! are left out.

use crate::order::Order;
use crate::record::bytestream::{
    compare_bytes, lemma_lex_equal, lemma_lex_flip, lemma_lex_lt_transitive, lemma_lex_reflexive,
    lex_le, lex_lt,
};
use crate::record::iterator::{ascending, pair_of, KvPointer, KvSource, Pair};
use crate::record::kventry::{KvDataRef, RecordView};
use vstd::prelude::*;

verus! {

/// The run holds the pair.
pub open spec fn in_run(run: Seq<Pair>, x: Pair) -> bool {
    exists|t: int| 0 <= t < run.len() && #[trigger] run[t] == x
}

/// The run holds a pair under the key.
pub open spec fn has_key(run: Seq<Pair>, key: Seq<u8>) -> bool {
    exists|t: int| 0 <= t < run.len() && (#[trigger] run[t]).0 == key
}

/// The pair stands in run `i`, and no run before `i` holds its key.
pub open spec fn wins_at(runs: Seq<Seq<Pair>>, x: Pair, i: int) -> bool {
    &&& 0 <= i < runs.len()
    &&& in_run(runs[i], x)
    &&& forall|j: int| 0 <= j < i ==> !has_key(#[trigger] runs[j], x.0)
}

/// The pair belongs to the merge of the runs: it stands in the first run
/// that holds its key.
pub open spec fn wins(runs: Seq<Seq<Pair>>, x: Pair) -> bool {
    exists|i: int| wins_at(runs, x, i)
}

/// `out` is the merge of the runs: it ascends by key and holds exactly the
/// pairs that stand in the first run that holds their key.
pub open spec fn is_merge_of(out: Seq<Pair>, runs: Seq<Seq<Pair>>) -> bool {
    &&& ascending(out)
    &&& forall|x: Pair| in_run(out, x) <==> wins(runs, x)
}

/// Number of pairs in the first `upto` runs.
pub open spec fn total_upto(runs: Seq<Seq<Pair>>, upto: int) -> nat
    decreases upto,
{
    if upto <= 0 {
        0
    } else {
        total_upto(runs, upto - 1) + runs[upto - 1].len()
    }
}

/// Number of pairs in all runs.
pub open spec fn total(runs: Seq<Seq<Pair>>) -> nat {
    total_upto(runs, runs.len() as int)
}

/// The runs once run `j` has lost its first pair.
pub open spec fn without_head(runs: Seq<Seq<Pair>>, j: int) -> Seq<Seq<Pair>> {
    runs.update(j, runs[j].skip(1))
}

/// A run that loses its first pair makes the runs one pair fewer.
pub proof fn lemma_total_without_head(runs: Seq<Seq<Pair>>, j: int, upto: int)
    requires
        0 <= j < runs.len(),
        runs[j].len() > 0,
        0 <= upto <= runs.len(),
    ensures
        total_upto(without_head(runs, j), upto) == if j < upto {
            total_upto(runs, upto) - 1
        } else {
            total_upto(runs, upto) as int
        },
    decreases upto,
{
    if upto > 0 {
        lemma_total_without_head(runs, j, upto - 1);
    }
}

/// A pair of a run that lost its first pair is a pair of the run.
pub proof fn lemma_in_skipped(run: Seq<Pair>)
    requires
        run.len() > 0,
    ensures
        forall|x: Pair| in_run(run.skip(1), x) ==> in_run(run, x),
        forall|k: Seq<u8>| has_key(run.skip(1), k) ==> has_key(run, k),
        forall|x: Pair| in_run(run, x) && x != run[0] ==> in_run(run.skip(1), x),
        forall|k: Seq<u8>| has_key(run, k) && k != run[0].0 ==> has_key(run.skip(1), k),
{
    let rest = run.skip(1);
    assert forall|x: Pair| in_run(rest, x) implies in_run(run, x) by {
        let t = choose|t: int| 0 <= t < rest.len() && #[trigger] rest[t] == x;
        assert(run[t + 1] == x);
    }
    assert forall|k: Seq<u8>| has_key(rest, k) implies has_key(run, k) by {
        let t = choose|t: int| 0 <= t < rest.len() && (#[trigger] rest[t]).0 == k;
        assert(run[t + 1].0 == k);
    }
    assert forall|x: Pair| in_run(run, x) && x != run[0] implies in_run(rest, x) by {
        let t = choose|t: int| 0 <= t < run.len() && #[trigger] run[t] == x;
        assert(rest[t - 1] == x);
    }
    assert forall|k: Seq<u8>| has_key(run, k) && k != run[0].0 implies has_key(rest, k) by {
        let t = choose|t: int| 0 <= t < run.len() && (#[trigger] run[t]).0 == k;
        assert(rest[t - 1].0 == k);
    }
}

/// In an ascending run the first key stands at the front alone.
pub proof fn lemma_head_alone(run: Seq<Pair>)
    requires
        ascending(run),
        run.len() > 0,
    ensures
        !has_key(run.skip(1), run[0].0),
        forall|x: Pair| in_run(run, x) && x.0 == run[0].0 ==> x == run[0],
        ascending(run.skip(1)),
        forall|t: int|
            0 <= t < run.skip(1).len() ==> lex_lt(run[0].0, (#[trigger] run.skip(1)[t]).0),
{
    let rest = run.skip(1);
    lemma_lex_reflexive(run[0].0);
    if has_key(rest, run[0].0) {
        let t = choose|t: int| 0 <= t < rest.len() && (#[trigger] rest[t]).0 == run[0].0;
        assert(lex_lt(run[0].0, run[t + 1].0));
    }
    assert forall|x: Pair| in_run(run, x) && x.0 == run[0].0 implies x == run[0] by {
        let t = choose|t: int| 0 <= t < run.len() && #[trigger] run[t] == x;
        if t > 0 {
            assert(lex_lt(run[0].0, run[t].0));
        }
    }
    assert forall|a: int, b: int| 0 <= a < b < rest.len() implies lex_lt(
        (#[trigger] rest[a]).0,
        (#[trigger] rest[b]).0,
    ) by {
        assert(lex_lt(run[a + 1].0, run[b + 1].0));
    }
    assert forall|t: int| 0 <= t < rest.len() implies lex_lt(run[0].0, (#[trigger] rest[t]).0) by {
        assert(lex_lt(run[0].0, run[t + 1].0));
    }
}

/// The merge does not change where a run loses a first pair whose key an
/// earlier run holds: the pair is shadowed.
pub proof fn lemma_drop_shadowed(runs: Seq<Seq<Pair>>, j: int, i: int)
    requires
        0 <= i < j < runs.len(),
        runs[j].len() > 0,
        has_key(runs[i], runs[j][0].0),
        ascending(runs[j]),
    ensures
        forall|x: Pair| wins(without_head(runs, j), x) <==> wins(runs, x),
{
    let after = without_head(runs, j);
    let k = runs[j][0].0;
    lemma_in_skipped(runs[j]);
    lemma_head_alone(runs[j]);
    assert forall|x: Pair| wins(after, x) <==> wins(runs, x) by {
        if wins(after, x) {
            let s = choose|s: int| wins_at(after, x, s);
            assert forall|t: int| 0 <= t < s implies !has_key(#[trigger] runs[t], x.0) by {
                assert(!has_key(after[t], x.0));
                if t == j {
                    // run `i` stands before `j` and holds the key
                    assert(x.0 != k) by {
                        assert(!has_key(after[i], k) || x.0 != k);
                        assert(after[i] == runs[i]);
                    }
                }
            }
            assert(wins_at(runs, x, s));
        }
        if wins(runs, x) {
            let s = choose|s: int| wins_at(runs, x, s);
            if s == j {
                assert(!has_key(runs[i], x.0));
                assert(x != runs[j][0]);
            }
            assert forall|t: int| 0 <= t < s implies !has_key(#[trigger] after[t], x.0) by {
                assert(!has_key(runs[t], x.0));
            }
            assert(wins_at(after, x, s));
        }
    }
}

/// Where the first pair of a run lies below every pair of every other run,
/// it belongs to the merge, and without it the merge is one pair fewer.
pub proof fn lemma_drop_least(runs: Seq<Seq<Pair>>, i: int)
    requires
        0 <= i < runs.len(),
        runs[i].len() > 0,
        ascending(runs[i]),
        forall|j: int, t: int|
            0 <= j < runs.len() && j != i && 0 <= t < runs[j].len() ==> lex_lt(
                runs[i][0].0,
                (#[trigger] runs[j][t]).0,
            ),
    ensures
        wins(runs, runs[i][0]),
        forall|x: Pair| wins(runs, x) ==> x == runs[i][0] || lex_lt(runs[i][0].0, x.0),
        forall|x: Pair| wins(without_head(runs, i), x) <==> wins(runs, x) && x != runs[i][0],
{
    let after = without_head(runs, i);
    let least = runs[i][0];
    lemma_in_skipped(runs[i]);
    lemma_head_alone(runs[i]);
    lemma_lex_reflexive(least.0);
    assert forall|j: int| 0 <= j < runs.len() && j != i implies !has_key(
        #[trigger] runs[j],
        least.0,
    ) by {
        if has_key(runs[j], least.0) {
            let t = choose|t: int| 0 <= t < runs[j].len() && (#[trigger] runs[j][t]).0 == least.0;
            assert(lex_lt(least.0, runs[j][t].0));
        }
    }
    assert(wins_at(runs, least, i)) by {
        assert(runs[i][0] == least);
    }
    assert forall|x: Pair| wins(runs, x) implies x == least || lex_lt(least.0, x.0) by {
        let s = choose|s: int| wins_at(runs, x, s);
        let t = choose|t: int| 0 <= t < runs[s].len() && #[trigger] runs[s][t] == x;
        if s == i {
            if t > 0 {
                assert(lex_lt(runs[i][0].0, runs[i][t].0));
            }
        } else {
            assert(lex_lt(least.0, runs[s][t].0));
        }
    }
    assert forall|x: Pair| wins(after, x) <==> wins(runs, x) && x != least by {
        if wins(after, x) {
            let s = choose|s: int| wins_at(after, x, s);
            assert(x != least) by {
                if s == i {
                } else {
                    let t = choose|t: int| 0 <= t < runs[s].len() && #[trigger] runs[s][t] == x;
                    assert(lex_lt(least.0, runs[s][t].0));
                }
            }
            assert(x.0 != least.0) by {
                if s == i {
                    assert(in_run(runs[i], x));
                } else {
                    let t = choose|t: int| 0 <= t < runs[s].len() && #[trigger] runs[s][t] == x;
                    assert(lex_lt(least.0, runs[s][t].0));
                }
            }
            assert forall|t: int| 0 <= t < s implies !has_key(#[trigger] runs[t], x.0) by {
                assert(!has_key(after[t], x.0));
            }
            assert(wins_at(runs, x, s));
        }
        if wins(runs, x) && x != least {
            let s = choose|s: int| wins_at(runs, x, s);
            assert forall|t: int| 0 <= t < s implies !has_key(#[trigger] after[t], x.0) by {
                assert(!has_key(runs[t], x.0));
            }
            assert(wins_at(after, x, s));
        }
    }
}

/// Where runs hold the same key, the merge holds the pair of the first of
/// them and no other pair under that key.
pub proof fn lemma_first_run_wins(runs: Seq<Seq<Pair>>, i: int, t: int)
    requires
        0 <= i < runs.len(),
        0 <= t < runs[i].len(),
        ascending(runs[i]),
        forall|j: int| 0 <= j < i ==> !has_key(#[trigger] runs[j], runs[i][t].0),
    ensures
        wins(runs, runs[i][t]),
        forall|x: Pair| wins(runs, x) && x.0 == runs[i][t].0 ==> x == runs[i][t],
{
    let winner = runs[i][t];
    assert(wins_at(runs, winner, i));
    assert forall|x: Pair| wins(runs, x) && x.0 == winner.0 implies x == winner by {
        let s = choose|s: int| wins_at(runs, x, s);
        if s < i {
            let u = choose|u: int| 0 <= u < runs[s].len() && #[trigger] runs[s][u] == x;
            assert(runs[s][u].0 == winner.0);
            assert(has_key(runs[s], winner.0));
        } else if s > i {
            assert(has_key(runs[i], x.0));
        } else {
            let u = choose|u: int| 0 <= u < runs[i].len() && #[trigger] runs[i][u] == x;
            lemma_lex_reflexive(winner.0);
            if u < t {
                assert(lex_lt(runs[i][u].0, runs[i][t].0));
            } else if t < u {
                assert(lex_lt(runs[i][t].0, runs[i][u].0));
            }
        }
    }
}


/// Where a key stands among the keys of the buffer.
pub enum FoundIndex {
    /// The key is not there; it belongs at this place, before the first key
    /// that is above it.
    Less(usize),
    /// The key stands at this place.
    Equal(usize),
}

/// Internal pointer implementation for joiner iterator.
pub struct KvMergePointer<Pointer: KvPointer> {
    _item: Pointer,
}

impl<Pointer: KvPointer> KvPointer for KvMergePointer<Pointer> {
    closed spec fn spec_key(&self) -> Seq<u8> {
        self._item.spec_key()
    }

    closed spec fn spec_value(&self) -> RecordView {
        self._item.spec_value()
    }

    fn key(&self) -> (k: &[u8]) {
        self._item.key()
    }

    /// Gets a reference to the pointing value.
    fn value(&self) -> (v: KvDataRef<'_>) {
        self._item.value()
    }
}

/// Joins a list of sources with priority. Earlier sources have higher
/// priority and override all latter sources under the same key.
pub struct KvMergeIterator<S: KvSource> {
    /// A list of all iterators to merge.
    iterators: Vec<S>,
    /// The pairs that wait to be yielded, in ascending key order: one of
    /// each source at most, with the number of its source.
    buffer: Vec<(S::Pointer, usize)>,
    /// What each source has yet to give: its pair in the buffer, if it has
    /// one there, and what it has yet to yield.
    rests: Ghost<Seq<Seq<Pair>>>,
}

/// Source `i` has no pair in the buffer.
pub open spec fn absent<P>(buffer: Seq<(P, usize)>, i: int) -> bool {
    forall|pos: int| 0 <= pos < buffer.len() ==> (#[trigger] buffer[pos]).1 != i
}

/// The keys of the buffer ascend, and no source has two pairs there.
pub open spec fn buffer_sorted<P: KvPointer>(buffer: Seq<(P, usize)>) -> bool {
    &&& forall|a: int, b: int|
        0 <= a < b < buffer.len() ==> lex_lt(
            (#[trigger] buffer[a]).0.spec_key(),
            (#[trigger] buffer[b]).0.spec_key(),
        )
    &&& forall|a: int, b: int|
        0 <= a < b < buffer.len() ==> (#[trigger] buffer[a]).1 != (#[trigger] buffer[b]).1
}

/// The pair of the buffer is the first that its source has yet to give, and
/// the source stands behind it.
pub open spec fn entry_ok<S: KvSource>(
    entry: (S::Pointer, usize),
    iters: Seq<S>,
    rests: Seq<Seq<Pair>>,
    started: int,
    missing: int,
) -> bool {
    let src = entry.1 as int;
    &&& 0 <= src < iters.len()
    &&& src < started
    &&& src != missing
    &&& rests[src].len() > 0
    &&& rests[src][0] == pair_of(entry.0)
    &&& rests[src].skip(1) == iters[src].remaining()
}

/// A source without a pair in the buffer has yet to give what it has yet to
/// yield, which is nothing where the source was asked and is not being asked
/// now.
pub open spec fn source_ok<S: KvSource>(
    buffer: Seq<(S::Pointer, usize)>,
    iters: Seq<S>,
    rests: Seq<Seq<Pair>>,
    started: int,
    missing: int,
    i: int,
) -> bool {
    absent(buffer, i) ==> {
        &&& rests[i] == iters[i].remaining()
        &&& (i < started && i != missing ==> rests[i].len() == 0)
    }
}

/// The invariant of a merge while the sources from `started` on have not
/// been asked yet and the source `missing` is being asked.
pub open spec fn merge_inv<S: KvSource>(
    buffer: Seq<(S::Pointer, usize)>,
    iters: Seq<S>,
    rests: Seq<Seq<Pair>>,
    started: int,
    missing: int,
) -> bool {
    &&& rests.len() == iters.len()
    &&& forall|i: int| 0 <= i < iters.len() ==> (#[trigger] iters[i]).wf()
    &&& forall|i: int| 0 <= i < iters.len() ==> ascending(#[trigger] rests[i])
    &&& buffer_sorted(buffer)
    &&& forall|pos: int|
        0 <= pos < buffer.len() ==> entry_ok(#[trigger] buffer[pos], iters, rests, started, missing)
    &&& forall|i: int|
        0 <= i < iters.len() ==> #[trigger] source_ok(buffer, iters, rests, started, missing, i)
}

/// The state behind a source that was asked and is through.
proof fn lemma_source_through<S: KvSource>(
    buffer: Seq<(S::Pointer, usize)>,
    iters: Seq<S>,
    after: Seq<S>,
    rests: Seq<Seq<Pair>>,
    started: int,
    cur: int,
)
    requires
        merge_inv(buffer, iters, rests, started, cur),
        0 <= cur < iters.len(),
        after == iters.update(cur, after[cur]),
        after[cur].wf(),
        after[cur].remaining() == iters[cur].remaining(),
        iters[cur].remaining().len() == 0,
    ensures
        merge_inv(buffer, after, rests, started, -1),
{
    assert forall|pos: int| 0 <= pos < buffer.len() implies entry_ok(
        #[trigger] buffer[pos],
        after,
        rests,
        started,
        -1,
    ) by {
        assert(entry_ok(buffer[pos], iters, rests, started, cur));
    }
    assert forall|i: int| 0 <= i < after.len() implies #[trigger] source_ok(
        buffer,
        after,
        rests,
        started,
        -1,
        i,
    ) by {
        assert(source_ok(buffer, iters, rests, started, cur, i));
    }
    assert forall|i: int| 0 <= i < after.len() implies (#[trigger] after[i]).wf() by {
        if i != cur {
            assert(iters[i].wf());
        }
    }
}

/// The state behind a pair that found its place in the buffer.
proof fn lemma_pair_placed<S: KvSource>(
    buffer: Seq<(S::Pointer, usize)>,
    placed: Seq<(S::Pointer, usize)>,
    iters: Seq<S>,
    after: Seq<S>,
    rests: Seq<Seq<Pair>>,
    started: int,
    cur: usize,
    item: S::Pointer,
    at: int,
)
    requires
        merge_inv(buffer, iters, rests, started, cur as int),
        0 <= cur < iters.len(),
        cur < started,
        absent(buffer, cur as int),
        after == iters.update(cur as int, after[cur as int]),
        after[cur as int].wf(),
        iters[cur as int].remaining().len() > 0,
        pair_of(item) == iters[cur as int].remaining()[0],
        after[cur as int].remaining() == iters[cur as int].remaining().skip(1),
        0 <= at <= buffer.len(),
        placed == buffer.insert(at, (item, cur)),
        forall|t: int| 0 <= t < at ==> lex_lt((#[trigger] buffer[t]).0.spec_key(), item.spec_key()),
        forall|t: int|
            at <= t < buffer.len() ==> lex_lt(item.spec_key(), (#[trigger] buffer[t]).0.spec_key()),
    ensures
        merge_inv(placed, after, rests, started, -1),
{
    assert(source_ok(buffer, iters, rests, started, cur as int, cur as int));
    assert forall|pos: int| 0 <= pos < placed.len() implies #[trigger] placed[pos] == (if pos < at {
        buffer[pos]
    } else if pos == at {
        (item, cur)
    } else {
        buffer[pos - 1]
    }) by {}
    assert forall|pos: int| 0 <= pos < placed.len() implies entry_ok(
        #[trigger] placed[pos],
        after,
        rests,
        started,
        -1,
    ) by {
        if pos < at {
            assert(entry_ok(buffer[pos], iters, rests, started, cur as int));
        } else if pos > at {
            assert(entry_ok(buffer[pos - 1], iters, rests, started, cur as int));
        }
    }
    assert forall|i: int| 0 <= i < after.len() implies #[trigger] source_ok(
        placed,
        after,
        rests,
        started,
        -1,
        i,
    ) by {
        assert(source_ok(buffer, iters, rests, started, cur as int, i));
        if absent(placed, i) {
            assert(placed[at].1 == cur);
            assert(i != cur);
            assert forall|pos: int| 0 <= pos < buffer.len() implies (#[trigger] buffer[pos]).1
                != i by {
                if pos < at {
                    assert(placed[pos] == buffer[pos]);
                } else {
                    assert(placed[pos + 1] == buffer[pos]);
                }
            }
        }
    }
    assert forall|i: int| 0 <= i < after.len() implies (#[trigger] after[i]).wf() by {
        if i != cur {
            assert(iters[i].wf());
        }
    }
    assert forall|a: int, b: int| 0 <= a < b < placed.len() implies lex_lt(
        (#[trigger] placed[a]).0.spec_key(),
        (#[trigger] placed[b]).0.spec_key(),
    ) by {
        let wa = if a < at { a } else { a - 1 };
        let wb = if b < at { b } else { b - 1 };
        if a != at && b != at {
            assert(lex_lt(buffer[wa].0.spec_key(), buffer[wb].0.spec_key()));
        } else if a == at {
            assert(lex_lt(item.spec_key(), buffer[wb].0.spec_key()));
        } else {
            assert(lex_lt(buffer[wa].0.spec_key(), item.spec_key()));
        }
    }
    assert forall|a: int, b: int| 0 <= a < b < placed.len() implies (#[trigger] placed[a]).1 != (
    #[trigger] placed[b]).1 by {
        let wa = if a < at { a } else { a - 1 };
        let wb = if b < at { b } else { b - 1 };
        if a != at && b != at {
            assert(buffer[wa].1 != buffer[wb].1);
        } else if a == at {
            assert(buffer[wb].1 != cur);
        } else {
            assert(buffer[wa].1 != cur);
        }
    }
}

/// The state behind a pair that took the place of the pair of a later
/// source, which is asked next.
proof fn lemma_pair_replaced<S: KvSource>(
    buffer: Seq<(S::Pointer, usize)>,
    placed: Seq<(S::Pointer, usize)>,
    iters: Seq<S>,
    after: Seq<S>,
    rests: Seq<Seq<Pair>>,
    started: int,
    cur: usize,
    item: S::Pointer,
    at: int,
)
    requires
        merge_inv(buffer, iters, rests, started, cur as int),
        0 <= cur < iters.len(),
        cur < started,
        absent(buffer, cur as int),
        after == iters.update(cur as int, after[cur as int]),
        after[cur as int].wf(),
        iters[cur as int].remaining().len() > 0,
        pair_of(item) == iters[cur as int].remaining()[0],
        after[cur as int].remaining() == iters[cur as int].remaining().skip(1),
        0 <= at < buffer.len(),
        buffer[at].0.spec_key() == item.spec_key(),
        cur < buffer[at].1,
        placed == buffer.update(at, (item, cur)),
    ensures
        merge_inv(placed, after, without_head(rests, buffer[at].1 as int), started, buffer[at].1 as int),
        forall|x: Pair| wins(without_head(rests, buffer[at].1 as int), x) <==> wins(rests, x),
        total(without_head(rests, buffer[at].1 as int)) < total(rests),
        absent(placed, buffer[at].1 as int),
{
    let other = buffer[at].1 as int;
    let now = without_head(rests, other);
    assert(source_ok(buffer, iters, rests, started, cur as int, cur as int));
    assert(entry_ok(buffer[at], iters, rests, started, cur as int));
    lemma_head_alone(rests[cur as int]);
    lemma_head_alone(rests[other]);
    assert(has_key(rests[cur as int], rests[other][0].0)) by {
        assert(rests[cur as int][0].0 == rests[other][0].0);
    }
    lemma_drop_shadowed(rests, other, cur as int);
    lemma_total_without_head(rests, other, rests.len() as int);
    assert forall|pos: int| 0 <= pos < placed.len() implies entry_ok(
        #[trigger] placed[pos],
        after,
        now,
        started,
        other,
    ) by {
        if pos != at {
            assert(entry_ok(buffer[pos], iters, rests, started, cur as int));
            assert(buffer[pos].1 != buffer[at].1);
        }
    }
    assert(absent(placed, other)) by {
        assert forall|pos: int| 0 <= pos < placed.len() implies (#[trigger] placed[pos]).1
            != other by {
            if pos != at {
                assert(buffer[pos].1 != buffer[at].1);
            }
        }
    }
    assert forall|i: int| 0 <= i < after.len() implies #[trigger] source_ok(
        placed,
        after,
        now,
        started,
        other,
        i,
    ) by {
        assert(source_ok(buffer, iters, rests, started, cur as int, i));
        if absent(placed, i) && i != other {
            assert(placed[at].1 == cur);
            assert(i != cur);
            assert forall|pos: int| 0 <= pos < buffer.len() implies (#[trigger] buffer[pos]).1
                != i by {
                if pos != at {
                    assert(placed[pos] == buffer[pos]);
                }
            }
        }
    }
    assert forall|i: int| 0 <= i < after.len() implies (#[trigger] after[i]).wf() by {
        if i != cur {
            assert(iters[i].wf());
        }
    }
    assert forall|i: int| 0 <= i < after.len() implies ascending(#[trigger] now[i]) by {
        assert(ascending(rests[i]));
    }
    assert forall|a: int, b: int| 0 <= a < b < placed.len() implies lex_lt(
        (#[trigger] placed[a]).0.spec_key(),
        (#[trigger] placed[b]).0.spec_key(),
    ) by {
        assert(lex_lt(buffer[a].0.spec_key(), buffer[b].0.spec_key()));
    }
    assert forall|a: int, b: int| 0 <= a < b < placed.len() implies (#[trigger] placed[a]).1 != (
    #[trigger] placed[b]).1 by {
        assert(buffer[a].1 != buffer[b].1);
        if a == at {
            assert(buffer[b].1 != cur);
        } else if b == at {
            assert(buffer[a].1 != cur);
        }
    }
}

/// The state behind a pair that was left out because an earlier source holds
/// its key; its source is asked again.
proof fn lemma_pair_dropped<S: KvSource>(
    buffer: Seq<(S::Pointer, usize)>,
    iters: Seq<S>,
    after: Seq<S>,
    rests: Seq<Seq<Pair>>,
    started: int,
    cur: usize,
    item: S::Pointer,
    at: int,
)
    requires
        merge_inv(buffer, iters, rests, started, cur as int),
        0 <= cur < iters.len(),
        cur < started,
        absent(buffer, cur as int),
        after == iters.update(cur as int, after[cur as int]),
        after[cur as int].wf(),
        iters[cur as int].remaining().len() > 0,
        pair_of(item) == iters[cur as int].remaining()[0],
        after[cur as int].remaining() == iters[cur as int].remaining().skip(1),
        0 <= at < buffer.len(),
        buffer[at].0.spec_key() == item.spec_key(),
        cur >= buffer[at].1,
    ensures
        merge_inv(buffer, after, without_head(rests, cur as int), started, cur as int),
        forall|x: Pair| wins(without_head(rests, cur as int), x) <==> wins(rests, x),
        total(without_head(rests, cur as int)) < total(rests),
{
    let other = buffer[at].1 as int;
    let now = without_head(rests, cur as int);
    assert(source_ok(buffer, iters, rests, started, cur as int, cur as int));
    assert(entry_ok(buffer[at], iters, rests, started, cur as int));
    lemma_head_alone(rests[cur as int]);
    assert(has_key(rests[other], rests[cur as int][0].0)) by {
        assert(rests[other][0].0 == rests[cur as int][0].0);
    }
    lemma_drop_shadowed(rests, cur as int, other);
    lemma_total_without_head(rests, cur as int, rests.len() as int);
    assert forall|pos: int| 0 <= pos < buffer.len() implies entry_ok(
        #[trigger] buffer[pos],
        after,
        now,
        started,
        cur as int,
    ) by {
        assert(entry_ok(buffer[pos], iters, rests, started, cur as int));
    }
    assert forall|i: int| 0 <= i < after.len() implies #[trigger] source_ok(
        buffer,
        after,
        now,
        started,
        cur as int,
        i,
    ) by {
        assert(source_ok(buffer, iters, rests, started, cur as int, i));
    }
    assert forall|i: int| 0 <= i < after.len() implies (#[trigger] after[i]).wf() by {
        if i != cur {
            assert(iters[i].wf());
        }
    }
    assert forall|i: int| 0 <= i < after.len() implies ascending(#[trigger] now[i]) by {
        assert(ascending(rests[i]));
    }
}

/// What the sources have yet to yield.
pub open spec fn remaining_of<S: KvSource>(iters: Seq<S>) -> Seq<Seq<Pair>> {
    Seq::new(iters.len(), |i: int| iters[i].remaining())
}

/// The state before the next source is asked for the first time.
proof fn lemma_next_source<S: KvSource>(
    buffer: Seq<(S::Pointer, usize)>,
    iters: Seq<S>,
    rests: Seq<Seq<Pair>>,
    index: int,
)
    requires
        merge_inv(buffer, iters, rests, index, -1),
        0 <= index < iters.len(),
    ensures
        merge_inv(buffer, iters, rests, index + 1, index),
        absent(buffer, index),
{
    assert forall|pos: int| 0 <= pos < buffer.len() implies entry_ok(
        #[trigger] buffer[pos],
        iters,
        rests,
        index + 1,
        index,
    ) by {
        assert(entry_ok(buffer[pos], iters, rests, index, -1));
    }
    assert forall|i: int| 0 <= i < iters.len() implies #[trigger] source_ok(
        buffer,
        iters,
        rests,
        index + 1,
        index,
        i,
    ) by {
        assert(source_ok(buffer, iters, rests, index, -1, i));
    }
    assert forall|pos: int| 0 <= pos < buffer.len() implies (#[trigger] buffer[pos]).1 != index by {
        assert(entry_ok(buffer[pos], iters, rests, index, -1));
    }
}

/// The state behind the first pair of the buffer, once it has been taken
/// out: its key lay below every other, and its source is asked next.
proof fn lemma_pair_popped<S: KvSource>(
    buffer: Seq<(S::Pointer, usize)>,
    iters: Seq<S>,
    rests: Seq<Seq<Pair>>,
)
    requires
        merge_inv(buffer, iters, rests, iters.len() as int, -1),
        buffer.len() > 0,
    ensures
        0 <= buffer[0].1 < iters.len(),
        merge_inv(
            buffer.remove(0),
            iters,
            without_head(rests, buffer[0].1 as int),
            iters.len() as int,
            buffer[0].1 as int,
        ),
        absent(buffer.remove(0), buffer[0].1 as int),
        rests[buffer[0].1 as int].len() > 0,
        rests[buffer[0].1 as int][0] == pair_of(buffer[0].0),
        wins(rests, pair_of(buffer[0].0)),
        forall|x: Pair|
            wins(rests, x) ==> x == pair_of(buffer[0].0) || lex_lt(buffer[0].0.spec_key(), x.0),
        forall|x: Pair|
            wins(without_head(rests, buffer[0].1 as int), x) <==> wins(rests, x) && x != pair_of(
                buffer[0].0,
            ),
        total(without_head(rests, buffer[0].1 as int)) < total(rests),
{
    let k = iters.len() as int;
    let src = buffer[0].1 as int;
    let rest = buffer.remove(0);
    let now = without_head(rests, src);
    assert(entry_ok(buffer[0], iters, rests, k, -1));
    lemma_head_alone(rests[src]);
    lemma_total_without_head(rests, src, rests.len() as int);
    assert forall|j: int, t: int|
        0 <= j < rests.len() && j != src && 0 <= t < rests[j].len() implies lex_lt(
        rests[src][0].0,
        (#[trigger] rests[j][t]).0,
    ) by {
        assert(source_ok(buffer, iters, rests, k, -1, j));
        if absent(buffer, j) {
        } else {
            let pos = choose|pos: int| 0 <= pos < buffer.len() && (#[trigger] buffer[pos]).1 == j;
            assert(entry_ok(buffer[pos], iters, rests, k, -1));
            assert(pos > 0);
            assert(lex_lt(buffer[0].0.spec_key(), buffer[pos].0.spec_key()));
            assert(ascending(rests[j]));
            if t > 0 {
                assert(lex_lt(rests[j][0].0, rests[j][t].0));
                lemma_lex_lt_transitive(rests[src][0].0, rests[j][0].0, rests[j][t].0);
            }
        }
    }
    lemma_drop_least(rests, src);
    assert forall|pos: int| 0 <= pos < rest.len() implies #[trigger] rest[pos] == buffer[pos + 1] by {}
    assert forall|pos: int| 0 <= pos < rest.len() implies entry_ok(
        #[trigger] rest[pos],
        iters,
        now,
        k,
        src,
    ) by {
        assert(entry_ok(buffer[pos + 1], iters, rests, k, -1));
        assert(buffer[0].1 != buffer[pos + 1].1);
    }
    assert(absent(rest, src)) by {
        assert forall|pos: int| 0 <= pos < rest.len() implies (#[trigger] rest[pos]).1 != src by {
            assert(buffer[0].1 != buffer[pos + 1].1);
        }
    }
    assert forall|i: int| 0 <= i < iters.len() implies #[trigger] source_ok(
        rest,
        iters,
        now,
        k,
        src,
        i,
    ) by {
        assert(source_ok(buffer, iters, rests, k, -1, i));
        if absent(rest, i) && i != src {
            assert forall|pos: int| 0 <= pos < buffer.len() implies (#[trigger] buffer[pos]).1
                != i by {
                if pos > 0 {
                    assert(rest[pos - 1] == buffer[pos]);
                }
            }
        }
    }
    assert forall|i: int| 0 <= i < iters.len() implies ascending(#[trigger] now[i]) by {
        assert(ascending(rests[i]));
    }
    assert forall|a: int, b: int| 0 <= a < b < rest.len() implies lex_lt(
        (#[trigger] rest[a]).0.spec_key(),
        (#[trigger] rest[b]).0.spec_key(),
    ) by {
        assert(lex_lt(buffer[a + 1].0.spec_key(), buffer[b + 1].0.spec_key()));
    }
    assert forall|a: int, b: int| 0 <= a < b < rest.len() implies (#[trigger] rest[a]).1 != (
    #[trigger] rest[b]).1 by {
        assert(buffer[a + 1].1 != buffer[b + 1].1);
    }
}

/// Sources that are all through have nothing to merge.
proof fn lemma_all_through<S: KvSource>(
    buffer: Seq<(S::Pointer, usize)>,
    iters: Seq<S>,
    rests: Seq<Seq<Pair>>,
)
    requires
        merge_inv(buffer, iters, rests, iters.len() as int, -1),
        buffer.len() == 0,
    ensures
        forall|x: Pair| !wins(rests, x),
{
    assert forall|x: Pair| !wins(rests, x) by {
        if wins(rests, x) {
            let i = choose|i: int| wins_at(rests, x, i);
            assert(source_ok(buffer, iters, rests, iters.len() as int, -1, i));
        }
    }
}

impl<S: KvSource> KvMergeIterator<S> {
    /// What each source has yet to give.
    pub closed spec fn pending(&self) -> Seq<Seq<Pair>> {
        self.rests@
    }

    /// The invariant while the sources from `started` on have not been asked
    /// yet and the source `missing` is being asked.
    spec fn inv(&self, started: int, missing: int) -> bool {
        merge_inv(self.buffer@, self.iterators@, self.rests@, started, missing)
    }

    /// The invariant of the iterator: the pairs in its buffer ascend, each
    /// source has one pair there unless it is through, and every source
    /// ascends.
    pub closed spec fn wf(&self) -> bool {
        self.inv(self.iterators@.len() as int, -1)
    }

    /// Binary search for a location where we could insert a new item.
    fn binary_search(&self, key: &[u8]) -> (found: FoundIndex)
        requires
            forall|a: int, b: int|
                0 <= a < b < self.buffer@.len() ==> lex_lt(
                    (#[trigger] self.buffer@[a]).0.spec_key(),
                    (#[trigger] self.buffer@[b]).0.spec_key(),
                ),
        ensures
            match found {
                FoundIndex::Equal(pos) => pos < self.buffer@.len() && self.buffer@[pos as int].0.spec_key()
                    == key@,
                FoundIndex::Less(pos) => {
                    &&& pos <= self.buffer@.len()
                    &&& forall|t: int|
                        0 <= t < pos ==> lex_lt((#[trigger] self.buffer@[t]).0.spec_key(), key@)
                    &&& forall|t: int|
                        pos <= t < self.buffer@.len() ==> lex_lt(
                            key@,
                            (#[trigger] self.buffer@[t]).0.spec_key(),
                        )
                },
            },
    {
        let len: usize = self.buffer.len();
        let mut left: usize = 0;
        let mut right: usize = len;
        while left < right
            invariant
                left <= right <= len,
                len == self.buffer@.len(),
                forall|a: int, b: int|
                    0 <= a < b < self.buffer@.len() ==> lex_lt(
                        (#[trigger] self.buffer@[a]).0.spec_key(),
                        (#[trigger] self.buffer@[b]).0.spec_key(),
                    ),
                forall|t: int|
                    0 <= t < left ==> lex_lt((#[trigger] self.buffer@[t]).0.spec_key(), key@),
                forall|t: int|
                    right <= t < len ==> lex_lt(key@, (#[trigger] self.buffer@[t]).0.spec_key()),
            decreases right - left,
        {
            let mid: usize = left + (right - left) / 2;
            let ghost at = self.buffer@[mid as int].0.spec_key();
            proof {
                lemma_lex_flip(at, key@);
                lemma_lex_equal(at, key@);
            }
            match compare_bytes(self.buffer[mid].0.key(), key) {
                Order::Less => {
                    proof {
                        assert forall|t: int| 0 <= t < mid + 1 implies lex_lt(
                            (#[trigger] self.buffer@[t]).0.spec_key(),
                            key@,
                        ) by {
                            if t < mid {
                                lemma_lex_lt_transitive(self.buffer@[t].0.spec_key(), at, key@);
                            }
                        }
                    }
                    left = mid + 1;
                },
                Order::Greater => {
                    proof {
                        assert forall|t: int| mid <= t < len implies lex_lt(
                            key@,
                            (#[trigger] self.buffer@[t]).0.spec_key(),
                        ) by {
                            if t > mid {
                                lemma_lex_lt_transitive(key@, at, self.buffer@[t].0.spec_key());
                            }
                        }
                    }
                    right = mid;
                },
                Order::Equal => {
                    return FoundIndex::Equal(mid);
                },
            }
        }
        FoundIndex::Less(left)
    }

    /// Brings the next pair of source `index` into the buffer. Where the
    /// buffer holds the key already, the pair of the source that comes first
    /// stays, and the source of the other pair is asked next, until a pair
    /// finds its place or the source that is asked is through.
    fn binary_insert(&mut self, index: usize, Ghost(started): Ghost<int>)
        requires
            old(self).inv(started, index as int),
            absent(old(self).buffer@, index as int),
            index < started <= old(self).iterators@.len(),
        ensures
            final(self).inv(started, -1),
            final(self).iterators@.len() == old(self).iterators@.len(),
            forall|i: int|
                started <= i < final(self).iterators@.len() ==> final(self).rests@[i] == old(
                    self,
                ).rests@[i] && absent(final(self).buffer@, i),
            forall|x: Pair| wins(final(self).rests@, x) <==> wins(old(self).rests@, x),
            total(final(self).rests@) <= total(old(self).rests@),
    {
        let mut cur: usize = index;
        loop
            invariant_except_break
                self.inv(started, cur as int),
                absent(self.buffer@, cur as int),
            invariant
                cur < started <= self.iterators@.len(),
                self.iterators@.len() == old(self).iterators@.len(),
                self.rests@.len() == old(self).rests@.len(),
                self.rests@.len() == self.iterators@.len(),
                forall|i: int|
                    started <= i < self.iterators@.len() ==> self.rests@[i] == old(self).rests@[i]
                        && absent(self.buffer@, i),
                forall|x: Pair| wins(self.rests@, x) <==> wins(old(self).rests@, x),
                total(self.rests@) <= total(old(self).rests@),
            ensures
                self.inv(started, -1),
            decreases total(self.rests@),
        {
            let ghost buffer = self.buffer@;
            let ghost iters = self.iterators@;
            let ghost runs = self.rests@;
            let item = match self.iterators[cur].next() {
                None => {
                    proof {
                        assert(self.iterators@ =~= iters.update(
                            cur as int,
                            self.iterators@[cur as int],
                        ));
                        lemma_source_through(buffer, iters, self.iterators@, runs, started, cur as int);
                    }
                    break;
                },
                Some(it) => it,
            };
            proof {
                assert(self.iterators@ =~= iters.update(cur as int, self.iterators@[cur as int]));
            }
            match self.binary_search(item.key()) {
                FoundIndex::Equal(insert_at) => {
                    let other: usize = self.buffer[insert_at].1;
                    if cur < other {
                        // higher priority: the pair takes the place, and the
                        // source that lost its place is asked next
                        let ghost entry = (item, cur);
                        self.buffer[insert_at] = (item, cur);
                        proof {
                            assert(self.buffer@ =~= buffer.update(insert_at as int, entry));
                            lemma_pair_replaced(
                                buffer,
                                self.buffer@,
                                iters,
                                self.iterators@,
                                runs,
                                started,
                                cur,
                                entry.0,
                                insert_at as int,
                            );
                            self.rests = Ghost(without_head(runs, other as int));
                            assert(entry_ok(buffer[insert_at as int], iters, runs, started, cur as int));
                            assert forall|i: int| started <= i < self.iterators@.len() implies absent(
                                self.buffer@,
                                i,
                            ) by {
                                assert forall|pos: int| 0 <= pos < self.buffer@.len() implies (
                                #[trigger] self.buffer@[pos]).1 != i by {
                                    if pos != insert_at {
                                        assert(self.buffer@[pos] == buffer[pos]);
                                    }
                                }
                            }
                        }
                        cur = other;
                    } else {
                        // lower priority: the pair is left out, and its
                        // source is asked again
                        proof {
                            lemma_pair_dropped(
                                buffer,
                                iters,
                                self.iterators@,
                                runs,
                                started,
                                cur,
                                item,
                                insert_at as int,
                            );
                            self.rests = Ghost(without_head(runs, cur as int));
                        }
                    }
                },
                FoundIndex::Less(insert_at) => {
                    let ghost entry = (item, cur);
                    self.buffer.insert(insert_at, (item, cur));
                    proof {
                        lemma_pair_placed(
                            buffer,
                            self.buffer@,
                            iters,
                            self.iterators@,
                            runs,
                            started,
                            cur,
                            entry.0,
                            insert_at as int,
                        );
                        assert forall|i: int| started <= i < self.iterators@.len() implies absent(
                            self.buffer@,
                            i,
                        ) by {
                            assert forall|pos: int| 0 <= pos < self.buffer@.len() implies (
                            #[trigger] self.buffer@[pos]).1 != i by {
                                if pos < insert_at {
                                    assert(self.buffer@[pos] == buffer[pos]);
                                } else if pos > insert_at {
                                    assert(self.buffer@[pos] == buffer[pos - 1]);
                                }
                            }
                        }
                    }
                    break;
                },
            }
        }
    }

    /// Create merged iterator: the first pair of each source comes into the
    /// buffer.
    pub fn new(iters: Vec<S>) -> (merger: Self)
        requires
            forall|i: int| 0 <= i < iters@.len() ==> (#[trigger] iters@[i]).wf(),
            forall|i: int| 0 <= i < iters@.len() ==> ascending((#[trigger] iters@[i]).remaining()),
        ensures
            merger.wf(),
            forall|x: Pair| wins(merger.pending(), x) <==> wins(remaining_of(iters@), x),
    {
        let mut iter = Self { iterators: iters, buffer: Vec::new(), rests: Ghost(remaining_of(iters@)) };
        let count: usize = iter.iterators.len();
        let mut index: usize = 0;
        proof {
            assert forall|i: int| 0 <= i < iters@.len() implies #[trigger] source_ok(
                iter.buffer@,
                iter.iterators@,
                iter.rests@,
                0,
                -1,
                i,
            ) by {}
        }
        while index < count
            invariant
                index <= count,
                count == iter.iterators@.len(),
                count == iters@.len(),
                iter.inv(index as int, -1),
                forall|x: Pair| wins(iter.rests@, x) <==> wins(remaining_of(iters@), x),
            decreases count - index,
        {
            proof {
                lemma_next_source(iter.buffer@, iter.iterators@, iter.rests@, index as int);
            }
            iter.binary_insert(index, Ghost(index + 1));
            index += 1;
        }
        iter
    }

    /// Yields the pair with the least key of all that the merge has yet to
    /// yield, and brings the next pair of its source into the buffer.
    pub fn next(&mut self) -> (item: Option<KvMergePointer<S::Pointer>>)
        requires
            old(self).wf(),
        ensures
            final(self).wf(),
            match item {
                None => {
                    &&& forall|x: Pair| !wins(old(self).pending(), x)
                    &&& final(self).pending() == old(self).pending()
                },
                Some(p) => {
                    &&& wins(old(self).pending(), pair_of(p))
                    &&& forall|x: Pair|
                        wins(old(self).pending(), x) ==> x == pair_of(p) || lex_lt(p.spec_key(), x.0)
                    &&& forall|x: Pair|
                        wins(final(self).pending(), x) <==> wins(old(self).pending(), x) && x
                            != pair_of(p)
                    &&& total(final(self).pending()) < total(old(self).pending())
                },
            },
    {
        // really nothing to take or else
        if self.buffer.len() == 0 {
            proof {
                lemma_all_through(self.buffer@, self.iterators@, self.rests@);
            }
            return None;
        }
        proof {
            lemma_pair_popped(self.buffer@, self.iterators@, self.rests@);
        }
        let (item, index) = self.buffer.remove(0);
        proof {
            self.rests = Ghost(without_head(self.rests@, index as int));
        }
        // fill the next in and leave
        self.binary_insert(index, Ghost(self.iterators@.len() as int));
        Some(KvMergePointer { _item: item })
    }

    /// Yields all pairs that the merge has yet to yield: the merge of what
    /// the sources have yet to give.
    pub fn collect(&mut self) -> (out: Vec<KvMergePointer<S::Pointer>>)
        requires
            old(self).wf(),
        ensures
            final(self).wf(),
            is_merge_of(crate::record::iterator::pairs_of(out@), old(self).pending()),
            forall|x: Pair| !wins(final(self).pending(), x),
    {
        let mut out: Vec<KvMergePointer<S::Pointer>> = Vec::new();
        let ghost start = self.rests@;
        loop
            invariant
                self.wf(),
                ascending(crate::record::iterator::pairs_of(out@)),
                forall|x: Pair|
                    wins(start, x) <==> in_run(crate::record::iterator::pairs_of(out@), x) || wins(
                        self.rests@,
                        x,
                    ),
                forall|t: int, y: Pair|
                    #![trigger out@[t], wins(self.rests@, y)]
                    0 <= t < out@.len() && wins(self.rests@, y) ==> lex_lt(out@[t].spec_key(), y.0),
            ensures
                forall|x: Pair| !wins(self.rests@, x),
            decreases total(self.rests@),
        {
            let ghost before = crate::record::iterator::pairs_of(out@);
            let ghost runs = self.rests@;
            let item = match self.next() {
                None => break,
                Some(item) => item,
            };
            let ghost pair = pair_of(item);
            out.push(item);
            proof {
                let now = crate::record::iterator::pairs_of(out@);
                assert(now =~= before.push(pair));
                assert forall|a: int, b: int| 0 <= a < b < now.len() implies lex_lt(
                    (#[trigger] now[a]).0,
                    (#[trigger] now[b]).0,
                ) by {
                    if b == now.len() - 1 {
                        assert(wins(runs, pair));
                        assert(lex_lt(out@[a].spec_key(), pair.0));
                    } else {
                        assert(lex_lt(before[a].0, before[b].0));
                    }
                }
                assert forall|x: Pair|
                    wins(start, x) <==> in_run(now, x) || wins(self.rests@, x) by {
                    if in_run(before, x) {
                        let t = choose|t: int| 0 <= t < before.len() && #[trigger] before[t] == x;
                        assert(now[t] == x);
                    }
                    if x == pair {
                        assert(now[now.len() - 1] == x);
                    }
                    if in_run(now, x) {
                        let t = choose|t: int| 0 <= t < now.len() && #[trigger] now[t] == x;
                        if t < before.len() {
                            assert(before[t] == x);
                        }
                    }
                }
                assert forall|t: int, y: Pair|
                    #![trigger out@[t], wins(self.rests@, y)]
                    0 <= t < out@.len() && wins(self.rests@, y) implies lex_lt(
                    out@[t].spec_key(),
                    y.0,
                ) by {
                    assert(wins(runs, y) && y != pair);
                    if t == out@.len() - 1 {
                    } else {
                        assert(out@[t].spec_key() == before[t].0);
                    }
                }
            }
        }
        out
    }
}

} // verus!
