//! The reordering buffer: absorbs bounded timestamp lateness so that the
//! monitors downstream see a stream sorted by timestamp.
//!
//! The buffer keeps a watermark, the largest timestamp pushed so far, and
//! releases a buffered record only once it is at least
//! `maximum_timestamp_error` seconds behind the watermark: by the lateness
//! tolerance no later arrival can then precede it.

use vstd::prelude::*;

use crate::records::RecordView;
use crate::records::RequestRecord;
use crate::sorted_by_ts;

verus! {

/// Views of a sequence of records.
pub open spec fn record_views(s: Seq<RequestRecord>) -> Seq<RecordView> {
    s.map_values(|r: RequestRecord| r@)
}

/// Abstract state of the reordering buffer.
pub ghost struct BufferState {
    pub buf: Seq<RecordView>,
    pub watermark: int,
}

/// The empty buffer. The watermark starts at zero, below every timestamp.
pub open spec fn buffer_init() -> BufferState {
    BufferState { buf: Seq::empty(), watermark: 0 }
}

/// Where a record of timestamp `t` is inserted: after every buffered
/// record whose timestamp is at most `t`, scanning from the back.
pub open spec fn insert_pos(buf: Seq<RecordView>, t: int) -> int
    decreases buf.len(),
{
    if buf.len() > 0 && buf.last().timestamp > t {
        insert_pos(buf.drop_last(), t)
    } else {
        buf.len() as int
    }
}

/// Pushing a record buffers it in timestamp order and lifts the watermark.
pub open spec fn buffer_push(st: BufferState, r: RecordView) -> BufferState {
    BufferState {
        buf: st.buf.insert(insert_pos(st.buf, r.timestamp), r),
        watermark: if r.timestamp > st.watermark {
            r.timestamp
        } else {
            st.watermark
        },
    }
}

/// A timestamp is ready for release when it is at least `err` behind the
/// watermark.
pub open spec fn ready(t: int, watermark: int, err: int) -> bool {
    watermark >= err && t <= watermark - err
}

/// Length of the longest ready prefix of the buffer.
pub open spec fn ready_prefix_len(buf: Seq<RecordView>, watermark: int, err: int) -> int
    decreases buf.len(),
{
    if buf.len() > 0 && ready(buf[0].timestamp, watermark, err) {
        1 + ready_prefix_len(buf.drop_first(), watermark, err)
    } else {
        0
    }
}

/// Draining releases the ready prefix, in ascending timestamp order.
pub open spec fn buffer_drain(st: BufferState, err: int) -> (BufferState, Seq<RecordView>) {
    let k = ready_prefix_len(st.buf, st.watermark, err);
    (
        BufferState { buf: st.buf.subrange(k, st.buf.len() as int), watermark: st.watermark },
        st.buf.subrange(0, k),
    )
}

/// State and total released output after pushing and draining every
/// record of `rs` in turn.
pub open spec fn reorder_run(rs: Seq<RecordView>, err: int) -> (BufferState, Seq<RecordView>)
    decreases rs.len(),
{
    if rs.len() == 0 {
        (buffer_init(), Seq::empty())
    } else {
        let prev = reorder_run(rs.drop_last(), err);
        let pushed = buffer_push(prev.0, rs.last());
        let drained = buffer_drain(pushed, err);
        (drained.0, prev.1 + drained.1)
    }
}

/// The full output of the buffer over a raw stream: everything released
/// while the stream ran, then the remaining buffered records at the end.
pub open spec fn reorder_spec(rs: Seq<RecordView>, err: int) -> Seq<RecordView> {
    let run = reorder_run(rs, err);
    run.1 + run.0.buf
}

/// Largest timestamp in `rs`, or zero for the empty sequence.
pub open spec fn max_ts(rs: Seq<RecordView>) -> int
    decreases rs.len(),
{
    if rs.len() == 0 {
        0
    } else if rs.last().timestamp > max_ts(rs.drop_last()) {
        rs.last().timestamp
    } else {
        max_ts(rs.drop_last())
    }
}

/// Every record lags at most `err` seconds behind the largest timestamp
/// seen before it: the lateness tolerance of the raw stream.
pub open spec fn tolerant(rs: Seq<RecordView>, err: int) -> bool {
    forall|i: int|
        0 <= i < rs.len() ==> #[trigger] rs[i].timestamp + err >= max_ts(rs.subrange(0, i))
}

/// The reordering buffer. Records go in nearly sorted and come out
/// sorted, as long as the raw stream honours the lateness tolerance.
pub struct ReorderingBuffer {
    buf: Vec<RequestRecord>,
    watermark: u64,
    maximum_timestamp_error: u64,
}

impl ReorderingBuffer {
    /// Abstract state.
    pub closed spec fn st(&self) -> BufferState {
        BufferState { buf: record_views(self.buf@), watermark: self.watermark as int }
    }

    /// The configured lateness tolerance.
    pub closed spec fn err(&self) -> int {
        self.maximum_timestamp_error as int
    }

    /// The buffered records stay sorted by timestamp.
    pub closed spec fn wf(&self) -> bool {
        sorted_by_ts(record_views(self.buf@))
    }

    /// An empty buffer with the given lateness tolerance.
    pub fn new(maximum_timestamp_error: u64) -> (r: Self)
        ensures
            r.st() == buffer_init(),
            r.err() == maximum_timestamp_error as int,
            r.wf(),
    {
        proof {
            assert(record_views(Seq::<RequestRecord>::empty()) =~= Seq::<RecordView>::empty());
        }
        ReorderingBuffer { buf: Vec::new(), watermark: 0, maximum_timestamp_error }
    }

    /// Accepts one raw record: buffers it in order and lifts the watermark.
    #[verifier::rlimit(50)]
    pub fn push(&mut self, r: RequestRecord)
        requires
            old(self).wf(),
        ensures
            final(self).st() == buffer_push(old(self).st(), r@),
            final(self).err() == old(self).err(),
            final(self).wf(),
    {
        let ghost old_views = record_views(self.buf@);
        let ghost t = r@.timestamp;
        let mut p: usize = self.buf.len();
        proof {
            assert(old_views.subrange(0, p as int) =~= old_views);
        }
        while p > 0 && self.buf[p - 1].timestamp > r.timestamp
            invariant
                0 <= p <= self.buf.len(),
                old_views == record_views(self.buf@),
                t == r@.timestamp,
                insert_pos(old_views, t) == insert_pos(old_views.subrange(0, p as int), t),
                forall|j: int| p <= j < old_views.len() ==> old_views[j].timestamp > t,
            decreases p,
        {
            proof {
                let pre = old_views.subrange(0, p as int);
                assert(old_views[p - 1] == self.buf@[p - 1]@);
                assert(old_views[p - 1].timestamp > t);
                assert(pre.last() == old_views[p - 1]);
                assert(pre.drop_last() =~= old_views.subrange(0, p - 1));
                assert(insert_pos(pre, t) == insert_pos(pre.drop_last(), t));
            }
            p -= 1;
        }
        proof {
            let pre = old_views.subrange(0, p as int);
            if p > 0 {
                assert(pre.last() == old_views[p - 1]);
            }
            assert(insert_pos(old_views, t) == p);
        }
        let rt = r.timestamp;
        self.buf.insert(p, r);
        if rt > self.watermark {
            self.watermark = rt;
        }
        proof {
            assert(record_views(self.buf@) =~= old_views.insert(p as int, r@));
            let nv = record_views(self.buf@);
            assert forall|i: int, j: int| 0 <= i <= j < nv.len() implies nv[i].timestamp
                <= nv[j].timestamp by {
                if i < p && j < p {
                } else if i > p && j > p {
                } else if i == p && j > p {
                    assert(nv[j] == old_views[j - 1]);
                } else if i < p && j == p {
                    assert(nv[i] == old_views[i]);
                    assert(old_views.subrange(0, p as int).last() == old_views[p - 1]);
                }
            }
        }
    }

    /// Releases, in ascending timestamp order, every buffered record that
    /// is at least the tolerance behind the watermark.
    pub fn drain_ready(&mut self) -> (out: Vec<RequestRecord>)
        requires
            old(self).wf(),
        ensures
            final(self).st() == buffer_drain(old(self).st(), old(self).err()).0,
            record_views(out@) == buffer_drain(old(self).st(), old(self).err()).1,
            final(self).err() == old(self).err(),
            final(self).wf(),
    {
        let ghost old_views = record_views(self.buf@);
        let ghost wm = self.watermark as int;
        let ghost err = self.maximum_timestamp_error as int;
        let mut out: Vec<RequestRecord> = Vec::new();
        proof {
            assert(record_views(out@) + record_views(self.buf@) =~= old_views);
        }
        while self.buf.len() > 0 && self.watermark >= self.maximum_timestamp_error
            && self.buf[0].timestamp <= self.watermark - self.maximum_timestamp_error
            invariant
                self.watermark as int == wm,
                self.maximum_timestamp_error as int == err,
                record_views(out@) + record_views(self.buf@) == old_views,
                ready_prefix_len(old_views, wm, err) == out@.len() + ready_prefix_len(
                    record_views(self.buf@),
                    wm,
                    err,
                ),
                sorted_by_ts(record_views(self.buf@)),
            decreases self.buf.len(),
        {
            let ghost pre = record_views(self.buf@);
            proof {
                assert(ready(pre[0].timestamp, wm, err));
                assert(ready_prefix_len(pre, wm, err) == 1 + ready_prefix_len(
                    pre.drop_first(),
                    wm,
                    err,
                ));
            }
            let r = self.buf.remove(0);
            out.push(r);
            proof {
                assert(record_views(self.buf@) =~= pre.drop_first());
                assert(record_views(out@) + record_views(self.buf@) =~= old_views);
                assert(sorted_by_ts(record_views(self.buf@)));
            }
        }
        proof {
            let cur = record_views(self.buf@);
            assert(ready_prefix_len(cur, wm, err) == 0);
            let k = ready_prefix_len(old_views, wm, err);
            assert(k == out@.len());
            assert(record_views(out@) =~= old_views.subrange(0, k));
            assert(cur =~= old_views.subrange(k, old_views.len() as int));
        }
        out
    }

    /// Releases every remaining buffered record, in ascending timestamp
    /// order; called once the raw stream is exhausted.
    pub fn finish(&mut self) -> (out: Vec<RequestRecord>)
        requires
            old(self).wf(),
        ensures
            record_views(out@) == old(self).st().buf,
            final(self).st().buf == Seq::<RecordView>::empty(),
            final(self).wf(),
    {
        let ghost old_views = record_views(self.buf@);
        let mut out: Vec<RequestRecord> = Vec::new();
        proof {
            assert(record_views(out@) + record_views(self.buf@) =~= old_views);
        }
        while self.buf.len() > 0
            invariant
                record_views(out@) + record_views(self.buf@) == old_views,
            decreases self.buf.len(),
        {
            let ghost pre = record_views(self.buf@);
            let r = self.buf.remove(0);
            out.push(r);
            proof {
                assert(record_views(self.buf@) =~= pre.drop_first());
                assert(record_views(out@) + record_views(self.buf@) =~= old_views);
            }
        }
        proof {
            assert(record_views(self.buf@) =~= Seq::<RecordView>::empty());
            assert(record_views(out@) =~= old_views);
        }
        out
    }
}

/// Feeds a whole raw stream through a fresh reordering buffer: push and
/// drain for each record, then release the rest.
pub fn reorder(records: Vec<RequestRecord>, maximum_timestamp_error: u64) -> (out: Vec<
    RequestRecord,
>)
    ensures
        record_views(out@) == reorder_spec(record_views(records@), maximum_timestamp_error as int),
{
    let ghost orig = record_views(records@);
    let ghost err = maximum_timestamp_error as int;
    let mut records = records;
    let mut buffer = ReorderingBuffer::new(maximum_timestamp_error);
    let mut out: Vec<RequestRecord> = Vec::new();
    proof {
        assert(record_views(records@).subrange(0, 0) =~= Seq::<RecordView>::empty());
        assert(reorder_run(Seq::<RecordView>::empty(), err).0 == buffer_init());
        assert(record_views(out@) =~= Seq::<RecordView>::empty());
        assert(reorder_run(orig.subrange(0, 0), err).1 =~= Seq::<RecordView>::empty());
    }
    let ghost mut i: int = 0;
    while records.len() > 0
        invariant
            0 <= i <= orig.len(),
            records@.len() == orig.len() - i,
            record_views(records@) == orig.subrange(i, orig.len() as int),
            buffer.st() == reorder_run(orig.subrange(0, i), err).0,
            record_views(out@) == reorder_run(orig.subrange(0, i), err).1,
            buffer.err() == err,
            buffer.wf(),
        decreases records.len(),
    {
        let ghost pre = record_views(records@);
        let r = records.remove(0);
        proof {
            assert(record_views(records@) =~= pre.drop_first());
            assert(r@ == pre[0]);
            assert(r@ == orig[i]);
            assert(record_views(records@) =~= orig.subrange(i + 1, orig.len() as int));
        }
        buffer.push(r);
        let mut released = buffer.drain_ready();
        out.append(&mut released);
        proof {
            let prefix = orig.subrange(0, i);
            let prefix2 = orig.subrange(0, i + 1);
            assert(prefix2.drop_last() =~= prefix);
            assert(prefix2.last() == orig[i]);
            assert(record_views(out@) =~= reorder_run(prefix2, err).1);
            i = i + 1;
        }
    }
    let mut rest = buffer.finish();
    out.append(&mut rest);
    proof {
        assert(orig.subrange(0, orig.len() as int) =~= orig);
        assert(record_views(out@) =~= reorder_spec(orig, err));
    }
    out
}


/// Facts about the insertion position in a sorted buffer: everything
/// before it is at most `t`, everything from it on is greater.
proof fn lemma_insert_pos_props(buf: Seq<RecordView>, t: int)
    requires
        sorted_by_ts(buf),
    ensures
        0 <= insert_pos(buf, t) <= buf.len(),
        forall|j: int| 0 <= j < insert_pos(buf, t) ==> buf[j].timestamp <= t,
        forall|j: int| insert_pos(buf, t) <= j < buf.len() ==> buf[j].timestamp > t,
    decreases buf.len(),
{
    if buf.len() > 0 && buf.last().timestamp > t {
        assert(sorted_by_ts(buf.drop_last())) by {
            assert(forall|i: int, j: int|
                0 <= i <= j < buf.len() - 1 ==> buf.drop_last()[i].timestamp
                    <= buf.drop_last()[j].timestamp);
        }
        lemma_insert_pos_props(buf.drop_last(), t);
        assert(forall|j: int|
            0 <= j < buf.len() - 1 ==> buf[j] == buf.drop_last()[j]);
    } else if buf.len() > 0 {
        assert forall|j: int| 0 <= j < insert_pos(buf, t) implies buf[j].timestamp <= t by {
            assert(buf[j].timestamp <= buf[buf.len() - 1].timestamp);
        }
    }
}

/// Inserting at the insertion position keeps the buffer sorted.
proof fn lemma_insert_sorted(buf: Seq<RecordView>, r: RecordView)
    requires
        sorted_by_ts(buf),
    ensures
        sorted_by_ts(buf.insert(insert_pos(buf, r.timestamp), r)),
{
    let p = insert_pos(buf, r.timestamp);
    lemma_insert_pos_props(buf, r.timestamp);
    let nv = buf.insert(p, r);
    assert forall|i: int, j: int| 0 <= i <= j < nv.len() implies nv[i].timestamp
        <= nv[j].timestamp by {
        if i < p && j < p {
            assert(nv[i] == buf[i] && nv[j] == buf[j]);
        } else if i > p && j > p {
            assert(nv[i] == buf[i - 1] && nv[j] == buf[j - 1]);
        } else if i == p && j > p {
            assert(nv[j] == buf[j - 1]);
        } else if i < p && j == p {
            assert(nv[i] == buf[i]);
        } else if i < p && j > p {
            assert(nv[i] == buf[i] && nv[j] == buf[j - 1]);
        }
    }
}

/// Facts about the ready prefix: its members are ready, and the record
/// right after it, if any, is not.
proof fn lemma_ready_prefix(buf: Seq<RecordView>, wm: int, err: int)
    ensures
        0 <= ready_prefix_len(buf, wm, err) <= buf.len(),
        forall|j: int|
            0 <= j < ready_prefix_len(buf, wm, err) ==> ready(#[trigger] buf[j].timestamp, wm, err),
        ready_prefix_len(buf, wm, err) < buf.len() ==> !ready(
            buf[ready_prefix_len(buf, wm, err)].timestamp,
            wm,
            err,
        ),
    decreases buf.len(),
{
    if buf.len() > 0 && ready(buf[0].timestamp, wm, err) {
        lemma_ready_prefix(buf.drop_first(), wm, err);
        let k = ready_prefix_len(buf, wm, err);
        assert forall|j: int| 0 <= j < k implies ready(#[trigger] buf[j].timestamp, wm, err) by {
            if j > 0 {
                assert(buf.drop_first()[j - 1] == buf[j]);
                assert(ready(buf.drop_first()[j - 1].timestamp, wm, err));
            }
        }
        if k < buf.len() {
            assert(buf.drop_first()[k - 1] == buf[k]);
        }
    }
}

/// The running invariants of the buffer over a whole raw stream: the
/// buffered records stay sorted, the watermark tracks the maximum
/// timestamp, nothing is dropped or duplicated, and under the lateness
/// tolerance the released output is sorted and separated from the
/// buffered remainder by the watermark rule.
proof fn lemma_reorder_run_inv(rs: Seq<RecordView>, err: int)
    ensures
        ({
            let run = reorder_run(rs, err);
            &&& sorted_by_ts(run.0.buf)
            &&& run.0.watermark == max_ts(rs)
            &&& (run.1 + run.0.buf).to_multiset() == rs.to_multiset()
            &&& (err >= 0 && tolerant(rs, err) ==> {
                &&& sorted_by_ts(run.1)
                &&& (forall|i: int|
                    0 <= i < run.1.len() ==> ready(
                        #[trigger] run.1[i].timestamp,
                        run.0.watermark,
                        err,
                    ))
                &&& (forall|i: int|
                    0 <= i < run.0.buf.len() ==> !ready(
                        #[trigger] run.0.buf[i].timestamp,
                        run.0.watermark,
                        err,
                    ))
            })
        }),
    decreases rs.len(),
{
    broadcast use vstd::seq_lib::group_to_multiset_ensures;
    broadcast use vstd::seq_lib::lemma_multiset_commutative;

    if rs.len() == 0 {
        let run = reorder_run(rs, err);
        assert(run.1 + run.0.buf =~= Seq::<RecordView>::empty());
        assert((run.1 + run.0.buf).to_multiset() =~= rs.to_multiset()) by {
            assert(rs =~= Seq::<RecordView>::empty());
        }
    } else {
        let s = rs.drop_last();
        let r = rs.last();
        lemma_reorder_run_inv(s, err);
        let prev = reorder_run(s, err);
        let st0 = prev.0;
        let out0 = prev.1;
        let st1 = buffer_push(st0, r);
        let p = insert_pos(st0.buf, r.timestamp);
        lemma_insert_pos_props(st0.buf, r.timestamp);
        lemma_insert_sorted(st0.buf, r);
        let k = ready_prefix_len(st1.buf, st1.watermark, err);
        lemma_ready_prefix(st1.buf, st1.watermark, err);
        let drained = buffer_drain(st1, err);
        let st2 = drained.0;
        let rel = drained.1;
        let run = reorder_run(rs, err);
        assert(run.0 == st2 && run.1 == out0 + rel);

        // The watermark tracks the running maximum.
        assert(st2.watermark == max_ts(rs));

        // The remaining buffer is a sorted suffix of the pushed buffer.
        assert(sorted_by_ts(st2.buf)) by {
            assert(forall|i: int|
                0 <= i < st2.buf.len() ==> st2.buf[i] == st1.buf[i + k]);
        }

        // Permutation: the push inserts exactly `r`, the drain moves
        // records from the buffer to the output.
        assert(st1.buf =~= rel + st2.buf);
        assert(st1.buf == st0.buf.insert(p, r));
        assert(st1.buf.to_multiset() == st0.buf.to_multiset().insert(r));
        assert((out0 + st0.buf).to_multiset() == out0.to_multiset().add(st0.buf.to_multiset()));
        assert(rel.to_multiset().add(st2.buf.to_multiset()) == st1.buf.to_multiset());
        assert(run.1 + run.0.buf =~= out0 + (rel + st2.buf));
        assert((out0 + (rel + st2.buf)).to_multiset() == out0.to_multiset().add(
            (rel + st2.buf).to_multiset(),
        ));
        assert(rs =~= s.push(r));
        assert(rs.to_multiset() == s.to_multiset().insert(r));
        assert((run.1 + run.0.buf).to_multiset() =~= rs.to_multiset());

        if err >= 0 && tolerant(rs, err) {
            assert(tolerant(s, err)) by {
                assert(forall|i: int| 0 <= i < s.len() ==> rs.subrange(0, i) =~= s.subrange(0, i));
                assert(forall|i: int| 0 <= i < s.len() ==> s[i] == rs[i]);
            }
            // The new record is no further than `err` behind the old
            // watermark.
            assert(r.timestamp + err >= st0.watermark) by {
                assert(rs.subrange(0, rs.len() - 1) =~= s);
                assert(rs[rs.len() - 1].timestamp + err >= max_ts(rs.subrange(0, rs.len() - 1)));
            }
            // Earlier output precedes everything in the pushed buffer.
            assert forall|i: int, j: int|
                0 <= i < out0.len() && 0 <= j < st1.buf.len() implies out0[i].timestamp
                <= st1.buf[j].timestamp by {
                assert(ready(out0[i].timestamp, st0.watermark, err));
                if j < p {
                    assert(st1.buf[j] == st0.buf[j]);
                    assert(!ready(st0.buf[j].timestamp, st0.watermark, err));
                } else if j == p {
                    assert(st1.buf[j] == r);
                } else {
                    assert(st1.buf[j] == st0.buf[j - 1]);
                    assert(!ready(st0.buf[j - 1].timestamp, st0.watermark, err));
                }
            }
            // The released records are sorted; earlier output precedes
            // them.
            assert(sorted_by_ts(rel)) by {
                assert(forall|i: int| 0 <= i < k ==> rel[i] == st1.buf[i]);
            }
            assert(sorted_by_ts(out0 + rel)) by {
                assert(forall|i: int| 0 <= i < out0.len() ==> (out0 + rel)[i] == out0[i]);
                assert(forall|j: int|
                    out0.len() <= j < out0.len() + rel.len() ==> (out0 + rel)[j] == rel[j
                        - out0.len()]);
                assert(forall|j: int| 0 <= j < k ==> rel[j] == st1.buf[j]);
            }
            // Output stays ready as the watermark only grows; the
            // remainder is not ready.
            assert(st2.watermark >= st0.watermark);
            assert forall|i: int| 0 <= i < run.1.len() implies ready(
                #[trigger] run.1[i].timestamp,
                st2.watermark,
                err,
            ) by {
                assert(forall|i: int| 0 <= i < out0.len() ==> (out0 + rel)[i] == out0[i]);
                assert(forall|j: int|
                    out0.len() <= j < out0.len() + rel.len() ==> (out0 + rel)[j] == rel[j
                        - out0.len()]);
                assert(forall|j: int| 0 <= j < k ==> rel[j] == st1.buf[j]);
                if i < out0.len() {
                    assert(ready(out0[i].timestamp, st0.watermark, err));
                }
            }
            assert forall|i: int| 0 <= i < st2.buf.len() implies !ready(
                #[trigger] st2.buf[i].timestamp,
                st2.watermark,
                err,
            ) by {
                assert(st2.buf[i] == st1.buf[i + k]);
                assert(sorted_by_ts(st1.buf));
                if k < st1.buf.len() {
                    assert(!ready(st1.buf[k as int].timestamp, st1.watermark, err));
                    assert(st1.buf[k as int].timestamp <= st1.buf[i + k].timestamp);
                }
            }
        }
    }
}

/// The buffer drops no record and duplicates none: over any raw stream,
/// its full output is a permutation of the input.
pub proof fn lemma_reorder_permutation(rs: Seq<RecordView>, err: int)
    ensures
        reorder_spec(rs, err).to_multiset() == rs.to_multiset(),
{
    broadcast use vstd::seq_lib::lemma_multiset_commutative;

    lemma_reorder_run_inv(rs, err);
}

/// Under the lateness tolerance, the buffer's full output is sorted
/// non-decreasing by timestamp.
pub proof fn lemma_reorder_sorted(rs: Seq<RecordView>, err: int)
    requires
        err >= 0,
        tolerant(rs, err),
    ensures
        sorted_by_ts(reorder_spec(rs, err)),
{
    lemma_reorder_run_inv(rs, err);
    let run = reorder_run(rs, err);
    let out = run.1;
    let buf = run.0.buf;
    let all = reorder_spec(rs, err);
    assert forall|i: int, j: int| 0 <= i <= j < all.len() implies all[i].timestamp
        <= all[j].timestamp by {
        if j < out.len() {
            assert(all[i] == out[i] && all[j] == out[j]);
        } else if i >= out.len() {
            assert(all[i] == buf[i - out.len()] && all[j] == buf[j - out.len()]);
        } else {
            assert(all[i] == out[i] && all[j] == buf[j - out.len()]);
            assert(ready(out[i].timestamp, run.0.watermark, err));
            assert(!ready(buf[j - out.len()].timestamp, run.0.watermark, err));
        }
    }
}

} // verus!
