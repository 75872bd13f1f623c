//! The chunked stats monitor: one traffic summary per fixed-length time
//! bucket, aligned to the first record seen.
//!
//! Buckets are half-open intervals `[bucket_start, bucket_start + w)`.
//! A record at or past the current bucket's end closes that bucket — and
//! any empty buckets a silent gap spans — emitting one summary each.

use vstd::prelude::*;

use crate::records::Config;
use crate::records::RecordView;
use crate::records::RequestRecord;
use crate::records::bytes_eq;
use crate::records::clone_bytes;
use crate::records::lemma_filter_none;
use crate::records::lemma_filter_push;
use crate::records::bytes_lt;
use crate::records::lemma_lex_trichotomy;
use crate::records::lex_lt;
use crate::records::section_of;
use crate::records::section_of_resource;
use crate::sorted_by_ts;

verus! {

/// Abstract state of the stats monitor: whether a first record was
/// seen, the current bucket's lower bound, and the records accumulated
/// in the current bucket.
pub ghost struct StatsState {
    pub started: bool,
    pub bucket_start: int,
    pub bucket: Seq<RecordView>,
}

/// View of one bucket summary.
pub ghost struct SummaryView {
    pub start: int,
    pub end: int,
    pub count: int,
    pub total_bytes: int,
    pub top_section: Option<Seq<u8>>,
}

/// One emitted bucket summary: the bucket bounds, the number of
/// requests, the bytes total, and the busiest section (absent for an
/// empty bucket).
pub struct BucketSummary {
    pub start: u64,
    pub end: u128,
    pub count: u64,
    pub total_bytes: u128,
    pub top_section: Option<Vec<u8>>,
}

impl View for BucketSummary {
    type V = SummaryView;

    open spec fn view(&self) -> SummaryView {
        SummaryView {
            start: self.start as int,
            end: self.end as int,
            count: self.count as int,
            total_bytes: self.total_bytes as int,
            top_section: match self.top_section {
                Some(s) => Some(s@),
                None => None,
            },
        }
    }
}

/// Views of a sequence of summaries.
pub open spec fn summaries_view(v: Seq<BucketSummary>) -> Seq<SummaryView> {
    v.map_values(|b: BucketSummary| b@)
}

/// The monitor before any record was seen.
pub open spec fn stats_init() -> StatsState {
    StatsState { started: false, bucket_start: 0, bucket: Seq::empty() }
}

/// Total bytes over a bucket's records.
pub open spec fn sum_bytes(rs: Seq<RecordView>) -> int
    decreases rs.len(),
{
    if rs.len() == 0 {
        0
    } else {
        sum_bytes(rs.drop_last()) + rs.last().bytes
    }
}

/// How many of the records fall in section `s`.
pub open spec fn sec_count(rs: Seq<RecordView>, s: Seq<u8>) -> int {
    rs.filter(|r: RecordView| section_of(r.resource) == s).len() as int
}

/// Some record of `rs` falls in section `s`.
pub open spec fn occurs(rs: Seq<RecordView>, s: Seq<u8>) -> bool {
    exists|i: int| 0 <= i < rs.len() && section_of(#[trigger] rs[i].resource) == s
}

/// `s` is the busiest section of `rs`: it occurs, and any other
/// occurring section either has a smaller count or ties and is
/// lexicographically larger.
pub open spec fn is_top_section(rs: Seq<RecordView>, s: Seq<u8>) -> bool {
    occurs(rs, s) && forall|u: Seq<u8>|
        occurs(rs, u) && u != s ==> sec_count(rs, u) < sec_count(rs, s) || (sec_count(rs, u)
            == sec_count(rs, s) && lex_lt(s, u))
}

/// The busiest section of a non-empty bucket.
pub open spec fn top_section_of(rs: Seq<RecordView>) -> Seq<u8> {
    choose|s: Seq<u8>| is_top_section(rs, s)
}

/// The busiest section is unique, by trichotomy of the lexicographic
/// tie-break.
pub proof fn lemma_top_section_unique(rs: Seq<RecordView>, s: Seq<u8>)
    requires
        is_top_section(rs, s),
    ensures
        top_section_of(rs) == s,
{
    let c = top_section_of(rs);
    assert(is_top_section(rs, c));
    if c != s {
        lemma_lex_trichotomy(s, c);
        assert(false);
    }
}

/// The summary of the bucket `[bs, bs + w)` holding the records `rs`.
pub open spec fn mk_summary(bs: int, w: int, rs: Seq<RecordView>) -> SummaryView {
    SummaryView {
        start: bs,
        end: bs + w,
        count: rs.len() as int,
        total_bytes: sum_bytes(rs),
        top_section: if rs.len() == 0 {
            None
        } else {
            Some(top_section_of(rs))
        },
    }
}

/// One push. The first record ever starts the first bucket. A record
/// before the current bucket's end only accumulates. A record at or
/// past it closes `k` buckets — the current one, then `k - 1` empty
/// ones — and starts the bucket containing the record.
pub open spec fn stats_step(st: StatsState, r: RecordView, w: int) -> (StatsState, Seq<
    SummaryView,
>) {
    if !st.started {
        (StatsState { started: true, bucket_start: r.timestamp, bucket: seq![r] }, Seq::empty())
    } else if r.timestamp < st.bucket_start + w {
        (StatsState { started: true, bucket_start: st.bucket_start, bucket: st.bucket.push(r) },
        Seq::empty())
    } else {
        let k = (r.timestamp - st.bucket_start) / w;
        (
            StatsState {
                started: true,
                bucket_start: st.bucket_start + k * w,
                bucket: seq![r],
            },
            Seq::new(
                k as nat,
                |i: int|
                    if i == 0 {
                        mk_summary(st.bucket_start, w, st.bucket)
                    } else {
                        mk_summary(st.bucket_start + i * w, w, Seq::empty())
                    },
            ),
        )
    }
}

/// State and emitted summaries after pushing every record of `rs`.
pub open spec fn stats_run(rs: Seq<RecordView>, w: int) -> (StatsState, Seq<SummaryView>)
    decreases rs.len(),
{
    if rs.len() == 0 {
        (stats_init(), Seq::empty())
    } else {
        let prev = stats_run(rs.drop_last(), w);
        let step = stats_step(prev.0, rs.last(), w);
        (step.0, prev.1 + step.1)
    }
}

/// What the end-of-stream flush emits: the summary of the current,
/// possibly partial, bucket, if it accumulated at least one record.
pub open spec fn stats_flush(st: StatsState, w: int) -> Seq<SummaryView> {
    if st.started && st.bucket.len() > 0 {
        seq![mk_summary(st.bucket_start, w, st.bucket)]
    } else {
        Seq::empty()
    }
}

/// All summaries the monitor emits over a stream, flush included.
pub open spec fn stats_outputs(rs: Seq<RecordView>, w: int) -> Seq<SummaryView> {
    stats_run(rs, w).1 + stats_flush(stats_run(rs, w).0, w)
}

/// The current bucket never holds more records than were pushed.
pub proof fn lemma_stats_run_bucket_len(rs: Seq<RecordView>, w: int)
    ensures
        stats_run(rs, w).0.bucket.len() <= rs.len(),
    decreases rs.len(),
{
    if rs.len() > 0 {
        lemma_stats_run_bucket_len(rs.drop_last(), w);
    }
}


/// Sum over a pushed record.
proof fn lemma_sum_bytes_push(rs: Seq<RecordView>, r: RecordView)
    ensures
        sum_bytes(rs.push(r)) == sum_bytes(rs) + r.bytes,
{
    assert(rs.push(r).drop_last() =~= rs);
    assert(rs.push(r).last() == r);
}

/// Bytes totals stay within `len * u64::MAX`.
proof fn lemma_sum_bytes_bound(rs: Seq<RecordView>)
    requires
        forall|i: int| 0 <= i < rs.len() ==> 0 <= #[trigger] rs[i].bytes <= u64::MAX,
    ensures
        0 <= sum_bytes(rs) <= rs.len() * (u64::MAX as int),
    decreases rs.len(),
{
    if rs.len() > 0 {
        lemma_sum_bytes_bound(rs.drop_last());
        assert((rs.len() - 1) * (u64::MAX as int) + (u64::MAX as int) == rs.len() * (
        u64::MAX as int)) by (nonlinear_arith);
    }
}

/// How a push changes a section's count.
proof fn lemma_sec_count_push(rs: Seq<RecordView>, r: RecordView, s: Seq<u8>)
    ensures
        sec_count(rs.push(r), s) == sec_count(rs, s) + if section_of(r.resource) == s {
            1int
        } else {
            0int
        },
{
    reveal_with_fuel(Seq::filter, 3);
    let pred = |x: RecordView| section_of(x.resource) == s;
    assert(rs.push(r) =~= rs + seq![r]);
    Seq::<RecordView>::filter_distributes_over_add(rs, seq![r], pred);
    assert(seq![r].drop_last() =~= Seq::<RecordView>::empty());
    assert(seq![r].filter(pred).len() == if pred(r) {
        1int
    } else {
        0int
    });
}

/// How a push changes which sections occur.
proof fn lemma_occurs_push(rs: Seq<RecordView>, r: RecordView, s: Seq<u8>)
    ensures
        occurs(rs.push(r), s) == (occurs(rs, s) || section_of(r.resource) == s),
{
    let ns = rs.push(r);
    if occurs(rs, s) {
        let i = choose|i: int| 0 <= i < rs.len() && section_of(#[trigger] rs[i].resource) == s;
        assert(section_of(ns[i].resource) == s);
    }
    if section_of(r.resource) == s {
        assert(section_of(ns[rs.len() as int].resource) == s);
    }
    if occurs(ns, s) {
        let i = choose|i: int| 0 <= i < ns.len() && section_of(#[trigger] ns[i].resource) == s;
        if i < rs.len() {
            assert(section_of(rs[i].resource) == s);
        }
    }
}

/// A section that never occurs has count zero.
proof fn lemma_not_occurs_count_zero(rs: Seq<RecordView>, s: Seq<u8>)
    requires
        !occurs(rs, s),
    ensures
        sec_count(rs, s) == 0,
    decreases rs.len(),
{
    reveal_with_fuel(Seq::filter, 2);
    if rs.len() > 0 {
        assert(!occurs(rs.drop_last(), s)) by {
            if occurs(rs.drop_last(), s) {
                let i = choose|i: int|
                    0 <= i < rs.len() - 1 && section_of(
                        #[trigger] rs.drop_last()[i].resource,
                    ) == s;
                assert(section_of(rs[i].resource) == s);
            }
        }
        lemma_not_occurs_count_zero(rs.drop_last(), s);
        lemma_sec_count_push(rs.drop_last(), rs.last(), s);
        assert(rs.drop_last().push(rs.last()) =~= rs);
        assert(section_of(rs[rs.len() - 1].resource) != s);
    } else {
        assert(rs =~= Seq::<RecordView>::empty());
    }
}

/// A section's count never exceeds the bucket's size.
proof fn lemma_sec_count_le_len(rs: Seq<RecordView>, s: Seq<u8>)
    ensures
        0 <= sec_count(rs, s) <= rs.len(),
{
    broadcast use vstd::seq_lib::group_filter_ensures;

}

/// Finds the row of a section in the table, if present.
fn find_section(sections: &Vec<(Vec<u8>, u64)>, sec: &Vec<u8>) -> (r: Option<usize>)
    ensures
        match r {
            Some(i) => 0 <= i < sections@.len() && sections@[i as int].0@ == sec@,
            None => forall|j: int| 0 <= j < sections@.len() ==> (#[trigger] sections@[j]).0@ != sec@,
        },
{
    let mut i: usize = 0;
    while i < sections.len()
        invariant
            0 <= i <= sections@.len(),
            forall|j: int| 0 <= j < i ==> (#[trigger] sections@[j]).0@ != sec@,
        decreases sections@.len() - i,
    {
        if bytes_eq(&sections[i].0, sec) {
            return Some(i);
        }
        i += 1;
    }
    None
}

/// The chunked stats monitor.
pub struct ChunkedStatsMonitor {
    started: bool,
    bucket_start: u64,
    count: u64,
    total_bytes: u128,
    /// Requests per section of the current bucket; keys are distinct.
    sections: Vec<(Vec<u8>, u64)>,
    stats_window: u64,
    /// The records of the current bucket.
    bucket: Ghost<Seq<RecordView>>,
}

impl ChunkedStatsMonitor {
    /// Abstract state.
    pub closed spec fn st(&self) -> StatsState {
        StatsState {
            started: self.started,
            bucket_start: self.bucket_start as int,
            bucket: self.bucket@,
        }
    }

    /// The configured bucket length in seconds.
    pub closed spec fn w(&self) -> int {
        self.stats_window as int
    }

    /// The accumulators agree with the ghost bucket, and the section
    /// table is exactly the bucket's sections with their counts.
    pub closed spec fn wf(&self) -> bool {
        &&& self.stats_window >= 1
        &&& self.count as int == self.bucket@.len() as int
        &&& (!self.started ==> self.bucket@.len() == 0)
        &&& self.total_bytes as int == sum_bytes(self.bucket@)
        &&& (forall|i: int|
            0 <= i < self.bucket@.len() ==> 0 <= #[trigger] self.bucket@[i].bytes <= u64::MAX)
        &&& (forall|p: int, q: int|
            0 <= p < q < self.sections@.len() ==> (#[trigger] self.sections@[p]).0@ != (
            #[trigger] self.sections@[q]).0@)
        &&& (forall|p: int|
            0 <= p < self.sections@.len() ==> occurs(self.bucket@, (
            #[trigger] self.sections@[p]).0@) && sec_count(self.bucket@, self.sections@[p].0@)
                == self.sections@[p].1 as int)
        &&& (forall|s: Seq<u8>|
            occurs(self.bucket@, s) ==> exists|p: int|
                0 <= p < self.sections@.len() && (#[trigger] self.sections@[p]).0@ == s)
    }

    /// A fresh monitor; no record seen yet.
    pub fn from_config(config: &Config) -> (r: Self)
        requires
            config.wf(),
        ensures
            r.st() == stats_init(),
            r.w() == config.stats_window as int,
            r.wf(),
    {
        ChunkedStatsMonitor {
            started: false,
            bucket_start: 0,
            count: 0,
            total_bytes: 0,
            sections: Vec::new(),
            stats_window: config.stats_window,
            bucket: Ghost(Seq::empty()),
        }
    }

    /// The busiest section of the current, non-empty bucket.
    fn top_section(&self) -> (r: Vec<u8>)
        requires
            self.wf(),
            self.st().bucket.len() > 0,
        ensures
            r@ == top_section_of(self.st().bucket),
    {
        proof {
            let b = self.bucket@;
            assert(occurs(b, section_of(b[0].resource)));
            let p0 = choose|p: int|
                0 <= p < self.sections@.len() && (#[trigger] self.sections@[p]).0@ == section_of(
                    b[0].resource,
                );
            assert(self.sections@.len() > 0);
        }
        let mut best: usize = 0;
        let mut i: usize = 1;
        while i < self.sections.len()
            invariant
                self.wf(),
                self.sections@.len() > 0,
                0 <= best < i <= self.sections@.len(),
                forall|j: int|
                    0 <= j < i && j != best ==> (#[trigger] self.sections@[j]).1 < self.sections@[
                        best as int].1 || (self.sections@[j].1 == self.sections@[best as int].1
                        && lex_lt(self.sections@[best as int].0@, self.sections@[j].0@)),
            decreases self.sections@.len() - i,
        {
            let better = self.sections[i].1 > self.sections[best].1 || (self.sections[i].1
                == self.sections[best].1 && bytes_lt(&self.sections[i].0, &self.sections[best].0));
            let ghost old_best = best as int;
            if better {
                best = i;
            }
            proof {
                lemma_lex_trichotomy(self.sections@[old_best].0@, self.sections@[i as int].0@);
                if better {
                    assert forall|j: int| 0 <= j < i + 1 && j != best implies (
                    #[trigger] self.sections@[j]).1 < self.sections@[best as int].1 || (
                    self.sections@[j].1 == self.sections@[best as int].1 && lex_lt(
                        self.sections@[best as int].0@,
                        self.sections@[j].0@,
                    )) by {
                        if j != old_best && j < i {
                            if self.sections@[j].1 == self.sections@[old_best].1
                                && self.sections@[old_best].1 == self.sections@[best as int].1 {
                                crate::records::lemma_lex_transitive(
                                    self.sections@[best as int].0@,
                                    self.sections@[old_best].0@,
                                    self.sections@[j].0@,
                                );
                            }
                        }
                    }
                }
            }
            i += 1;
        }
        let r = clone_bytes(&self.sections[best].0);
        proof {
            let b = self.bucket@;
            assert forall|u: Seq<u8>| occurs(b, u) && u != r@ implies sec_count(b, u) < sec_count(
                b,
                r@,
            ) || (sec_count(b, u) == sec_count(b, r@) && lex_lt(r@, u)) by {
                let p = choose|p: int|
                    0 <= p < self.sections@.len() && (#[trigger] self.sections@[p]).0@ == u;
                assert(self.sections@[p].1 as int == sec_count(b, u));
                assert(p != best as int);
            }
            assert(is_top_section(b, r@));
            lemma_top_section_unique(b, r@);
        }
        r
    }

    /// Closes the current bucket: emits its summary and resets the
    /// accumulators for the next bucket.
    fn emit_current(&mut self) -> (out: BucketSummary)
        requires
            old(self).wf(),
            old(self).st().started,
        ensures
            final(self).wf(),
            out@ == mk_summary(old(self).st().bucket_start, old(self).w(), old(self).st().bucket),
            final(self).st() == (StatsState {
                started: true,
                bucket_start: old(self).st().bucket_start,
                bucket: Seq::<RecordView>::empty(),
            }),
            final(self).w() == old(self).w(),
    {
        let top: Option<Vec<u8>> = if self.count == 0 {
            None
        } else {
            Some(self.top_section())
        };
        let end: u128 = self.bucket_start as u128 + self.stats_window as u128;
        let out = BucketSummary {
            start: self.bucket_start,
            end,
            count: self.count,
            total_bytes: self.total_bytes,
            top_section: top,
        };
        self.count = 0;
        self.total_bytes = 0;
        self.sections = Vec::new();
        proof {
            self.bucket@ = Seq::<RecordView>::empty();
            assert(self.st().bucket =~= Seq::<RecordView>::empty());
        }
        out
    }

    /// Records the given record in the current bucket's accumulators.
    fn accumulate(&mut self, r: &RequestRecord)
        requires
            old(self).wf(),
            old(self).st().started,
            old(self).st().bucket.len() < u64::MAX,
        ensures
            final(self).wf(),
            final(self).st() == (StatsState {
                started: old(self).st().started,
                bucket_start: old(self).st().bucket_start,
                bucket: old(self).st().bucket.push(r@),
            }),
            final(self).w() == old(self).w(),
    {
        let ghost b0 = self.bucket@;
        let ghost nb = b0.push(r@);
        proof {
            lemma_sum_bytes_push(b0, r@);
            lemma_sum_bytes_bound(b0);
            vstd::arithmetic::mul::lemma_mul_inequality(
                b0.len() as int,
                u64::MAX as int,
                u64::MAX as int,
            );
            assert(sum_bytes(b0) + r@.bytes <= u128::MAX) by (nonlinear_arith)
                requires
                    sum_bytes(b0) <= (u64::MAX as int) * (u64::MAX as int),
                    0 <= r@.bytes <= u64::MAX,
            ;
        }
        self.count = self.count + 1;
        self.total_bytes = self.total_bytes + (r.bytes as u128);
        proof {
            self.bucket@ = nb;
        }
        let sec = section_of_resource(&r.resource);
        match find_section(&self.sections, &sec) {
            Some(i) => {
                let pair = self.sections.remove(i);
                let c = pair.1;
                proof {
                    lemma_sec_count_le_len(b0, sec@);
                    assert(c as int == sec_count(b0, sec@));
                }
                self.sections.insert(i, (pair.0, c + 1));
                proof {
                    assert(self.sections@ =~= old(self).sections@.update(
                        i as int,
                        (old(self).sections@[i as int].0, (c + 1) as u64),
                    ));
                    assert forall|p: int| 0 <= p < self.sections@.len() implies occurs(
                        nb,
                        (#[trigger] self.sections@[p]).0@,
                    ) && sec_count(nb, self.sections@[p].0@) == self.sections@[p].1 as int by {
                        lemma_sec_count_push(b0, r@, self.sections@[p].0@);
                        lemma_occurs_push(b0, r@, self.sections@[p].0@);
                        if p != i {
                            assert(self.sections@[p] == old(self).sections@[p]);
                            assert(self.sections@[p].0@ != sec@);
                        }
                    }
                    assert forall|s: Seq<u8>| occurs(nb, s) implies exists|p: int|
                        0 <= p < self.sections@.len() && (#[trigger] self.sections@[p]).0@
                            == s by {
                        lemma_occurs_push(b0, r@, s);
                        if occurs(b0, s) {
                            let p = choose|p: int|
                                0 <= p < old(self).sections@.len() && (#[trigger] old(
                                    self,
                                ).sections@[p]).0@ == s;
                            assert((self.sections@[p]).0@ == s);
                        } else {
                            assert((self.sections@[i as int]).0@ == s);
                        }
                    }
                }
            },
            None => {
                proof {
                    if occurs(b0, sec@) {
                        let p = choose|p: int|
                            0 <= p < self.sections@.len() && (#[trigger] self.sections@[p]).0@
                                == sec@;
                        assert(false);
                    }
                    lemma_not_occurs_count_zero(b0, sec@);
                }
                let ghost n = self.sections@.len() as int;
                self.sections.push((sec, 1));
                proof {
                    assert forall|p: int| 0 <= p < self.sections@.len() implies occurs(
                        nb,
                        (#[trigger] self.sections@[p]).0@,
                    ) && sec_count(nb, self.sections@[p].0@) == self.sections@[p].1 as int by {
                        lemma_sec_count_push(b0, r@, self.sections@[p].0@);
                        lemma_occurs_push(b0, r@, self.sections@[p].0@);
                        if p < n {
                            assert(self.sections@[p] == old(self).sections@[p]);
                            assert(self.sections@[p].0@ != section_of(r@.resource));
                        } else {
                            assert(self.sections@[p].0@ == section_of(r@.resource));
                        }
                    }
                    assert forall|s: Seq<u8>| occurs(nb, s) implies exists|p: int|
                        0 <= p < self.sections@.len() && (#[trigger] self.sections@[p]).0@
                            == s by {
                        lemma_occurs_push(b0, r@, s);
                        if occurs(b0, s) {
                            let p = choose|p: int|
                                0 <= p < old(self).sections@.len() && (#[trigger] old(
                                    self,
                                ).sections@[p]).0@ == s;
                            assert((self.sections@[p]).0@ == s);
                        } else {
                            assert((self.sections@[n]).0@ == s);
                        }
                    }
                }
            },
        }
    }

    /// Applies one record of the ordered stream; returns the summaries
    /// of the buckets it closes, oldest first.
    pub fn push(&mut self, r: &RequestRecord) -> (out: Vec<BucketSummary>)
        requires
            old(self).wf(),
            old(self).st().bucket.len() < u64::MAX,
        ensures
            final(self).wf(),
            final(self).w() == old(self).w(),
            final(self).st() == stats_step(old(self).st(), r@, old(self).w()).0,
            summaries_view(out@) == stats_step(old(self).st(), r@, old(self).w()).1,
    {
        let ghost st0 = self.st();
        let ghost w = self.w();
        let ghost step = stats_step(st0, r@, w);
        if !self.started {
            self.started = true;
            self.bucket_start = r.timestamp;
            self.accumulate(r);
            let out: Vec<BucketSummary> = Vec::new();
            proof {
                assert(st0.bucket =~= Seq::<RecordView>::empty());
                assert(self.st().bucket =~= seq![r@]);
                assert(self.st() == step.0);
                assert(summaries_view(out@) =~= step.1);
            }
            return out;
        }
        let mut out: Vec<BucketSummary> = Vec::new();
        if (r.timestamp as u128) < (self.bucket_start as u128 + self.stats_window as u128) {
            self.accumulate(r);
            proof {
                assert(self.st() == step.0);
                assert(summaries_view(out@) =~= step.1);
            }
            return out;
        }
        let ghost k = (r@.timestamp - st0.bucket_start) / w;
        let ghost emits = step.1;
        while (r.timestamp as u128) >= (self.bucket_start as u128 + self.stats_window as u128)
            invariant
                self.wf(),
                self.stats_window as int == w,
                st0.started,
                self.st().started,
                r@.timestamp >= st0.bucket_start + w,
                r@.timestamp >= self.st().bucket_start,
                out@.len() >= 1 ==> self.st().bucket.len() == 0,
                out@.len() == 0 ==> self.st() == st0,
                self.st().bucket_start == st0.bucket_start + out@.len() * w,
                k == (r@.timestamp - st0.bucket_start) / w,
                emits == stats_step(st0, r@, w).1,
                emits.len() == k,
                out@.len() <= k,
                summaries_view(out@) =~= emits.subrange(0, out@.len() as int),
            decreases r@.timestamp - self.st().bucket_start,
        {
            let ghost j = out@.len() as int;
            proof {
                assert(st0.bucket_start + j * w + w <= r@.timestamp) by (nonlinear_arith)
                    requires
                        self.st().bucket_start == st0.bucket_start + j * w,
                        r@.timestamp >= self.st().bucket_start + w,
                ;
                vstd::arithmetic::div_mod::lemma_div_multiples_vanish(j + 1, w);
                assert(w * (j + 1) == j * w + w) by (nonlinear_arith);
                vstd::arithmetic::div_mod::lemma_div_is_ordered(
                    w * (j + 1),
                    r@.timestamp - st0.bucket_start,
                    w,
                );
                assert(j + 1 <= k);
            }
            let summary = self.emit_current();
            out.push(summary);
            proof {
                assert(summary@ == emits[j]);
                assert(summaries_view(out@) =~= emits.subrange(0, j + 1));
            }
            self.bucket_start = self.bucket_start + self.stats_window;
            proof {
                assert((j + 1) * w == j * w + w) by (nonlinear_arith);
            }
        }
        proof {
            let j = out@.len() as int;
            assert(j * w <= r@.timestamp - st0.bucket_start < j * w + w);
            vstd::arithmetic::div_mod::lemma_fundamental_div_mod_converse(
                r@.timestamp - st0.bucket_start,
                w,
                j,
                r@.timestamp - st0.bucket_start - j * w,
            );
            assert(j == k);
            assert(k >= 1);
        }
        self.accumulate(r);
        proof {
            assert(self.st().bucket =~= seq![r@]);
            assert(self.st() == step.0);
            assert(summaries_view(out@) =~= step.1);
        }
        out
    }

    /// Emits the summary of the current bucket if it holds at least one
    /// record; called once at end of stream.
    pub fn flush(&self) -> (out: Vec<BucketSummary>)
        requires
            self.wf(),
        ensures
            summaries_view(out@) == stats_flush(self.st(), self.w()),
    {
        let mut out: Vec<BucketSummary> = Vec::new();
        if self.started && self.count > 0 {
            let top: Option<Vec<u8>> = Some(self.top_section());
            let end: u128 = self.bucket_start as u128 + self.stats_window as u128;
            out.push(
                BucketSummary {
                    start: self.bucket_start,
                    end,
                    count: self.count,
                    total_bytes: self.total_bytes,
                    top_section: top,
                },
            );
        }
        proof {
            assert(summaries_view(out@) =~= stats_flush(self.st(), self.w()));
        }
        out
    }
}


/// The records of `rs` whose timestamps fall in `[bs, bs + w)`.
pub open spec fn bucket_records(rs: Seq<RecordView>, bs: int, w: int) -> Seq<RecordView> {
    rs.filter(|r: RecordView| bs <= r.timestamp < bs + w)
}

/// Multiplication by a non-negative factor is monotone.
proof fn lemma_mul_mono(a: int, b: int, w: int)
    requires
        a <= b,
        w >= 0,
    ensures
        a * w <= b * w,
{
    vstd::arithmetic::mul::lemma_mul_inequality(a, b, w);
}

/// The running shape of the stats monitor over a sorted, non-empty
/// stream: buckets advance from the first timestamp in steps of `w`,
/// the current bucket holds exactly the records of its interval, and
/// every emitted summary is the summary of its interval's records.
proof fn lemma_stats_run_props(rs: Seq<RecordView>, w: int)
    requires
        w >= 1,
        rs.len() > 0,
        sorted_by_ts(rs),
    ensures
        ({
            let run = stats_run(rs, w);
            let first = rs[0].timestamp;
            let last = rs[rs.len() - 1].timestamp;
            &&& run.0.started
            &&& run.0.bucket_start == first + run.1.len() * w
            &&& run.0.bucket == bucket_records(rs, run.0.bucket_start, w)
            &&& run.0.bucket.len() > 0
            &&& run.0.bucket_start <= last < run.0.bucket_start + w
            &&& forall|i: int|
                0 <= i < run.1.len() ==> #[trigger] run.1[i] == mk_summary(
                    first + i * w,
                    w,
                    bucket_records(rs, first + i * w, w),
                )
        }),
    decreases rs.len(),
{
    let run = stats_run(rs, w);
    let first = rs[0].timestamp;
    let last = rs[rs.len() - 1].timestamp;
    let in_bucket = |bs: int| (|r: RecordView| bs <= r.timestamp < bs + w);
    if rs.len() == 1 {
        reveal_with_fuel(Seq::filter, 3);
        let r = rs[0];
        assert(rs.drop_last() =~= Seq::<RecordView>::empty());
        assert(run.0 == stats_step(stats_init(), r, w).0);
        assert(run.0.bucket =~= seq![r]);
        assert(run.0.bucket_start == first);
        assert(first + 0 * w == first) by (nonlinear_arith);
        assert(seq![r].drop_last() =~= Seq::<RecordView>::empty());
        assert(bucket_records(rs, first, w) =~= seq![r]) by {
            assert(rs =~= Seq::<RecordView>::empty().push(r));
            lemma_filter_push(Seq::<RecordView>::empty(), r, in_bucket(first));
        }
        assert(run.1 =~= Seq::<SummaryView>::empty());
    } else {
        let s = rs.drop_last();
        let r = rs.last();
        assert(sorted_by_ts(s)) by {
            assert(forall|i: int, j: int|
                0 <= i <= j < s.len() ==> s[i] == rs[i] && s[j] == rs[j]);
        }
        lemma_stats_run_props(s, w);
        let prev = stats_run(s, w);
        let st = prev.0;
        let out = prev.1;
        let n = out.len() as int;
        let bs = st.bucket_start;
        let plast = s[s.len() - 1].timestamp;
        assert(s[0] == rs[0]);
        assert(plast <= r.timestamp);
        // Every earlier record lies below the current bucket's end.
        assert(forall|i: int| 0 <= i < s.len() ==> #[trigger] s[i].timestamp <= plast);
        let step = stats_step(st, r, w);
        assert(run.0 == step.0 && run.1 == out + step.1);
        if r.timestamp < bs + w {
            // Same bucket: the record joins the current accumulation.
            assert(run.0.bucket == bucket_records(rs, bs, w)) by {
                lemma_filter_push(s, r, in_bucket(bs));
                assert(rs =~= s.push(r));
                assert(in_bucket(bs)(r));
            }
            assert forall|i: int| 0 <= i < run.1.len() implies #[trigger] run.1[i] == mk_summary(
                first + i * w,
                w,
                bucket_records(rs, first + i * w, w),
            ) by {
                assert(run.1[i] == out[i]);
                lemma_mul_mono(i + 1, n, w);
                assert((i + 1) * w == i * w + w) by (nonlinear_arith);
                assert(first + i * w + w <= first + n * w == bs);
                assert(!in_bucket(first + i * w)(r));
                lemma_filter_push(s, r, in_bucket(first + i * w));
                assert(rs =~= s.push(r));
            }
            assert(run.1 =~= out);
        } else {
            // The record closes `k` buckets.
            let k = (r.timestamp - bs) / w;
            let d = r.timestamp - bs;
            vstd::arithmetic::div_mod::lemma_fundamental_div_mod(d, w);
            vstd::arithmetic::div_mod::lemma_mod_bound(d, w);
            assert(d == w * (d / w) + d % w);
            assert(k * w == w * k) by (nonlinear_arith);
            assert(k * w <= d < k * w + w);
            assert(k >= 1) by {
                if k <= 0 {
                    lemma_mul_mono(k, 0, w);
                    assert(k * w <= 0 * w);
                    assert(0 * w == 0) by (nonlinear_arith);
                }
            }
            // New bucket start and count of emitted summaries.
            assert(run.0.bucket_start == bs + k * w);
            assert(run.1.len() == n + k);
            assert(run.0.bucket_start == first + (n + k) * w) by {
                assert((n + k) * w == n * w + k * w) by (nonlinear_arith);
            }
            assert(w <= k * w) by {
                lemma_mul_mono(1, k, w);
                assert(1 * w == w) by (nonlinear_arith);
            }
            // The new current bucket holds exactly the new record.
            assert(run.0.bucket == bucket_records(rs, bs + k * w, w)) by {
                assert(forall|i: int|
                    0 <= i < s.len() ==> !(in_bucket(bs + k * w)(#[trigger] s[i])));
                lemma_filter_none(s, in_bucket(bs + k * w));
                lemma_filter_push(s, r, in_bucket(bs + k * w));
                assert(rs =~= s.push(r));
                assert(in_bucket(bs + k * w)(r));
                assert(Seq::<RecordView>::empty().push(r) =~= seq![r]);
            }
            assert(run.0.bucket_start <= last < run.0.bucket_start + w);
            // Every summary, old and new, is its interval's summary.
            assert forall|i: int| 0 <= i < run.1.len() implies #[trigger] run.1[i] == mk_summary(
                first + i * w,
                w,
                bucket_records(rs, first + i * w, w),
            ) by {
                assert(rs =~= s.push(r));
                if i < n {
                    assert(run.1[i] == out[i]);
                    lemma_mul_mono(i + 1, n, w);
                    assert((i + 1) * w == i * w + w) by (nonlinear_arith);
                    assert(first + i * w + w <= first + n * w == bs);
                    assert(!in_bucket(first + i * w)(r));
                    lemma_filter_push(s, r, in_bucket(first + i * w));
                } else {
                    let j = i - n;
                    assert(run.1[i] == step.1[j]);
                    assert(first + i * w == bs + j * w) by {
                        assert((n + j) * w == n * w + j * w) by (nonlinear_arith);
                    }
                    if j == 0 {
                        assert(step.1[j] == mk_summary(bs, w, st.bucket));
                        assert(st.bucket == bucket_records(s, bs, w));
                        assert(!in_bucket(bs)(r));
                        lemma_filter_push(s, r, in_bucket(bs));
                        assert(bucket_records(rs, bs, w) == st.bucket);
                    } else {
                        assert(step.1[j] == mk_summary(bs + j * w, w, Seq::<RecordView>::empty()));
                        assert(w <= j * w) by {
                            lemma_mul_mono(1, j, w);
                            assert(1 * w == w) by (nonlinear_arith);
                        }
                        assert(forall|m: int|
                            0 <= m < s.len() ==> !(in_bucket(bs + j * w)(#[trigger] s[m])));
                        assert(!in_bucket(bs + j * w)(r)) by {
                            assert((j + 1) * w == j * w + w) by (nonlinear_arith);
                            lemma_mul_mono(j + 1, k, w);
                        }
                        lemma_filter_none(s, in_bucket(bs + j * w));
                        lemma_filter_push(s, r, in_bucket(bs + j * w));
                        assert(bucket_records(rs, bs + j * w, w) =~= Seq::<RecordView>::empty());
                    }
                }
            }
        }
    }
}

/// Bucketing correctness over any sorted, non-empty stream: with first
/// timestamp `t0` and last timestamp `t1`, the monitor emits, flush
/// included, exactly `(t1 - t0) / w + 1` summaries — one per bucket of
/// the span, empty buckets included, which equals
/// `ceil((t1 - t0 + 1) / w)` written as `(t1 - t0 + w) / w` — and the
/// summary of bucket `i` is exactly the summary of the records whose
/// timestamps fall in `[t0 + i * w, t0 + (i + 1) * w)`: their number,
/// their bytes total, and their busiest section.
pub proof fn lemma_bucketing(rs: Seq<RecordView>, w: int)
    requires
        w >= 1,
        rs.len() > 0,
        sorted_by_ts(rs),
    ensures
        ({
            let out = stats_outputs(rs, w);
            let t0 = rs[0].timestamp;
            let t1 = rs[rs.len() - 1].timestamp;
            &&& out.len() == (t1 - t0) / w + 1
            &&& out.len() == (t1 - t0 + w) / w
            &&& forall|i: int|
                0 <= i < out.len() ==> #[trigger] out[i] == mk_summary(
                    t0 + i * w,
                    w,
                    bucket_records(rs, t0 + i * w, w),
                )
        }),
{
    lemma_stats_run_props(rs, w);
    let run = stats_run(rs, w);
    let out = stats_outputs(rs, w);
    let t0 = rs[0].timestamp;
    let t1 = rs[rs.len() - 1].timestamp;
    let n = run.1.len() as int;
    let fl = stats_flush(run.0, w);
    assert(fl =~= seq![mk_summary(run.0.bucket_start, w, run.0.bucket)]);
    assert(out.len() == n + 1);
    // The whole span covers exactly `n + 1` buckets.
    assert(t0 + n * w <= t1 < t0 + n * w + w);
    vstd::arithmetic::div_mod::lemma_fundamental_div_mod_converse(t1 - t0, w, n, t1 - t0 - n * w);
    assert(n == (t1 - t0) / w);
    assert((n + 1) * w == n * w + w) by (nonlinear_arith);
    vstd::arithmetic::div_mod::lemma_fundamental_div_mod_converse(
        t1 - t0 + w,
        w,
        n + 1,
        t1 - t0 - n * w,
    );
    assert(n + 1 == (t1 - t0 + w) / w);
    assert forall|i: int| 0 <= i < out.len() implies #[trigger] out[i] == mk_summary(
        t0 + i * w,
        w,
        bucket_records(rs, t0 + i * w, w),
    ) by {
        if i < n {
            assert(out[i] == run.1[i]);
        } else {
            assert(out[i] == fl[0]);
        }
    }
}

} // verus!
