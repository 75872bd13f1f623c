//! Streaming windowed-aggregation engine for web access logs.
//!
//! A nearly time-sorted stream of request records is reordered within a
//! bounded lateness tolerance, then fed to two monitors: one summarizing
//! traffic over fixed time buckets, one raising edge-triggered alerts when
//! the average request rate over a sliding window crosses a threshold.
//! `monitor_stream` drives the whole pipeline over CSV input text.

use vstd::prelude::*;

mod alerts;
mod decode;
mod records;
mod reorder;
mod stats;

pub use alerts::AlertEvent;
pub use alerts::RollingAlertsModel;
pub use decode::check_headers;
pub use decode::decode_record;
pub use decode::parse_u64;
pub use decode::split_request;
pub use records::Config;
pub use records::RequestRecord;
pub use records::section_of_resource;
pub use reorder::ReorderingBuffer;
pub use reorder::reorder;
pub use stats::BucketSummary;
pub use stats::ChunkedStatsMonitor;

use crate::alerts::AlertEventView;
use crate::alerts::AlertState;
use crate::alerts::alert_init;
use crate::alerts::alert_step;
use crate::decode::bytes_views;
use crate::decode::decode_row_spec;
use crate::decode::expected_headers;
use crate::decode::rows_views;
use crate::records::RecordView;
use crate::reorder::record_views;
use crate::reorder::reorder_spec;
use crate::stats::StatsState;
use crate::stats::SummaryView;
use crate::stats::stats_flush;
use crate::stats::stats_init;
use crate::stats::stats_run;
use crate::stats::stats_step;
use crate::stats::summaries_view;
use crate::stats::lemma_stats_run_bucket_len;

verus! {

/// Non-decreasing timestamps over a sequence of record views.
pub open spec fn sorted_by_ts(rs: Seq<RecordView>) -> bool {
    forall|i: int, j: int| 0 <= i <= j < rs.len() ==> rs[i].timestamp <= rs[j].timestamp
}

/// Why a run failed.
#[derive(Clone, Copy, Debug, PartialEq, Eq, Structural)]
pub enum MonitorError {
    /// The input's shape is wrong: its header row is not the expected
    /// one, or the text is not well-formed CSV.
    Structure,
    /// An input row could not be decoded into a record.
    Decode,
}

/// View of one emitted line's worth of output.
pub ghost enum EventView {
    Summary(SummaryView),
    Alert(AlertEventView),
}

/// One emission of the pipeline: a bucket summary or an alert event, in
/// the order the monitors produced them.
pub enum OutputEvent {
    Summary(BucketSummary),
    Alert(AlertEvent),
}

impl View for OutputEvent {
    type V = EventView;

    open spec fn view(&self) -> EventView {
        match self {
            OutputEvent::Summary(s) => EventView::Summary(s@),
            OutputEvent::Alert(a) => EventView::Alert(a@),
        }
    }
}

/// Views of a sequence of events.
pub open spec fn events_view(s: Seq<OutputEvent>) -> Seq<EventView> {
    s.map_values(|e: OutputEvent| e@)
}

/// Summaries as events.
pub open spec fn summary_events(s: Seq<SummaryView>) -> Seq<EventView> {
    s.map_values(|v: SummaryView| EventView::Summary(v))
}

/// An optional alert as events.
pub open spec fn alert_event_opt(o: Option<AlertEventView>) -> Seq<EventView> {
    match o {
        Some(e) => seq![EventView::Alert(e)],
        None => Seq::empty(),
    }
}

/// The dispatcher's emissions from given monitor states over the
/// remaining ordered records: for each record the stats monitor's
/// summaries, then the alert monitor's event; at end of stream the
/// stats monitor's flush.
pub open spec fn dispatch_from(
    sst: StatsState,
    ast: AlertState,
    rs: Seq<RecordView>,
    cfg: Config,
) -> Seq<EventView>
    decreases rs.len(),
{
    if rs.len() == 0 {
        summary_events(stats_flush(sst, cfg.stats_window as int))
    } else {
        let sstep = stats_step(sst, rs[0], cfg.stats_window as int);
        let astep = alert_step(
            ast,
            rs[0].timestamp,
            cfg.alert_window as int,
            cfg.alert_rate as int,
        );
        summary_events(sstep.1) + alert_event_opt(astep.1) + dispatch_from(
            sstep.0,
            astep.0,
            rs.drop_first(),
            cfg,
        )
    }
}

/// All emissions of the pipeline over an ordered stream.
pub open spec fn dispatch_spec(rs: Seq<RecordView>, cfg: Config) -> Seq<EventView> {
    dispatch_from(stats_init(), alert_init(), rs, cfg)
}

/// What decoding all rows yields: the records, if every row decodes.
pub open spec fn decode_rows_spec(rows: Seq<Seq<Seq<u8>>>) -> Option<Seq<RecordView>>
    decreases rows.len(),
{
    if rows.len() == 0 {
        Some(Seq::empty())
    } else {
        let prev = decode_rows_spec(rows.drop_last());
        let d = decode_row_spec(rows.last());
        if prev is Some && d is Some {
            Some(prev->Some_0.push(d->Some_0))
        } else {
            None
        }
    }
}

/// If all rows decode, each row decodes.
proof fn lemma_decode_rows_each(rows: Seq<Seq<Seq<u8>>>)
    requires
        decode_rows_spec(rows) is Some,
    ensures
        forall|i: int| 0 <= i < rows.len() ==> decode_row_spec(#[trigger] rows[i]) is Some,
    decreases rows.len(),
{
    if rows.len() > 0 {
        lemma_decode_rows_each(rows.drop_last());
        assert(forall|i: int| 0 <= i < rows.len() - 1 ==> rows.drop_last()[i] == rows[i]);
    }
}

/// What a whole run over a parsed document yields: a structural error
/// unless the header row is exactly the expected one, a decode error
/// unless every row decodes, and otherwise the pipeline's emissions
/// over the decoded records, reordered within the lateness tolerance.
pub open spec fn monitor_rows_spec(
    headers: Seq<Seq<u8>>,
    rows: Seq<Seq<Seq<u8>>>,
    cfg: Config,
) -> Result<Seq<EventView>, MonitorError> {
    if headers != expected_headers() {
        Err(MonitorError::Structure)
    } else {
        match decode_rows_spec(rows) {
            None => Err(MonitorError::Decode),
            Some(recs) => Ok(
                dispatch_spec(reorder_spec(recs, cfg.maximum_timestamp_error as int), cfg),
            ),
        }
    }
}

/// What a whole run over raw input bytes yields: a decode error where
/// the CSV text itself is malformed, else the run over the parsed rows.
pub open spec fn monitor_input_spec(input: Seq<u8>, cfg: Config) -> Result<
    Seq<EventView>,
    MonitorError,
> {
    match csv_split_of(input) {
        None => Err(MonitorError::Decode),
        Some(doc) => monitor_rows_spec(doc.0, doc.1, cfg),
    }
}

/// The header row and data rows that CSV parsing extracts from the
/// input bytes, or nothing where the text is malformed; a pure function
/// of the input.
pub uninterp spec fn csv_split_of(input: Seq<u8>) -> Option<(Seq<Seq<u8>>, Seq<Seq<Seq<u8>>>)>;

/// Relies on `csv::Reader::from_reader`, `Reader::byte_headers` and
/// `Reader::byte_records` of the csv crate: splits CSV text into its
/// header row and data rows of byte fields, quoting resolved, and fails
/// on malformed CSV, such as a row whose field count differs from the
/// header's. The parse is a pure function of the input bytes.
#[verifier::external_body]
fn csv_split(input: &Vec<u8>) -> (r: Option<(Vec<Vec<u8>>, Vec<Vec<Vec<u8>>>)>)
    ensures
        match (r, csv_split_of(input@)) {
            (Some(p), Some(q)) => bytes_views(p.0@) == q.0 && rows_views(p.1@) == q.1,
            (None, None) => true,
            _ => false,
        },
{
    let mut reader = csv::Reader::from_reader(input.as_slice());
    let headers = match reader.byte_headers() {
        Ok(h) => h.iter().map(|f| f.to_vec()).collect(),
        Err(_) => return None,
    };
    let mut rows = Vec::new();
    for record in reader.byte_records() {
        match record {
            Ok(rec) => rows.push(rec.iter().map(|f| f.to_vec()).collect()),
            Err(_) => return None,
        }
    }
    Some((headers, rows))
}

/// Decodes every row, or reports the first failure.
fn decode_rows(rows: &Vec<Vec<Vec<u8>>>) -> (r: Option<Vec<RequestRecord>>)
    ensures
        match r {
            Some(recs) => decode_rows_spec(rows_views(rows@)) == Some(record_views(recs@)),
            None => decode_rows_spec(rows_views(rows@)) is None,
        },
{
    let ghost rv = rows_views(rows@);
    let mut recs: Vec<RequestRecord> = Vec::new();
    let mut i: usize = 0;
    proof {
        assert(rv.subrange(0, 0) =~= Seq::<Seq<Seq<u8>>>::empty());
        assert(record_views(recs@) =~= Seq::<RecordView>::empty());
    }
    while i < rows.len()
        invariant
            0 <= i <= rows@.len(),
            rv == rows_views(rows@),
            decode_rows_spec(rv.subrange(0, i as int)) == Some(record_views(recs@)),
        decreases rows@.len() - i,
    {
        proof {
            assert(rv[i as int] == bytes_views(rows@[i as int]@));
        }
        let ghost prev_views = record_views(recs@);
        match decode_record(&rows[i]) {
            Some(rec) => {
                let ghost rvv = rec@;
                recs.push(rec);
                proof {
                    let pre2 = rv.subrange(0, i + 1);
                    assert(pre2.drop_last() =~= rv.subrange(0, i as int));
                    assert(pre2.last() == rv[i as int]);
                    assert(record_views(recs@) =~= prev_views.push(rvv));
                }
            },
            None => {
                proof {
                    if decode_rows_spec(rv) is Some {
                        lemma_decode_rows_each(rv);
                        assert(decode_row_spec(rv[i as int]) is Some);
                        assert(false);
                    }
                }
                return None;
            },
        }
        i += 1;
    }
    proof {
        assert(rv.subrange(0, rv.len() as int) =~= rv);
    }
    Some(recs)
}

/// Moves summaries onto the event stream.
fn append_summary_events(out: &mut Vec<OutputEvent>, sums: Vec<BucketSummary>)
    ensures
        events_view(final(out)@) == events_view(old(out)@) + summary_events(
            summaries_view(sums@),
        ),
{
    let ghost sv = summaries_view(sums@);
    let mut sums = sums;
    proof {
        assert(events_view(out@) + summary_events(sv.subrange(0, 0)) =~= events_view(out@));
    }
    while sums.len() > 0
        invariant
            0 <= sv.len() - sums@.len() <= sv.len(),
            summaries_view(sums@) == sv.subrange(sv.len() - sums@.len(), sv.len() as int),
            events_view(out@) == events_view(old(out)@) + summary_events(
                sv.subrange(0, sv.len() - sums@.len()),
            ),
        decreases sums@.len(),
    {
        let ghost pre = summaries_view(sums@);
        let ghost k = sv.len() - sums@.len();
        let ghost before_ev = events_view(out@);
        let s = sums.remove(0);
        out.push(OutputEvent::Summary(s));
        proof {
            assert(s@ == pre[0]);
            assert(pre[0] == sv[k]);
            assert(summaries_view(sums@) =~= pre.drop_first());
            assert(summaries_view(sums@) =~= sv.subrange(k + 1, sv.len() as int));
            assert(events_view(out@) =~= before_ev.push(EventView::Summary(s@)));
            assert(summary_events(sv.subrange(0, k + 1)) =~= summary_events(
                sv.subrange(0, k),
            ).push(EventView::Summary(sv[k])));
            assert(events_view(out@) =~= events_view(old(out)@) + summary_events(
                sv.subrange(0, k + 1),
            ));
        }
    }
    proof {
        assert(sv.subrange(0, sv.len() as int) =~= sv);
    }
}

/// Drives the ordered records through both monitors in fixed order —
/// stats first, then alerts — collecting every emission as produced,
/// and flushes the stats monitor at end of stream.
pub fn run_pipeline(ordered: &Vec<RequestRecord>, config: &Config) -> (out: Vec<OutputEvent>)
    requires
        config.wf(),
    ensures
        events_view(out@) == dispatch_spec(record_views(ordered@), *config),
{
    let ghost rv = record_views(ordered@);
    let ghost cfg = *config;
    let ghost w = config.stats_window as int;
    let mut stats = ChunkedStatsMonitor::from_config(config);
    let mut alerts = RollingAlertsModel::from_config(config);
    let mut out: Vec<OutputEvent> = Vec::new();
    let mut i: usize = 0;
    proof {
        assert(rv.subrange(0, 0) =~= Seq::<RecordView>::empty());
        assert(rv.subrange(0, rv.len() as int) =~= rv);
        assert(events_view(out@) + dispatch_from(stats.st(), alerts.st(), rv, cfg)
            =~= dispatch_spec(rv, cfg));
    }
    while i < ordered.len()
        invariant
            0 <= i <= ordered@.len(),
            rv == record_views(ordered@),
            cfg == *config,
            config.wf(),
            w == config.stats_window as int,
            stats.wf(),
            stats.w() == w,
            stats.st() == stats_run(rv.subrange(0, i as int), w).0,
            alerts.aw() == config.alert_window as int,
            alerts.rate() == config.alert_rate as int,
            events_view(out@) + dispatch_from(
                stats.st(),
                alerts.st(),
                rv.subrange(i as int, rv.len() as int),
                cfg,
            ) == dispatch_spec(rv, cfg),
        decreases ordered@.len() - i,
    {
        let ghost rest = rv.subrange(i as int, rv.len() as int);
        proof {
            lemma_stats_run_bucket_len(rv.subrange(0, i as int), w);
            assert(stats.st().bucket.len() <= i);
            assert(rest[0] == rv[i as int]);
            assert(rv[i as int] == ordered@[i as int]@);
        }
        let ghost sst0 = stats.st();
        let ghost ast0 = alerts.st();
        let ghost out0 = events_view(out@);
        let ghost sstep = stats_step(sst0, rv[i as int], w);
        let ghost astep = alert_step(
            ast0,
            rv[i as int].timestamp,
            cfg.alert_window as int,
            cfg.alert_rate as int,
        );
        let sums = stats.push(&ordered[i]);
        let ev = alerts.push(&ordered[i]);
        append_summary_events(&mut out, sums);
        let ghost out1 = events_view(out@);
        proof {
            assert(out1 == out0 + summary_events(sstep.1));
        }
        match ev {
            Some(e) => {
                let ghost evv = e@;
                out.push(OutputEvent::Alert(e));
                proof {
                    assert(events_view(out@) =~= out1.push(EventView::Alert(evv)));
                    assert(events_view(out@) =~= out0 + summary_events(sstep.1)
                        + alert_event_opt(astep.1));
                }
            },
            None => {
                proof {
                    assert(alert_event_opt(astep.1) =~= Seq::<EventView>::empty());
                    assert(events_view(out@) =~= out0 + summary_events(sstep.1)
                        + alert_event_opt(astep.1));
                }
            },
        }
        proof {
            assert(rest.drop_first() =~= rv.subrange(i + 1, rv.len() as int));
            assert(dispatch_from(sst0, ast0, rest, cfg) == summary_events(sstep.1)
                + alert_event_opt(astep.1) + dispatch_from(
                sstep.0,
                astep.0,
                rest.drop_first(),
                cfg,
            ));
            assert(events_view(out@) + dispatch_from(
                stats.st(),
                alerts.st(),
                rest.drop_first(),
                cfg,
            ) =~= dispatch_spec(rv, cfg));
            let pre2 = rv.subrange(0, i + 1);
            assert(pre2.drop_last() =~= rv.subrange(0, i as int));
            assert(pre2.last() == rv[i as int]);
        }
        i += 1;
    }
    let fl = stats.flush();
    append_summary_events(&mut out, fl);
    proof {
        assert(rv.subrange(rv.len() as int, rv.len() as int) =~= Seq::<RecordView>::empty());
    }
    out
}

/// Reads CSV request records from the input text, runs the monitors
/// over them according to the configuration, and returns their
/// emissions in order — or the error that stopped the run: a structural
/// error for a wrong header row, a decode error for malformed CSV or a
/// row that is no request record.
pub fn monitor_stream(input: &Vec<u8>, config: &Config) -> (r: Result<
    Vec<OutputEvent>,
    MonitorError,
>)
    requires
        config.wf(),
    ensures
        ({
            match (r, monitor_input_spec(input@, *config)) {
                (Ok(evs), Ok(sevs)) => events_view(evs@) == sevs,
                (Err(e1), Err(e2)) => e1 == e2,
                _ => false,
            }
        }),
{
    match csv_split(input) {
        None => Err(MonitorError::Decode),
        Some(doc) => {
            let (headers, rows) = doc;
            if !check_headers(&headers) {
                return Err(MonitorError::Structure);
            }
            match decode_rows(&rows) {
                None => Err(MonitorError::Decode),
                Some(recs) => {
                    let ordered = reorder(recs, config.maximum_timestamp_error);
                    Ok(run_pipeline(&ordered, config))
                },
            }
        },
    }
}

/// An empty record stream under the expected header yields success and
/// no emissions at all.
pub proof fn lemma_empty_input(cfg: Config)
    ensures
        monitor_rows_spec(expected_headers(), Seq::empty(), cfg) == Ok::<
            Seq<EventView>,
            MonitorError,
        >(Seq::<EventView>::empty()),
{
    let e = reorder_spec(Seq::empty(), cfg.maximum_timestamp_error as int);
    assert(e =~= Seq::<RecordView>::empty());
    assert(dispatch_spec(e, cfg) == summary_events(stats_flush(stats_init(), cfg.stats_window as int)));
    assert(dispatch_spec(e, cfg) =~= Seq::<EventView>::empty());
}

} // verus!

