//! The rolling alert monitor: a two-state detector over the average
//! request rate in the trailing `alert_window` seconds.
//!
//! The monitor retains the timestamps of recent records, drops the ones
//! that fall out of the trailing window of the newest record, and emits
//! an event only when the windowed rate crosses the configured threshold:
//! once when it rises above it, once when it falls back.

use vstd::prelude::*;

use crate::records::Config;
use crate::records::RequestRecord;
use crate::records::lemma_filter_all;
use crate::records::lemma_filter_sub;
use crate::records::lemma_filter_narrow;
use crate::records::lemma_filter_push;

verus! {

/// Abstract state of the alert monitor: the retained timestamps and
/// whether it is currently alerting.
pub ghost struct AlertState {
    pub window: Seq<int>,
    pub alerting: bool,
}

/// View of an emitted alert event.
pub ghost struct AlertEventView {
    /// True for "high traffic", false for "recovered".
    pub alert: bool,
    pub timestamp: int,
    pub hits: int,
}

/// An emitted alert event: either traffic rose above the threshold, or
/// it recovered. `hits` is the number of requests in the trailing window
/// at the moment of the transition.
pub struct AlertEvent {
    /// True for "high traffic", false for "recovered".
    pub alert: bool,
    pub timestamp: u64,
    pub hits: u64,
}

impl View for AlertEvent {
    type V = AlertEventView;

    open spec fn view(&self) -> AlertEventView {
        AlertEventView {
            alert: self.alert,
            timestamp: self.timestamp as int,
            hits: self.hits as int,
        }
    }
}

/// The monitor starts with an empty window, not alerting.
pub open spec fn alert_init() -> AlertState {
    AlertState { window: Seq::empty(), alerting: false }
}

/// Evicts from the front every timestamp outside the trailing window
/// `(t - aw, t]`.
pub open spec fn evict_front(w: Seq<int>, t: int, aw: int) -> Seq<int>
    decreases w.len(),
{
    if w.len() > 0 && w[0] + aw <= t {
        evict_front(w.drop_first(), t, aw)
    } else {
        w
    }
}

/// One push: retain the new timestamp, evict what fell out of the
/// window, compare the windowed rate to the threshold, and emit an event
/// exactly when the comparison flips the detector state.
///
/// The rate comparison `hits / aw > rate` is computed exactly as
/// `hits > rate * aw`.
pub open spec fn alert_step(st: AlertState, t: int, aw: int, rate: int) -> (
    AlertState,
    Option<AlertEventView>,
) {
    let w2 = evict_front(st.window.push(t), t, aw);
    let cond = w2.len() > rate * aw;
    (
        AlertState { window: w2, alerting: cond },
        if cond != st.alerting {
            Some(AlertEventView { alert: cond, timestamp: t, hits: w2.len() as int })
        } else {
            None
        },
    )
}

/// The events of one step as a sequence: one or none.
pub open spec fn opt_event_seq(o: Option<AlertEventView>) -> Seq<AlertEventView> {
    match o {
        Some(e) => seq![e],
        None => Seq::empty(),
    }
}

/// State and emitted events after pushing every timestamp of `ts`.
pub open spec fn alert_run(ts: Seq<int>, aw: int, rate: int) -> (AlertState, Seq<AlertEventView>)
    decreases ts.len(),
{
    if ts.len() == 0 {
        (alert_init(), Seq::empty())
    } else {
        let prev = alert_run(ts.drop_last(), aw, rate);
        let step = alert_step(prev.0, ts.last(), aw, rate);
        (step.0, prev.1 + opt_event_seq(step.1))
    }
}

/// All events the monitor emits over a stream of timestamps.
pub open spec fn alert_events(ts: Seq<int>, aw: int, rate: int) -> Seq<AlertEventView> {
    alert_run(ts, aw, rate).1
}

/// Emissions are edge-triggered: over any stream the emitted events
/// strictly alternate, beginning with a "high traffic" alert, so the
/// number of alert emissions equals the number of Normal-to-Alerting
/// transitions, the number of recoveries equals the number of
/// transitions back, and no two consecutive events have the same
/// direction. The detector is alerting exactly when an odd number of
/// events has been emitted.
pub proof fn lemma_alert_edge_triggered(ts: Seq<int>, aw: int, rate: int)
    ensures
        forall|i: int|
            0 <= i < alert_events(ts, aw, rate).len() ==> (#[trigger] alert_events(
                ts,
                aw,
                rate,
            )[i].alert == (i % 2 == 0)),
        alert_run(ts, aw, rate).0.alerting == (alert_events(ts, aw, rate).len() % 2 == 1),
    decreases ts.len(),
{
    if ts.len() > 0 {
        lemma_alert_edge_triggered(ts.drop_last(), aw, rate);
        let prev = alert_run(ts.drop_last(), aw, rate);
        let step = alert_step(prev.0, ts.last(), aw, rate);
        let evs = alert_events(ts, aw, rate);
        let pevs = alert_events(ts.drop_last(), aw, rate);
        assert(evs == pevs + opt_event_seq(step.1));
        match step.1 {
            Some(e) => {
                assert(evs.len() == pevs.len() + 1);
                assert(forall|i: int| 0 <= i < pevs.len() ==> evs[i] == pevs[i]);
                assert(evs[pevs.len() as int] == e);
            },
            None => {
                assert(evs =~= pevs);
            },
        }
    }
}

/// The rolling alert monitor.
pub struct RollingAlertsModel {
    /// Timestamps of the requests in the current trailing window.
    requests: Vec<u64>,
    alerting: bool,
    alert_window: u64,
    alert_rate: u64,
}

impl RollingAlertsModel {
    /// Abstract state.
    pub closed spec fn st(&self) -> AlertState {
        AlertState {
            window: self.requests@.map_values(|x: u64| x as int),
            alerting: self.alerting,
        }
    }

    /// The configured window length in seconds.
    pub closed spec fn aw(&self) -> int {
        self.alert_window as int
    }

    /// The configured threshold rate in requests per second.
    pub closed spec fn rate(&self) -> int {
        self.alert_rate as int
    }

    /// A fresh monitor in the Normal state.
    pub fn from_config(config: &Config) -> (r: Self)
        ensures
            r.st() == alert_init(),
            r.aw() == config.alert_window as int,
            r.rate() == config.alert_rate as int,
    {
        proof {
            assert(Seq::<u64>::empty().map_values(|x: u64| x as int) =~= Seq::<int>::empty());
        }
        RollingAlertsModel {
            requests: Vec::new(),
            alerting: false,
            alert_window: config.alert_window,
            alert_rate: config.alert_rate,
        }
    }

    /// Applies one record of the ordered stream; returns the emitted
    /// event, if the detector state flipped.
    pub fn push(&mut self, r: &RequestRecord) -> (ev: Option<AlertEvent>)
        ensures
            ({
                let step = alert_step(old(self).st(), r@.timestamp, old(self).aw(), old(
                    self,
                ).rate());
                &&& final(self).st() == step.0
                &&& final(self).aw() == old(self).aw()
                &&& final(self).rate() == old(self).rate()
                &&& match (ev, step.1) {
                    (Some(e), Some(v)) => e@ == v,
                    (None, None) => true,
                    _ => false,
                }
            }),
    {
        let ghost t = r@.timestamp;
        let ghost aw = self.alert_window as int;
        self.requests.push(r.timestamp);
        let ghost w1 = self.requests@.map_values(|x: u64| x as int);
        proof {
            assert(w1 =~= old(self).st().window.push(t));
        }
        while self.requests.len() > 0 && self.alert_window <= r.timestamp
            && self.requests[0] <= r.timestamp - self.alert_window
            invariant
                t == r@.timestamp,
                aw == self.alert_window as int,
                self.alert_window == old(self).alert_window,
                self.alert_rate == old(self).alert_rate,
                self.alerting == old(self).alerting,
                evict_front(w1, t, aw) == evict_front(
                    self.requests@.map_values(|x: u64| x as int),
                    t,
                    aw,
                ),
            decreases self.requests.len(),
        {
            let ghost cur = self.requests@.map_values(|x: u64| x as int);
            proof {
                assert(cur[0] == self.requests@[0] as int);
                assert(cur[0] + aw <= t);
            }
            self.requests.remove(0);
            proof {
                assert(self.requests@.map_values(|x: u64| x as int) =~= cur.drop_first());
            }
        }
        proof {
            let cur = self.requests@.map_values(|x: u64| x as int);
            if self.requests.len() > 0 {
                assert(cur[0] == self.requests@[0] as int);
                if cur[0] + aw <= t {
                    assert(self.requests@[0] + self.alert_window <= r.timestamp);
                    assert(false);
                }
            }
            assert(evict_front(cur, t, aw) == cur);
        }
        let hits_usize = self.requests.len();
        let hits: u64 = hits_usize as u64;
        proof {
            vstd::arithmetic::mul::lemma_mul_upper_bound(
                self.alert_rate as int,
                u64::MAX as int,
                self.alert_window as int,
                u64::MAX as int,
            );
        }
        let threshold: u128 = (self.alert_rate as u128) * (self.alert_window as u128);
        let cond = (hits as u128) > threshold;
        proof {
            let w2 = evict_front(w1, t, aw);
            assert(w2 == self.requests@.map_values(|x: u64| x as int));
            assert(w2.len() == hits as int);
            assert(cond == (w2.len() > self.alert_rate as int * aw));
        }
        if cond != self.alerting {
            self.alerting = cond;
            Some(AlertEvent { alert: cond, timestamp: r.timestamp, hits })
        } else {
            None
        }
    }
}


/// Non-decreasing order over plain timestamps.
pub open spec fn sorted_ints(w: Seq<int>) -> bool {
    forall|i: int, j: int| 0 <= i <= j < w.len() ==> w[i] <= w[j]
}

/// On a sorted window, evicting from the front is exactly filtering
/// out everything at or before `t - aw`.
proof fn lemma_evict_front_sorted(w: Seq<int>, t: int, aw: int)
    requires
        sorted_ints(w),
    ensures
        evict_front(w, t, aw) == w.filter(|x: int| x + aw > t),
        sorted_ints(evict_front(w, t, aw)),
    decreases w.len(),
{
    reveal_with_fuel(Seq::filter, 2);
    let pred = |x: int| x + aw > t;
    if w.len() > 0 && w[0] + aw <= t {
        assert(sorted_ints(w.drop_first())) by {
            assert(forall|m: int| 0 <= m < w.len() - 1 ==> w.drop_first()[m] == w[m + 1]);
        }
        lemma_evict_front_sorted(w.drop_first(), t, aw);
        assert(w =~= seq![w[0]] + w.drop_first());
        Seq::<int>::filter_distributes_over_add(seq![w[0]], w.drop_first(), pred);
        assert(seq![w[0]].drop_last() =~= Seq::<int>::empty());
        assert(seq![w[0]].filter(pred) =~= Seq::<int>::empty());
        assert(Seq::<int>::empty() + w.drop_first().filter(pred) =~= w.drop_first().filter(pred));
    } else {
        assert forall|i: int| 0 <= i < w.len() implies pred(w[i]) by {
            assert(w[0] <= w[i]);
        }
        lemma_filter_all(w, pred);
    }
}

/// On a sorted stream, the retained window after the last push is
/// exactly the timestamps in the trailing `aw` seconds of the newest
/// record: those with `x + aw > last`. The windowed rate the detector
/// compares is therefore the number of requests in that trailing
/// interval, divided by the window length.
pub proof fn lemma_alert_window_content(ts: Seq<int>, aw: int, rate: int)
    requires
        aw >= 1,
        ts.len() > 0,
        sorted_ints(ts),
    ensures
        alert_run(ts, aw, rate).0.window == ts.filter(
            |x: int| x + aw > ts[ts.len() - 1],
        ),
        sorted_ints(alert_run(ts, aw, rate).0.window),
    decreases ts.len(),
{
    broadcast use vstd::seq_lib::group_filter_ensures;

    reveal_with_fuel(Seq::filter, 2);
    let t = ts.last();
    let pred = |x: int| x + aw > t;
    if ts.len() == 1 {
        let w1 = alert_init().window.push(t);
        assert(w1 =~= seq![t]);
        assert(sorted_ints(w1));
        lemma_evict_front_sorted(w1, t, aw);
        assert(seq![t].drop_last() =~= Seq::<int>::empty());
        assert(pred(t));
        assert(seq![t].filter(pred) =~= seq![t]);
        assert(ts =~= seq![t]);
        lemma_filter_all(ts, pred);
        assert(ts.drop_last() =~= Seq::<int>::empty());
        assert(alert_run(Seq::<int>::empty(), aw, rate).0 == alert_init());
        assert(alert_run(ts, aw, rate).0.window == evict_front(w1, t, aw));
        assert(alert_run(ts, aw, rate).0.window == ts.filter(pred));
    } else {
        let s = ts.drop_last();
        assert(sorted_ints(s)) by {
            assert(forall|m: int| 0 <= m < s.len() ==> s[m] == ts[m]);
        }
        lemma_alert_window_content(s, aw, rate);
        let prev = alert_run(s, aw, rate);
        let tp = s[s.len() - 1];
        let pprev = |x: int| x + aw > tp;
        assert(tp <= t);
        // The retained timestamps all lie at or below the new record's.
        assert forall|m: int| 0 <= m < prev.0.window.len() implies prev.0.window[m] <= t by {
            lemma_filter_sub(s, pprev, m);
            let e = prev.0.window[m];
            assert(s.contains(e));
            let idx = choose|idx: int| 0 <= idx < s.len() && s[idx] == e;
            assert(s[idx] <= s[s.len() - 1]);
        }
        let w1 = prev.0.window.push(t);
        assert(sorted_ints(w1)) by {
            assert(forall|m: int| 0 <= m < prev.0.window.len() ==> w1[m] == prev.0.window[m]);
        }
        lemma_evict_front_sorted(w1, t, aw);
        // Narrow the old window's filter to the new bound, then absorb
        // the pushed timestamp.
        assert(forall|x: int| #[trigger] pred(x) ==> pprev(x));
        lemma_filter_narrow(s, pprev, pred);
        lemma_filter_push(s.filter(pprev), t, pred);
        assert(pred(t));
        lemma_filter_push(s, t, pred);
        assert(s.push(t) =~= ts);
        assert(alert_run(ts, aw, rate).0.window == evict_front(w1, t, aw));
        assert(w1 == s.filter(pprev).push(t));
        assert(evict_front(w1, t, aw) == w1.filter(pred));
        assert(w1.filter(pred) == s.filter(pprev).filter(pred).push(t));
        assert(s.filter(pprev).filter(pred) == s.filter(pred));
        assert(ts.filter(pred) == s.filter(pred).push(t));
        assert(alert_run(ts, aw, rate).0.window == ts.filter(pred));
    }
    let pgoal = |x: int| x + aw > ts[ts.len() - 1];
    assert(pred =~= pgoal);
    assert(alert_run(ts, aw, rate).0.window == ts.filter(pgoal));
}
} // verus!
