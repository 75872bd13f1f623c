//! Unit tests of the pipeline's components.

use dd_monitor::ChunkedStatsMonitor;
use dd_monitor::Config;
use dd_monitor::RequestRecord;
use dd_monitor::RollingAlertsModel;
use dd_monitor::parse_u64;
use dd_monitor::reorder;
use dd_monitor::section_of_resource;
use dd_monitor::split_request;

fn rec(t: u64, resource: &str, bytes: u64) -> RequestRecord {
    RequestRecord {
        remote_host: b"10.0.0.1".to_vec(),
        auth_user: b"apache".to_vec(),
        timestamp: t,
        method: b"GET".to_vec(),
        resource: resource.as_bytes().to_vec(),
        protocol: b"HTTP/1.0".to_vec(),
        status_code: 200,
        bytes,
    }
}

#[test]
fn test_config_default_values() {
    let c = Config::default();
    assert_eq!(c.stats_window, 10);
    assert_eq!(c.alert_window, 120);
    assert_eq!(c.alert_rate, 10);
    assert_eq!(c.maximum_timestamp_error, 1);
}

#[test]
fn test_parse_u64_values() {
    assert_eq!(parse_u64(&b"0".to_vec()), Some(0));
    assert_eq!(parse_u64(&b"1549573860".to_vec()), Some(1549573860));
    assert_eq!(parse_u64(&b"18446744073709551615".to_vec()), Some(u64::MAX));
    assert_eq!(parse_u64(&b"18446744073709551616".to_vec()), None);
    assert_eq!(parse_u64(&b"".to_vec()), None);
    assert_eq!(parse_u64(&b"12a".to_vec()), None);
    assert_eq!(parse_u64(&b"-5".to_vec()), None);
}

#[test]
fn test_split_request_parts() {
    let parts = split_request(&b"GET /api/user HTTP/1.0".to_vec()).unwrap();
    assert_eq!(parts.0, b"GET".to_vec());
    assert_eq!(parts.1, b"/api/user".to_vec());
    assert_eq!(parts.2, b"HTTP/1.0".to_vec());
    // A resource containing spaces splits at the first and last space.
    let parts = split_request(&b"GET /a b HTTP/1.0".to_vec()).unwrap();
    assert_eq!(parts.1, b"/a b".to_vec());
    assert_eq!(split_request(&b"GET".to_vec()), None);
    assert_eq!(split_request(&b"GET /api".to_vec()), None);
}

#[test]
fn test_section_of_resource() {
    assert_eq!(section_of_resource(&b"/api/user".to_vec()), b"/api".to_vec());
    assert_eq!(section_of_resource(&b"/report".to_vec()), b"/report".to_vec());
    assert_eq!(section_of_resource(&b"/".to_vec()), b"/".to_vec());
    assert_eq!(section_of_resource(&b"/a/b/c".to_vec()), b"/a".to_vec());
}

#[test]
fn test_reorder_sorts_within_tolerance() {
    let records = vec![rec(1001, "/a", 1), rec(1000, "/b", 2), rec(1002, "/c", 3)];
    let out = reorder(records, 1);
    let ts: Vec<u64> = out.iter().map(|r| r.timestamp).collect();
    assert_eq!(ts, vec![1000, 1001, 1002]);
    let bytes: Vec<u64> = out.iter().map(|r| r.bytes).collect();
    assert_eq!(bytes, vec![2, 1, 3], "records keep their identity");
}

#[test]
fn test_reorder_violation_is_best_effort() {
    // A record more than the tolerance behind the watermark was already
    // overtaken: it comes out late, after what was released before it.
    let records = vec![rec(100, "/a", 0), rec(101, "/b", 0), rec(98, "/c", 0)];
    let out = reorder(records, 1);
    let ts: Vec<u64> = out.iter().map(|r| r.timestamp).collect();
    assert_eq!(ts, vec![100, 98, 101]);
}

#[test]
fn test_stats_buckets_and_gaps() {
    let config = Config::default();
    let mut m = ChunkedStatsMonitor::from_config(&config);
    assert_eq!(m.push(&rec(1000, "/a", 5)).len(), 0);
    assert_eq!(m.push(&rec(1003, "/b/x", 7)).len(), 0);
    // A record two buckets later closes the current bucket and one
    // empty bucket for the silent gap.
    let closed = m.push(&rec(1025, "/a", 1));
    assert_eq!(closed.len(), 2);
    assert_eq!(closed[0].start, 1000);
    assert_eq!(closed[0].end, 1010);
    assert_eq!(closed[0].count, 2);
    assert_eq!(closed[0].total_bytes, 12);
    assert_eq!(closed[1].start, 1010);
    assert_eq!(closed[1].end, 1020);
    assert_eq!(closed[1].count, 0);
    assert_eq!(closed[1].total_bytes, 0);
    assert!(closed[1].top_section.is_none(), "empty bucket has no section");
    let flushed = m.flush();
    assert_eq!(flushed.len(), 1);
    assert_eq!(flushed[0].start, 1020);
    assert_eq!(flushed[0].count, 1);
}

#[test]
fn test_stats_top_section_counts_and_tie_break() {
    let config = Config::default();
    let mut m = ChunkedStatsMonitor::from_config(&config);
    m.push(&rec(0, "/b/one", 1));
    m.push(&rec(1, "/a/two", 1));
    m.push(&rec(2, "/b/three", 1));
    let closed = m.push(&rec(50, "/c", 1));
    assert_eq!(closed[0].top_section.as_deref(), Some(&b"/b"[..]), "highest count wins");

    let mut m = ChunkedStatsMonitor::from_config(&config);
    m.push(&rec(0, "/b/one", 1));
    m.push(&rec(1, "/a/two", 1));
    let closed = m.push(&rec(50, "/c", 1));
    assert_eq!(
        closed[0].top_section.as_deref(),
        Some(&b"/a"[..]),
        "ties break to the lexicographically smallest section"
    );
}

#[test]
fn test_stats_no_flush_without_records() {
    let config = Config::default();
    let m = ChunkedStatsMonitor::from_config(&config);
    assert_eq!(m.flush().len(), 0);
}

#[test]
fn test_alerts_edge_triggered_cycle() {
    // Threshold rate * window = 1 * 1 = 1 request: alert above one
    // retained request, recovery at or below.
    let config = Config {
        stats_window: 10,
        alert_window: 1,
        alert_rate: 1,
        maximum_timestamp_error: 1,
    };
    let mut m = RollingAlertsModel::from_config(&config);
    assert!(m.push(&rec(10, "/a", 0)).is_none(), "one request: rate at threshold");
    let up = m.push(&rec(10, "/a", 0)).expect("second request crosses the threshold");
    assert!(up.alert);
    assert_eq!(up.timestamp, 10);
    assert_eq!(up.hits, 2);
    assert!(m.push(&rec(10, "/a", 0)).is_none(), "still above: edge-triggered");
    let down = m.push(&rec(100, "/a", 0)).expect("window emptied: recovery");
    assert!(!down.alert);
    assert_eq!(down.timestamp, 100);
    assert_eq!(down.hits, 1);
    assert!(m.push(&rec(101, "/a", 0)).is_none(), "still at or below: no emission");
}

#[test]
fn test_alerts_low_rate_never_fires() {
    let config = Config::default();
    let mut m = RollingAlertsModel::from_config(&config);
    for t in 0..500u64 {
        assert!(m.push(&rec(t, "/a", 0)).is_none(), "1/sec stays below 10/sec");
    }
}
