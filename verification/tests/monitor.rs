//! End-to-end tests of `monitor_stream` over raw CSV text.

use dd_monitor::Config;
use dd_monitor::MonitorError;
use dd_monitor::OutputEvent;
use dd_monitor::monitor_stream;

fn run(input: &str, config: &Config) -> Result<Vec<OutputEvent>, MonitorError> {
    let bytes: Vec<u8> = input.as_bytes().to_vec();
    monitor_stream(&bytes, config)
}

#[test]
/// Tests with no input.
fn test_monitor_nothing() {
    let input = "";
    let config = Config::default();
    let result = run(input, &config);
    assert!(result.is_err(), "missing header");
}

#[test]
fn test_monitor_invalid_csv_input() {
    let input = "1 2\n3 4\n5";
    let config = Config::default();
    let result = run(input, &config);
    assert!(result.is_err(), "invalid header");
}

#[test]
fn test_monitor_invalid_csv_input_2() {
    let input = r#"241"#;
    let config = Config::default();
    let result = run(input, &config);
    assert!(result.is_err(), "invalid header");
}

#[test]
fn test_monitor_invalid_csv_input_3() {
    let input = r#"241
        123
        456"#;
    let config = Config::default();
    let result = run(input, &config);
    assert!(result.is_err(), "this isn't csv it's just some numbers");
}

#[test]
fn test_monitor_invalid_csv_input_4() {
    let input = r#""remotehost","rfc931","authuser","date","request","status"
        "10.0.0.2","-","apache",1549573860,"GET /api/user HTTP/1.0",200
        "10.0.0.4","-","apache",1549573860,"GET /api/user HTTP/1.0",200";"#;
    let config = Config::default();
    let result = run(input, &config);
    assert!(result.is_err(), "size column missing");
}

#[test]
fn test_monitor_invalid_csv_input_extra_column() {
    let input = r#""remotehost","rfc931","authuser","date","request","status","bytes"
        "10.0.0.1","-","apache",1549574332,"GET /api/user HTTP/1.0",200,1234
        "10.0.0.4","-","apache",1549574333,"GET /report HTTP/1.0",200,1136,10101,13513
        "10.0.0.1","-","apache",1549574334,"GET /api/user HTTP/1.0",200,1194
        "10.0.0.4","-","apache",1549574334,"POST /report HTTP/1.0",404,1307"#;
    let config = Config::default();
    let result = run(input, &config);
    assert!(result.is_err(), "extra column in record two");
}

#[test]
fn test_monitor_empty_record_stream() {
    // A valid header with no rows succeeds and emits nothing.
    let input = r#""remotehost","rfc931","authuser","date","request","status","bytes""#;
    let config = Config::default();
    let result = run(input, &config);
    let events = result.expect("valid header with no rows must succeed");
    assert_eq!(events.len(), 0);
}

#[test]
fn test_monitor_wrong_header_is_structural() {
    let input = r#""remotehost","rfc931","authuser","date","request","status"
        "10.0.0.2","-","apache",1549573860,"GET /api/user HTTP/1.0",200"#;
    let config = Config::default();
    let result = run(input, &config);
    assert!(matches!(result, Err(MonitorError::Structure)));
}

#[test]
fn test_monitor_bad_date_is_decode_error() {
    let input = r#""remotehost","rfc931","authuser","date","request","status","bytes"
"10.0.0.2","-","apache",notanumber,"GET /api/user HTTP/1.0",200,200"#;
    let config = Config::default();
    let result = run(input, &config);
    assert!(matches!(result, Err(MonitorError::Decode)));
}

#[test]
fn test_monitor_bad_request_line_is_decode_error() {
    // The request field has no spaces, so it cannot split into three parts.
    let input = r#""remotehost","rfc931","authuser","date","request","status","bytes"
"10.0.0.2","-","apache",1000,"GET",200,200"#;
    let config = Config::default();
    let result = run(input, &config);
    assert!(matches!(result, Err(MonitorError::Decode)));
}

#[test]
fn test_monitor_single_low_rate_record() {
    // One record at t=1000: one summary for the bucket [1000, 1010),
    // count 1, and no alert at rate 1/120 < 10.
    let input = r#""remotehost","rfc931","authuser","date","request","status","bytes"
"10.0.0.2","-","apache",1000,"GET /api/user HTTP/1.0",200,200"#;
    let config = Config::default();
    let events = run(input, &config).expect("single record must succeed");
    assert_eq!(events.len(), 1);
    match &events[0] {
        OutputEvent::Summary(s) => {
            assert_eq!(s.start, 1000);
            assert_eq!(s.end, 1010);
            assert_eq!(s.count, 1);
            assert_eq!(s.total_bytes, 200);
            assert_eq!(s.top_section.as_deref(), Some(&b"/api"[..]));
        },
        OutputEvent::Alert(_) => panic!("no alert expected for a single record"),
    }
}

#[test]
fn test_monitor_reorders_within_tolerance() {
    // The second record is one second behind the first: within the
    // default tolerance, so the buckets see them in timestamp order.
    let input = r#""remotehost","rfc931","authuser","date","request","status","bytes"
"10.0.0.2","-","apache",1001,"GET /api/user HTTP/1.0",200,10
"10.0.0.3","-","apache",1000,"GET /report HTTP/1.0",200,20
"10.0.0.4","-","apache",1011,"GET /api/help HTTP/1.0",200,40"#;
    let config = Config::default();
    let events = run(input, &config).expect("must succeed");
    // Bucket [1000, 1010) closes when t=1011 arrives, then [1010, 1020)
    // is flushed.
    assert_eq!(events.len(), 2);
    match &events[0] {
        OutputEvent::Summary(s) => {
            assert_eq!(s.start, 1000);
            assert_eq!(s.end, 1010);
            assert_eq!(s.count, 2);
            assert_eq!(s.total_bytes, 30);
        },
        OutputEvent::Alert(_) => panic!("expected a summary first"),
    }
    match &events[1] {
        OutputEvent::Summary(s) => {
            assert_eq!(s.start, 1010);
            assert_eq!(s.end, 1020);
            assert_eq!(s.count, 1);
            assert_eq!(s.total_bytes, 40);
        },
        OutputEvent::Alert(_) => panic!("expected a summary second"),
    }
}

#[test]
fn test_monitor_sustained_burst_then_quiet() {
    // 1300 records, one per second, with a threshold the very first
    // record crosses: exactly one alert at t=0, no further emission
    // while the rate stays high, and no recovery at end of stream.
    let mut input = String::from(
        "\"remotehost\",\"rfc931\",\"authuser\",\"date\",\"request\",\"status\",\"bytes\"\n",
    );
    for t in 0..1300u64 {
        input.push_str(&format!(
            "\"10.0.0.2\",\"-\",\"apache\",{},\"GET /api/user HTTP/1.0\",200,100\n",
            t
        ));
    }
    let config = Config {
        stats_window: 10,
        alert_window: 120,
        alert_rate: 0,
        maximum_timestamp_error: 1,
    };
    let events = run(&input, &config).expect("must succeed");
    let alerts: Vec<_> = events
        .iter()
        .filter_map(|e| match e {
            OutputEvent::Alert(a) => Some(a),
            OutputEvent::Summary(_) => None,
        })
        .collect();
    assert_eq!(alerts.len(), 1, "edge-triggered: one alert, no recovery");
    assert!(alerts[0].alert);
    assert_eq!(alerts[0].timestamp, 0);
    assert_eq!(alerts[0].hits, 1);
    // 1300 seconds of traffic in 10-second buckets: 130 summaries,
    // each holding 10 requests.
    let summaries: Vec<_> = events
        .iter()
        .filter_map(|e| match e {
            OutputEvent::Summary(s) => Some(s),
            OutputEvent::Alert(_) => None,
        })
        .collect();
    assert_eq!(summaries.len(), 130);
    assert!(summaries.iter().all(|s| s.count == 10));
    assert_eq!(summaries[0].start, 0);
    assert_eq!(summaries[129].start, 1290);
}
