//! What a gateway reports about its link.

use axum::http::{HeaderMap, HeaderValue};

use pq_meter::binary32::Binary32;
use pq_meter::gateway::link::{
    HEADER_ACK_LATENCY, HEADER_DROPPED, HEADER_FAILOVERS, HEADER_PATH, HEADER_QUEUED,
    HEADER_RECONNECTS,
};
use pq_meter::receiver::transport::{sanitize_path, GatewayTransport, MAX_PATH_LEN};

fn b(value: f32) -> Binary32 {
    Binary32 { bits: value.to_bits() }
}

fn headers(pairs: &[(&'static str, &str)]) -> HeaderMap {
    let mut headers = HeaderMap::new();
    for (name, value) in pairs {
        headers.insert(*name, HeaderValue::from_str(value).unwrap());
    }
    headers
}

fn from_headers(headers: &HeaderMap) -> GatewayTransport {
    let latency = GatewayTransport::latency_text(headers)
        .and_then(|text| text.parse::<f32>().ok())
        .map(b);
    GatewayTransport::from_headers(headers, latency)
}

#[test]
fn reads_a_complete_report() {
    let reported = from_headers(&headers(&[
        (HEADER_PATH, "1-ff00:0:132 1>3 2-ff00:0:212"),
        (HEADER_QUEUED, "7"),
        (HEADER_ACK_LATENCY, "12.5"),
        (HEADER_FAILOVERS, "2"),
        (HEADER_DROPPED, "13"),
        (HEADER_RECONNECTS, "4"),
    ]));

    assert_eq!(
        reported,
        GatewayTransport {
            scion_path: Some("1-ff00:0:132 1>3 2-ff00:0:212".to_owned()),
            queued_readings: Some(7),
            last_ack_latency_ms: Some(b(12.5)),
            failover_count: Some(2),
            dropped_readings: Some(13),
            modbus_reconnects: Some(4),
        }
    );
    assert!(!reported.is_empty());
}

#[test]
fn a_gateway_that_reports_nothing_leaves_the_state_empty() {
    let reported = from_headers(&HeaderMap::new());
    assert!(reported.is_empty());
    // Nothing reported must stay nothing, not become zeros that look measured.
    assert_eq!(reported, GatewayTransport::default());
    assert_eq!(
        reported,
        GatewayTransport {
            scion_path: None,
            queued_readings: None,
            last_ack_latency_ms: None,
            failover_count: None,
            dropped_readings: None,
            modbus_reconnects: None,
        }
    );
}

#[test]
fn a_malformed_field_is_dropped_without_losing_the_others() {
    let reported = from_headers(&headers(&[
        (HEADER_PATH, "1-ff00:0:132 1>3 2-ff00:0:212"),
        (HEADER_QUEUED, "not a number"),
        (HEADER_ACK_LATENCY, "NaN"),
        (HEADER_FAILOVERS, "-1"),
        (HEADER_DROPPED, "3.5"),
    ]));

    assert_eq!(
        reported.scion_path.as_deref(),
        Some("1-ff00:0:132 1>3 2-ff00:0:212")
    );
    assert_eq!(reported.queued_readings, None);
    assert_eq!(reported.last_ack_latency_ms, None, "NaN is not a latency");
    assert_eq!(reported.failover_count, None, "a count cannot be negative");
    assert_eq!(reported.dropped_readings, None, "a count is not fractional");
}

/// A gateway that knows only some of the headers reports those and nothing else.
#[test]
fn an_older_gateway_reporting_only_the_original_fields_still_works() {
    let reported = from_headers(&headers(&[
        (HEADER_PATH, "1-ff00:0:132 1>3 2-ff00:0:212"),
        (HEADER_QUEUED, "7"),
    ]));

    assert_eq!(reported.queued_readings, Some(7));
    assert_eq!(reported.dropped_readings, None);
    assert_eq!(reported.modbus_reconnects, None);
    assert!(!reported.is_empty());
}

/// A gateway that has lost nothing must say so, rather than stay silent.
#[test]
fn a_reported_zero_is_kept_and_is_not_an_absence() {
    let reported = from_headers(&headers(&[(HEADER_DROPPED, "0"), (HEADER_RECONNECTS, "0")]));
    assert_eq!(reported.dropped_readings, Some(0));
    assert_eq!(reported.modbus_reconnects, Some(0));
    assert!(!reported.is_empty());
}

#[test]
fn bounds_and_cleans_a_path_reported_by_the_peer() {
    let long = "A".repeat(MAX_PATH_LEN * 2);
    let reported = from_headers(&headers(&[(HEADER_PATH, &format!("  {long}  "))]));
    assert_eq!(reported.scion_path.unwrap().len(), MAX_PATH_LEN);

    // An empty or whitespace-only report is an absence, not a path.
    assert_eq!(from_headers(&headers(&[(HEADER_PATH, "   ")])).scion_path, None);
}

#[test]
fn control_characters_are_taken_out_of_a_path() {
    assert_eq!(sanitize_path(" a\u{7}b\tc\u{9b} "), Some("abc".to_owned()));
    assert_eq!(sanitize_path("\u{1}\u{2}"), None);
    let mixed = format!("{}\u{1}{}", "x".repeat(MAX_PATH_LEN - 1), "yz");
    let kept = sanitize_path(&mixed).unwrap();
    assert_eq!(kept.chars().count(), MAX_PATH_LEN);
    assert!(kept.ends_with("xy"));
}

#[test]
fn counts_are_bounded_by_what_holds_them() {
    let reported = from_headers(&headers(&[
        (HEADER_QUEUED, "4294967295"),
        (HEADER_FAILOVERS, "4294967296"),
        (HEADER_DROPPED, " 18446744073709551615 "),
        (HEADER_RECONNECTS, "18446744073709551616"),
        (HEADER_ACK_LATENCY, "-0.5"),
    ]));
    assert_eq!(reported.queued_readings, Some(u32::MAX));
    assert_eq!(reported.failover_count, None);
    assert_eq!(reported.dropped_readings, Some(u64::MAX));
    assert_eq!(reported.modbus_reconnects, None);
    assert_eq!(reported.last_ack_latency_ms, None);
    let unreadable = HeaderValue::from_bytes(&[0xff, 0xfe]).unwrap();
    let mut raw = HeaderMap::new();
    raw.insert(HEADER_PATH, unreadable);
    assert!(from_headers(&raw).is_empty());
    let copy = reported.copy();
    assert_eq!(copy, reported);
}
