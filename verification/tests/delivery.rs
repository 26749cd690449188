//! Delivering readings, and reaching the meter.

use std::time::Duration;

use axum::http::StatusCode;
use sciparse::address::ip_socket_addr::ScionSocketIpAddr;
use sciparse::identifier::isd_asn::IsdAsn;
use sciparse::path::ScionPath;
use serde_json::Value;

use pq_meter::binary32::Binary32;
use pq_meter::clock::{Moment, Span};
use pq_meter::gateway::delivery::{
    adopted_config, batch_headers, classify, latest_config, post_of, read_answer, reason, Attempt,
    Delivery, Trigger, UploadStep, Uploader,
};
use pq_meter::gateway::link::{describe, show_path, DeliveryStats, ScionLink};
use pq_meter::gateway::measurement::{Acquired, Acquisition};
use pq_meter::gateway::meter_connection::{MeterConnection, MeterStep};
use pq_meter::gateway::registers::{
    decode_snapshot, decode_value, RegisterBlock, APPARENT_POWER_L1, APPARENT_POWER_SUM3,
    COS_PHI_L1, CURRENT_L1, FREQUENCY, MEASUREMENT_BLOCK_LEN, MEASUREMENT_BLOCK_START,
    PHASE_STRIDE, REACTIVE_POWER_L1, REACTIVE_POWER_SUM3, REAL_ENERGY_CONSUMED_L1, REAL_POWER_L1,
    REAL_POWER_SUM3, SYSTIME, THD_CURRENT_L1, THD_VOLTAGE_L1, VOLTAGE_L1,
};
use pq_meter::gateway::settings::{
    batch_url, can_be_read, endhost_api_url, found_server, resolve_server, server_address,
    GatewaySettings, ReceiverError, DEFAULT_METER_INTERVAL_MS, DEFAULT_QUEUE_CAPACITY,
    DEFAULT_SEND_TIMEOUT_MS, GATEWAY_ENDHOST_API_PORT, SERVER_AS, SERVER_PORT,
};
use pq_meter::gateway::spool::Spool;

fn b(value: f32) -> Binary32 {
    Binary32 { bits: value.to_bits() }
}

fn at(duration: Duration) -> Moment {
    Moment { nanos: 1_000_000_000_000 + duration.as_nanos() }
}

fn millis(millis: u64) -> Moment {
    at(Duration::from_millis(millis))
}

#[test]
fn delivery_stats_start_empty() {
    let stats = DeliveryStats::default();
    assert_eq!(stats.queued_readings, 0);
    assert_eq!(stats.last_ack_latency_ms, None);
    assert_eq!(stats.dropped_readings, 0);
    assert_eq!(stats.modbus_reconnects, 0);
}

/// The classification of a response decides whether readings may be forgotten.
#[test]
fn only_an_acknowledgement_allows_readings_to_be_forgotten() {
    assert_eq!(classify(StatusCode::OK.as_u16()), Delivery::Accepted);
    assert_eq!(classify(StatusCode::NO_CONTENT.as_u16()), Delivery::Accepted);

    // A malformed batch is refused identically every time, so holding on to it
    // would block every reading behind it forever.
    assert_eq!(classify(StatusCode::BAD_REQUEST.as_u16()), Delivery::Rejected);

    // The receiver failing to persist a batch is temporary, and the readings are
    // still good: these must be kept and sent again.
    assert_eq!(
        classify(StatusCode::SERVICE_UNAVAILABLE.as_u16()),
        Delivery::Failed
    );
    assert_eq!(
        classify(StatusCode::INTERNAL_SERVER_ERROR.as_u16()),
        Delivery::Failed
    );
}

#[test]
fn every_status_has_one_meaning() {
    for status in 100..1000u16 {
        let code = StatusCode::from_u16(status).unwrap();
        let expected = if code.is_success() {
            Delivery::Accepted
        } else if code.is_client_error() {
            Delivery::Rejected
        } else {
            Delivery::Failed
        };
        assert_eq!(classify(status), expected, "{status}");
    }
}

/// A queue smaller than a batch could never fill one, so the batch size is the
/// floor.
#[test]
fn the_queue_never_holds_less_than_one_batch() {
    let settings = GatewaySettings::from_arguments(200, 10, 1000, 5000, 2000, 1);
    assert_eq!(settings.batch_size, 10);
    assert_eq!(settings.queue_capacity, settings.batch_size);
}

#[test]
fn settings_are_made_usable() {
    let settings = GatewaySettings::from_arguments(
        DEFAULT_METER_INTERVAL_MS,
        10,
        1000,
        DEFAULT_SEND_TIMEOUT_MS,
        2000,
        DEFAULT_QUEUE_CAPACITY,
    );
    assert_eq!(settings.meter_interval, Span::from_millis(200));
    assert_eq!(settings.batch_timeout, Span::from_millis(1000));
    assert_eq!(settings.send_timeout, Span::from_millis(5000));
    assert_eq!(settings.heartbeat, Some(Span::from_secs(2)));
    assert_eq!(settings.queue_capacity, 5000);

    let empty = GatewaySettings::from_arguments(0, 0, 0, 0, 0, 0);
    assert_eq!(empty.meter_interval, Span::from_millis(1));
    assert_eq!(empty.batch_size, 1);
    assert_eq!(empty.batch_timeout, Span::from_millis(1));
    assert_eq!(empty.send_timeout, Span::from_millis(1));
    assert_eq!(empty.heartbeat, None);
    assert_eq!(empty.queue_capacity, 1);
}

#[test]
fn derives_correct_scion_and_endhost_urls_from_ip() {
    let ip = "127.0.0.1";
    assert_eq!(server_address(ip), format!("[{SERVER_AS},{ip}]:{SERVER_PORT}"));
    let scion_addr: ScionSocketIpAddr = server_address(ip).parse().unwrap();
    assert_eq!(scion_addr.ip().to_string(), ip);
    assert_eq!(scion_addr.port(), SERVER_PORT);

    assert_eq!(
        endhost_api_url(ip),
        format!("http://{ip}:{GATEWAY_ENDHOST_API_PORT}/")
    );
    let endhost_api: url::Url = endhost_api_url(ip).parse().unwrap();
    assert_eq!(endhost_api.as_str(), "http://127.0.0.1:31000/");
    assert_eq!(
        batch_url(60000, "/edh/v1/hello"),
        "https://pq-meter-server:60000/edh/v1/hello"
    );
}

#[test]
fn the_view_of_the_link_rides_along_as_headers() {
    let stats = DeliveryStats {
        queued_readings: 7,
        last_ack_latency_ms: None,
        dropped_readings: 13,
        modbus_reconnects: 4,
    };
    let plain = batch_headers(&stats, None);
    let expected: Vec<(String, String)> = [
        ("content-type", "application/json"),
        ("x-pq-queued-readings", "7"),
        ("x-pq-dropped-readings", "13"),
        ("x-pq-modbus-reconnects", "4"),
    ]
    .iter()
    .map(|(name, value)| (name.to_string(), value.to_string()))
    .collect();
    assert_eq!(plain, expected);

    let mut link = ScionLink::new();
    link.select("a 1>3 b".to_owned());
    link.select("a 1>3 b".to_owned());
    link.select("a 2>3 b".to_owned());
    assert_eq!(link.failover_count(), 1);
    assert_eq!(link.current_path(), Some("a 2>3 b"));
    let stats = DeliveryStats { last_ack_latency_ms: Some(b(12.46)), ..stats };
    let headers = batch_headers(&stats, Some(&link));
    assert_eq!(headers[..4], expected[..]);
    assert_eq!(headers[4], ("x-pq-ack-latency-ms".to_owned(), "12.5".to_owned()));
    assert_eq!(headers[5], ("x-pq-failover-count".to_owned(), "1".to_owned()));
    assert_eq!(headers[6], ("x-pq-scion-path".to_owned(), "a 2>3 b".to_owned()));
    assert_eq!(headers.len(), 7);
}

#[test]
fn the_path_is_looked_up_every_five_seconds() {
    let mut link = ScionLink::new();
    assert!(link.refresh_due(millis(0)));
    assert!(!link.refresh_due(millis(4999)));
    assert!(link.refresh_due(millis(5000)));
    assert!(!link.refresh_due(millis(5001)));
    assert_eq!(link.current_path(), None);
}

#[test]
fn a_path_is_shown_by_its_hops_or_else_by_its_line() {
    assert_eq!(show_path(Some("a 1>2 b".to_owned()), "plain".to_owned()), "a 1>2 b");
    assert_eq!(show_path(Some("  ".to_owned()), "plain".to_owned()), "plain");
    assert_eq!(show_path(None, "plain".to_owned()), "plain");

    let server_as: IsdAsn = SERVER_AS.parse().unwrap();
    let path = ScionPath::local(server_as).unwrap();
    assert_eq!(describe(&path), "[empty]");
    assert!(path.to_string().starts_with("src: 2-ff00:0:212 dst: 2-ff00:0:212 "));
}

#[test]
fn a_receiver_is_given_by_its_ip_address_or_its_scion_address() {
    let usual = resolve_server("192.168.1.42", Some("192.168.1.42")).unwrap();
    assert_eq!(usual.address, "[2-ff00:0:212,192.168.1.42]:60000");
    assert_eq!(usual.host, "192.168.1.42");
    assert_eq!(usual.port, 60000);

    let elsewhere = resolve_server("[1-ff00:0:110,::1]:443", None).unwrap();
    assert_eq!(elsewhere.address, "[1-ff00:0:110,::1]:443");
    assert_eq!(elsewhere.host, "::1");
    assert_eq!(elsewhere.port, 443);

    assert_eq!(resolve_server("gateway", Some("gateway")), Err(ReceiverError::Host));
    assert_eq!(
        ReceiverError::Host.message("gateway"),
        "constructing SCION address from server IP"
    );
    for given in ["gateway", "localhost:443", "[1-ff00:0:110,::1]:99999"] {
        assert!(can_be_read(given));
        assert_eq!(resolve_server(given, None), Err(ReceiverError::Address));
    }
    assert_eq!(
        ReceiverError::Address.message("gateway"),
        "invalid server address: expected an IP address (e.g. 192.168.1.42) or SCION address, got 'gateway'"
    );
    for given in [":443", "a:443", "[:443", "\u{e9}x:443", "x\u{e9}:443"] {
        assert!(!can_be_read(given));
    }
    assert!(can_be_read("]:443"));
    assert_eq!(resolve_server("]:443", None), Err(ReceiverError::Address));

    let found = found_server("a".to_owned(), Some(("b".to_owned(), 7)), None).unwrap();
    assert_eq!((found.address.as_str(), found.host.as_str(), found.port), ("a", "b", 7));
}

#[test]
fn an_answer_is_taken_apart_into_configurations_and_the_rest() {
    let answer = read_answer("no device state change\n");
    assert_eq!(answer.configs.len(), 0);
    assert_eq!(answer.shown, ": no device state change");

    let answer = read_answer("first\n__CONFIG_SYNC__:{\"a\":1}\r\nsecond\n__CONFIG_SYNC__:x\n\n");
    assert_eq!(answer.configs, vec!["{\"a\":1}".to_owned(), "x".to_owned()]);
    assert_eq!(answer.shown, ": first second");

    let answer = read_answer("  \n");
    assert_eq!(answer.configs.len(), 0);
    assert_eq!(answer.shown, "");
}

#[test]
fn the_last_readable_configuration_counts() {
    assert_eq!(latest_config::<u8>(&vec![]), None);
    assert_eq!(latest_config(&vec![Some(1), Some(2), None]), Some(2));
    assert_eq!(latest_config::<u8>(&vec![None, None]), None);
    assert_eq!(adopted_config(Delivery::Accepted, &vec![Some(1), Some(2), None]), Some(2));
    assert_eq!(adopted_config(Delivery::Rejected, &vec![Some(1)]), None);
    assert_eq!(adopted_config(Delivery::Failed, &vec![Some(1)]), None);
}

fn spool_of(readings: i64) -> Spool {
    let mut spool = Spool::new(100);
    for index in 0..readings {
        spool.push(Value::from(index));
    }
    spool
}

#[test]
fn a_batch_waits_for_its_size_or_its_time() {
    let mut uploader = Uploader::new(3, Span::from_millis(1000), millis(0));
    assert_eq!(uploader.next_step(0, millis(1)), UploadStep::AwaitReading);
    uploader.reading_arrived(millis(100));
    assert_eq!(
        uploader.next_step(1, millis(101)),
        UploadStep::AwaitReadingUntil(millis(1100))
    );
    assert_eq!(
        uploader.next_step(3, millis(102)),
        UploadStep::Send(Trigger::Size)
    );
    assert_eq!(
        uploader.next_step(1, millis(1100)),
        UploadStep::Send(Trigger::Time)
    );
    assert_eq!(reason(Trigger::Size), "size trigger");
    assert_eq!(reason(Trigger::Time), "time trigger");
}

#[test]
fn an_acknowledged_batch_leaves_the_queue_and_its_round_trip_is_reported_next() {
    let mut spool = spool_of(5);
    let mut uploader = Uploader::new(3, Span::from_millis(1000), millis(0));
    let lease = uploader.lease(&spool, 2);
    assert_eq!(lease.len(), 3);
    assert_eq!(
        uploader.delivery_stats(),
        DeliveryStats {
            queued_readings: 5,
            last_ack_latency_ms: None,
            dropped_readings: 0,
            modbus_reconnects: 2,
        }
    );
    let outcome = uploader.attempted(Attempt::Answered { status: 200, latency_ms: b(11.5) });
    assert_eq!(outcome, Delivery::Accepted);
    let aftermath = uploader.conclude(&mut spool, &lease, outcome, millis(50));
    assert!(!aftermath.rebuild);
    assert_eq!(aftermath.retry_in, None);
    assert_eq!(spool.depth(), 2);
    let lease = uploader.lease(&spool, 2);
    assert_eq!(lease.readings, vec![Value::from(3), Value::from(4)]);
    assert_eq!(uploader.delivery_stats().last_ack_latency_ms, Some(b(11.5)));
}

#[test]
fn a_batch_is_posted_as_an_array_under_its_headers() {
    let spool = spool_of(3);
    let mut uploader = Uploader::new(2, Span::from_millis(1000), millis(0));
    let lease = uploader.lease(&spool, 2);
    let post = uploader.compose(&lease, None).unwrap();
    assert_eq!(post.body, b"[0,1]");
    assert_eq!(post.headers, batch_headers(&uploader.delivery_stats(), None));
    assert_eq!(post.headers[1].1, "3");

    let nothing = uploader.lease(&Spool::new(5), 2);
    assert_eq!(uploader.compose(&nothing, None), Err(Attempt::Empty));
    assert_eq!(uploader.attempted(Attempt::Empty), Delivery::Accepted);

    let stats = uploader.delivery_stats();
    assert_eq!(post_of(1, None, &stats, None), Err(Attempt::Unsendable));
    assert_eq!(uploader.attempted(Attempt::Unsendable), Delivery::Rejected);
    assert_eq!(uploader.attempted(Attempt::Unanswered), Delivery::Failed);
    assert_eq!(uploader.delivery_stats().last_ack_latency_ms, None);
}

#[test]
fn a_refused_batch_is_counted_and_gives_way() {
    let mut spool = spool_of(5);
    let mut uploader = Uploader::new(3, Span::from_millis(1000), millis(0));
    let lease = uploader.lease(&spool, 0);
    let outcome = uploader.attempted(Attempt::Answered { status: 400, latency_ms: b(1.0) });
    assert_eq!(outcome, Delivery::Rejected);
    uploader.conclude(&mut spool, &lease, outcome, millis(50));
    assert_eq!(spool.depth(), 2);
    uploader.lease(&spool, 0);
    assert_eq!(uploader.delivery_stats().dropped_readings, 3);
    assert_eq!(uploader.delivery_stats().last_ack_latency_ms, None);
}

#[test]
fn a_failed_batch_is_deferred_and_sent_again_and_the_third_failure_rebuilds() {
    let mut spool = spool_of(5);
    let mut uploader = Uploader::new(3, Span::from_millis(1000), millis(0));
    let mut now = Duration::ZERO;
    for attempt in 1..=3u32 {
        let lease = uploader.lease(&spool, 0);
        assert_eq!(
            lease.readings,
            vec![Value::from(0), Value::from(1), Value::from(2)]
        );
        let outcome = uploader.attempted(Attempt::Answered { status: 503, latency_ms: b(1.0) });
        let aftermath = uploader.conclude(&mut spool, &lease, outcome, at(now));
        assert_eq!(aftermath.rebuild, attempt == 3);
        let nominal = Duration::from_millis(500 << (attempt - 1));
        let delay = Duration::from_nanos(aftermath.retry_in.unwrap().nanos as u64);
        assert!(delay >= nominal.mul_f64(0.75) && delay <= nominal.mul_f64(1.25));
        assert_eq!(spool.depth(), 5);
        let due = at(now + delay);
        assert_eq!(uploader.next_step(5, at(now)), UploadStep::SleepUntil(due));
        now += delay;
        assert_eq!(
            uploader.next_step(5, at(now)),
            UploadStep::Send(Trigger::Size)
        );
    }
}

/// What acquisition evicts during an attempt is gone; the rest of the batch is
/// still the first thing that is sent, in its order.
#[test]
fn what_is_left_of_a_failed_batch_is_sent_first() {
    let mut spool = Spool::new(5);
    for reading in 0..5 {
        spool.push(Value::from(reading));
    }
    let mut uploader = Uploader::new(3, Span::from_millis(1000), millis(0));
    let lease = uploader.lease(&spool, 0);
    spool.push(Value::from(5));
    spool.push(Value::from(6));
    assert_eq!(spool.counted(), Some(7));
    assert_eq!(lease.counted(), Some(3));
    let outcome = uploader.attempted(Attempt::Unanswered);
    assert!(uploader.can_conclude(&spool, &lease, millis(10)));
    assert!(!uploader.can_conclude(&spool, &lease, Moment { nanos: u128::MAX }));
    uploader.conclude(&mut spool, &lease, outcome, millis(10));
    assert_eq!(
        uploader.lease(&spool, 0).readings,
        vec![Value::from(2), Value::from(3), Value::from(4)]
    );
}

/// Nothing is known of a meter that never answered, and nothing panics.
#[test]
fn a_meter_that_never_answers_yields_no_snapshot_and_does_not_panic() {
    let mut meter = MeterConnection::new();
    assert_eq!(meter.next_step(millis(0)), MeterStep::Connect);
    meter.connect_failed(millis(0));
    assert_eq!(meter.next_step(millis(1)), MeterStep::Wait);
}

/// The gateway must be able to start before the meter, so a failed first
/// connection is a wait rather than a reconnection.
#[test]
fn failing_to_connect_the_first_time_is_not_counted_as_a_reconnect() {
    let mut meter = MeterConnection::new();
    meter.next_step(millis(0));
    meter.connect_failed(millis(0));
    assert_eq!(meter.reconnects(), 0);
}

/// Backoff must actually hold the loop off, or an unreachable meter would be
/// retried on every tick.
#[test]
fn a_failed_attempt_defers_the_next_one() {
    let mut meter = MeterConnection::new();
    meter.next_step(millis(0));
    meter.connect_failed(millis(0));
    let deferred = meter.retry_at();
    assert!(deferred.is_some());
    assert_eq!(meter.next_step(millis(1)), MeterStep::Wait);
    assert_eq!(
        meter.retry_at(),
        deferred,
        "the second attempt should have been skipped, not made"
    );
    assert_eq!(meter.next_step(deferred.unwrap()), MeterStep::Connect);
}

#[test]
fn a_lost_meter_is_reached_again_and_counted() {
    let mut meter = MeterConnection::new();
    assert_eq!(meter.next_step(millis(0)), MeterStep::Connect);
    assert!(!meter.connect_succeeded());
    assert_eq!(meter.next_step(millis(1)), MeterStep::Read);
    meter.read_succeeded();
    meter.read_failed(millis(2));
    assert_eq!(meter.next_step(millis(3)), MeterStep::Wait);
    assert_eq!(meter.next_step(millis(200)), MeterStep::Connect);
    assert!(meter.connect_succeeded());
    assert_eq!(meter.reconnects(), 1);
    assert_eq!(meter.next_step(millis(201)), MeterStep::Read);
}

/// One turn of acquisition: a meter that answers has zeros in every register.
fn poll(
    meter: &mut MeterConnection,
    acquisition: &mut Acquisition,
    spool: &mut Spool,
    healthy: bool,
    now: Moment,
) {
    match meter.next_step(now) {
        MeterStep::Wait => return,
        MeterStep::Connect if healthy => {
            meter.connect_succeeded();
        }
        MeterStep::Connect => {
            meter.connect_failed(now);
            return;
        }
        MeterStep::Read => {}
    }
    if !healthy {
        meter.read_failed(now);
        return;
    }
    meter.read_succeeded();
    let clock = RegisterBlock { start: SYSTIME, registers: vec![0; 2] };
    let block = RegisterBlock {
        start: MEASUREMENT_BLOCK_START,
        registers: vec![0; MEASUREMENT_BLOCK_LEN as usize],
    };
    let snapshot = decode_snapshot(&clock, &block).unwrap();
    if let Acquired::Record { changed, .. } = acquisition.take(&snapshot, now) {
        spool.push(Value::from(!changed));
    }
}

/// A meter that goes away is a gap in acquisition that the gateway recovers from
/// on its own.
#[test]
fn a_meter_that_fails_and_returns_does_not_stop_acquisition() {
    let mut meter = MeterConnection::new();
    let mut acquisition = Acquisition::new(Some(Span::from_millis(10)));
    let mut spool = Spool::new(1000);
    for turn in 0..3 {
        poll(&mut meter, &mut acquisition, &mut spool, true, millis(10 * turn));
    }
    assert_eq!(spool.depth(), 3);

    for turn in 3..43 {
        poll(&mut meter, &mut acquisition, &mut spool, false, millis(10 * turn));
    }
    let during_outage = spool.depth();
    assert_eq!(during_outage, 3);

    for turn in 43..543 {
        poll(&mut meter, &mut acquisition, &mut spool, true, millis(10 * turn));
    }
    assert!(spool.depth() > during_outage);
    assert_eq!(meter.reconnects(), 1);
}

/// A gateway whose receiver is unreachable keeps acquiring, sheds the oldest
/// readings once it runs out of room, and says how many it lost.
#[test]
fn an_outage_that_outlasts_the_queue_sheds_the_oldest_and_counts_the_loss() {
    let mut meter = MeterConnection::new();
    let mut acquisition = Acquisition::new(Some(Span::from_millis(5)));
    let capacity = 8;
    let mut spool = Spool::new(capacity);
    for turn in 0..20 {
        poll(&mut meter, &mut acquisition, &mut spool, true, millis(5 * turn));
    }
    assert_eq!(spool.depth(), capacity, "the queue grew past its bound");
    assert_eq!(spool.stats().dropped_overflow, 12);
    assert_eq!(spool.stats().dropped_rejected, 0);
    assert_eq!(spool.peek(capacity).readings, vec![Value::Bool(true); capacity]);
}

fn set(registers: &mut [u16], addr: u16, value: f32) {
    let bits = value.to_bits();
    let offset = (addr - MEASUREMENT_BLOCK_START) as usize;
    registers[offset] = (bits >> 16) as u16;
    registers[offset + 1] = (bits & 0xFFFF) as u16;
}

fn set_phases(registers: &mut [u16], addr: u16, values: [f32; 3]) {
    for (phase, value) in values.into_iter().enumerate() {
        set(registers, addr + PHASE_STRIDE * phase as u16, value);
    }
}

fn p(values: [f32; 3]) -> [Binary32; 3] {
    [b(values[0]), b(values[1]), b(values[2])]
}

#[test]
fn a_snapshot_is_read_out_of_the_block_and_the_clock() {
    let mut registers = vec![0u16; MEASUREMENT_BLOCK_LEN as usize];
    set_phases(&mut registers, VOLTAGE_L1, [230.5, 231.5, 232.5]);
    set_phases(&mut registers, CURRENT_L1, [4.2, 4.3, 4.4]);
    set_phases(&mut registers, REAL_POWER_L1, [968.1, 970.1, 972.1]);
    set_phases(&mut registers, APPARENT_POWER_L1, [968.5, 970.5, 972.5]);
    set_phases(&mut registers, REACTIVE_POWER_L1, [15.0, 16.0, 17.0]);
    set_phases(&mut registers, COS_PHI_L1, [0.99, 0.98, 0.97]);
    set_phases(
        &mut registers,
        REAL_ENERGY_CONSUMED_L1,
        [123456.0, 123457.0, 123458.0],
    );
    set_phases(&mut registers, THD_VOLTAGE_L1, [1.85, 1.86, 1.87]);
    set_phases(&mut registers, THD_CURRENT_L1, [2.5, f32::NAN, f32::NAN]);
    set(&mut registers, REAL_POWER_SUM3, 2910.3);
    set(&mut registers, APPARENT_POWER_SUM3, 2911.5);
    set(&mut registers, REACTIVE_POWER_SUM3, 48.0);
    set(&mut registers, FREQUENCY, 50.02);
    let block = RegisterBlock { start: MEASUREMENT_BLOCK_START, registers };
    let time = 1_700_000_000u32;
    let clock = RegisterBlock {
        start: SYSTIME,
        registers: vec![(time >> 16) as u16, (time & 0xFFFF) as u16],
    };
    let snapshot = decode_snapshot(&clock, &block).unwrap();
    assert_eq!(snapshot.systime, 1_700_000_000);
    assert_eq!(snapshot.voltage, p([230.5, 231.5, 232.5]));
    assert_eq!(snapshot.current, p([4.2, 4.3, 4.4]));
    assert_eq!(snapshot.real_power, p([968.1, 970.1, 972.1]));
    assert_eq!(snapshot.apparent_power, p([968.5, 970.5, 972.5]));
    assert_eq!(snapshot.reactive_power, p([15.0, 16.0, 17.0]));
    assert_eq!(snapshot.cos_phi, p([0.99, 0.98, 0.97]));
    assert_eq!(snapshot.real_energy_consumed, p([123456.0, 123457.0, 123458.0]));
    assert_eq!(snapshot.thd_voltage, p([1.85, 1.86, 1.87]));
    assert_eq!(snapshot.thd_current, p([2.5, f32::NAN, f32::NAN]));
    assert_eq!(snapshot.real_power_sum3, b(2910.3));
    assert_eq!(snapshot.apparent_power_sum3, b(2911.5));
    assert_eq!(snapshot.reactive_power_sum3, b(48.0));
    assert_eq!(snapshot.frequency, b(50.02));

    assert_eq!(block.f32_at(THD_CURRENT_L1), Ok(b(2.5)));
    assert_eq!(
        block.f32_at(MEASUREMENT_BLOCK_START + MEASUREMENT_BLOCK_LEN - 1),
        Err("expected 2 registers at 19121, got 1".to_owned())
    );
    let negative = RegisterBlock { start: SYSTIME, registers: vec![0xFFFF, 0xFFFE] };
    assert_eq!(negative.i32_at(SYSTIME), Ok(-2));
}

#[test]
fn short_answers_of_the_meter_are_errors() {
    assert_eq!(decode_value(19000, &vec![0x4366, 0x8000]), Ok(b(230.5)));
    assert_eq!(
        decode_value(19000, &vec![1]),
        Err("expected 2 registers at 19000, got 1".to_owned())
    );
    assert_eq!(
        decode_value(19012, &vec![1, 2, 3]),
        Err("expected 2 registers at 19012, got 3".to_owned())
    );
    let clock = RegisterBlock { start: SYSTIME, registers: vec![0, 1] };
    let short = RegisterBlock { start: MEASUREMENT_BLOCK_START, registers: vec![0; 121] };
    assert_eq!(
        decode_snapshot(&clock, &short).err(),
        Some("the block of measured values is incomplete".to_owned())
    );
    let none = RegisterBlock { start: SYSTIME, registers: vec![] };
    assert_eq!(
        decode_snapshot(&none, &short).err(),
        Some("expected 2 registers at 4, got 0".to_owned())
    );
}
