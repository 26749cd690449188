//! Which snapshots are worth sending, and what is said about them.

use std::time::Duration;

use serde_json::Value;

use pq_meter::binary32::Binary32;
use pq_meter::clock::{Moment, Span};
use pq_meter::gateway::measurement::{
    measured, measurement_json, phase_json, show, summary, Acquired, Acquisition,
};
use pq_meter::gateway::monitor::{
    exceeds, should_record, ActiveThresholds, BaselineReading, SettledMonitor,
};
use pq_meter::gateway::registers::{Phases, Snapshot, PHASE_COUNT};
use pq_meter::json::Json;
use pq_meter::thresholds::{decode_config, encode_config, ClientThresholdConfig};

fn b(value: f32) -> Binary32 {
    Binary32 { bits: value.to_bits() }
}

fn f(value: Binary32) -> f32 {
    f32::from_bits(value.bits)
}

fn p(values: [f32; 3]) -> Phases {
    [b(values[0]), b(values[1]), b(values[2])]
}

fn raise(value: &mut Binary32, by: f32) {
    *value = b(f(*value) + by);
}

fn span(duration: Duration) -> Span {
    Span { nanos: duration.as_nanos() }
}

/// A moment some time after the start.
fn at(duration: Duration) -> Moment {
    Moment { nanos: 1_000_000_000_000 + duration.as_nanos() }
}

fn start() -> Moment {
    at(Duration::ZERO)
}

fn value_of(json: &Json) -> Value {
    match json {
        Json::Null => Value::Null,
        Json::Bool(value) => Value::Bool(*value),
        Json::Integer(number) => Value::from(*number as i64),
        Json::Decimal(number) => Value::from(f(*number)),
        Json::Text { text, .. } => Value::String(text.clone()),
        Json::List(values) => Value::Array(values.iter().map(value_of).collect()),
        Json::Object(members) => Value::Object(
            members
                .iter()
                .map(|(name, value)| (name.clone(), value_of(value)))
                .collect(),
        ),
    }
}

/// The lab setup: the meter is wired up on L1 only, so the other two phases carry
/// no voltage or current, and the meter reports the harmonic distortion of a
/// current that is not there as NaN.
fn sample_reading() -> BaselineReading {
    BaselineReading {
        frequency: b(50.0),
        voltage: p([230.0, 0.0, 0.0]),
        current: p([1.0, 0.0, 0.0]),
        real_power: p([230.0, 0.0, 0.0]),
        real_power_sum3: b(230.0),
        apparent_power_sum3: b(230.0),
        reactive_power_sum3: b(0.0),
        cos_phi: p([1.0, 1.0, 1.0]),
        thd_voltage: p([1.5, f32::NAN, f32::NAN]),
        thd_current: p([1.5, f32::NAN, f32::NAN]),
    }
}

/// Moves the load on L1, keeping the three-phase sum consistent with the phases.
fn with_real_power(reading: BaselineReading, watts: f32) -> BaselineReading {
    BaselineReading {
        real_power: [b(watts), reading.real_power[1], reading.real_power[2]],
        real_power_sum3: b(watts + f(reading.real_power[1]) + f(reading.real_power[2])),
        ..reading
    }
}

fn changed(old: &BaselineReading, new: &BaselineReading) -> bool {
    old.exceeds_threshold(new, &ActiveThresholds::default())
}

#[test]
fn ignores_small_noise_fluctuations() {
    let baseline = sample_reading();
    let noisy = BaselineReading {
        frequency: b(50.05),
        voltage: p([230.4, 0.0, 0.0]),
        current: p([1.02, 0.0, 0.0]),
        real_power: p([231.5, 0.0, 0.0]),
        real_power_sum3: b(231.5),
        apparent_power_sum3: b(232.0),
        reactive_power_sum3: b(0.8),
        cos_phi: p([0.98, 1.0, 1.0]),
        thd_voltage: p([1.9, f32::NAN, f32::NAN]),
        thd_current: p([4.5, f32::NAN, f32::NAN]),
    };
    assert!(!changed(&baseline, &noisy));
}

#[test]
fn discards_real_world_noise_from_log() {
    let baseline = BaselineReading {
        frequency: b(49.99),
        voltage: p([238.43, 0.0, 0.0]),
        current: p([0.29, 0.0, 0.0]),
        real_power: p([23.38, 0.0, 0.0]),
        real_power_sum3: b(23.38),
        apparent_power_sum3: b(68.38),
        reactive_power_sum3: b(-34.37),
        cos_phi: p([0.56, 1.0, 1.0]),
        thd_voltage: p([1.85, f32::NAN, f32::NAN]),
        thd_current: p([130.81, f32::NAN, f32::NAN]),
    };

    // The lowest voltage, power, apparent power and distortion seen while idle.
    let extreme_reading = BaselineReading {
        frequency: b(49.99),
        voltage: p([238.26, 0.0, 0.0]),
        current: p([0.28, 0.0, 0.0]),
        real_power: p([22.39, 0.0, 0.0]),
        real_power_sum3: b(22.39),
        apparent_power_sum3: b(66.10),
        reactive_power_sum3: b(-34.57),
        cos_phi: p([0.54, 1.0, 1.0]),
        thd_voltage: p([1.88, f32::NAN, f32::NAN]),
        thd_current: p([125.79, f32::NAN, f32::NAN]),
    };

    assert!(!changed(&baseline, &extreme_reading));
}

#[test]
fn discards_extended_idling_noise() {
    let reading_a = BaselineReading {
        frequency: b(49.95),
        voltage: p([238.59, 0.0, 0.0]),
        current: p([0.29, 0.0, 0.0]),
        real_power: p([23.21, 0.0, 0.0]),
        real_power_sum3: b(23.21),
        apparent_power_sum3: b(68.08),
        reactive_power_sum3: b(-34.36),
        cos_phi: p([0.56, 1.0, 1.0]),
        thd_voltage: p([1.84, f32::NAN, f32::NAN]),
        thd_current: p([130.45, f32::NAN, f32::NAN]),
    };

    let reading_b = BaselineReading {
        frequency: b(49.95),
        voltage: p([238.73, 0.0, 0.0]),
        current: p([0.27, 0.0, 0.0]),
        real_power: p([21.66, 0.0, 0.0]),
        real_power_sum3: b(21.66),
        apparent_power_sum3: b(64.01),
        reactive_power_sum3: b(-34.99),
        cos_phi: p([0.52, 1.0, 1.0]),
        thd_voltage: p([1.90, f32::NAN, f32::NAN]),
        thd_current: p([119.26, f32::NAN, f32::NAN]),
    };

    assert!(!changed(&reading_a, &reading_b));
}

#[test]
fn triggers_when_any_metric_exceeds_threshold() {
    let baseline = sample_reading();

    let mut reading = baseline;
    raise(&mut reading.voltage[0], 2.0);
    assert!(changed(&baseline, &reading));

    let mut reading = baseline;
    raise(&mut reading.current[0], 0.10);
    assert!(changed(&baseline, &reading));

    let mut reading = baseline;
    raise(&mut reading.frequency, -0.30);
    assert!(changed(&baseline, &reading));

    let mut reading = baseline;
    raise(&mut reading.real_power[0], 5.0);
    assert!(changed(&baseline, &reading));

    let mut reading = baseline;
    raise(&mut reading.real_power_sum3, 13.0);
    assert!(changed(&baseline, &reading));

    let mut reading = baseline;
    raise(&mut reading.apparent_power_sum3, 25.0);
    assert!(changed(&baseline, &reading));

    let mut reading = baseline;
    raise(&mut reading.reactive_power_sum3, 10.0);
    assert!(changed(&baseline, &reading));

    let mut reading = baseline;
    raise(&mut reading.cos_phi[0], -0.10);
    assert!(changed(&baseline, &reading));

    let mut reading = baseline;
    raise(&mut reading.thd_voltage[0], 1.5);
    assert!(changed(&baseline, &reading));

    let mut reading = baseline;
    raise(&mut reading.thd_current[0], 16.0);
    assert!(changed(&baseline, &reading));
}

#[test]
fn triggers_on_a_change_in_any_phase() {
    let baseline = sample_reading();

    // A load appearing on a phase that carried nothing has to be reported,
    // whichever phase it is.
    for phase in 1..PHASE_COUNT {
        let mut reading = baseline;
        reading.voltage[phase] = b(230.0);
        reading.current[phase] = b(1.0);
        reading.real_power[phase] = b(230.0);
        assert!(
            changed(&baseline, &reading),
            "a load on L{} must count as a change",
            phase + 1
        );
    }
}

#[test]
fn values_the_meter_cannot_determine_never_count_as_a_change() {
    // The distortion of the two unwired phases is NaN in every reading.
    let baseline = sample_reading();
    assert!(!changed(&baseline, &sample_reading()));

    // The same holds when a value becomes available, or stops being available.
    let mut appeared = baseline;
    appeared.thd_current[1] = b(42.0);
    assert!(!changed(&baseline, &appeared));
    assert!(!changed(&appeared, &baseline));
}

#[test]
fn new_baseline_discards_subsequent_noise() {
    let mut baseline = sample_reading();
    let mut new_state = baseline;
    new_state.voltage[0] = b(235.0);

    assert!(changed(&baseline, &new_state));
    baseline = new_state;

    let mut small_fluctuation = new_state;
    small_fluctuation.voltage[0] = b(235.4);
    assert!(!changed(&baseline, &small_fluctuation));
}

/// A snapshot shaped like the one the meter in the lab returns: L1 loaded, L2 and
/// L3 unconnected, and NaN wherever the meter has nothing to measure.
fn sample_snapshot() -> Snapshot {
    Snapshot {
        systime: 1_789_068_334,
        frequency: b(49.97),
        voltage: p([241.66, 0.0, 0.0]),
        current: p([0.297, 0.0, 0.0]),
        real_power: p([25.6, 0.0, 0.0]),
        real_power_sum3: b(25.6),
        apparent_power: p([71.7, 0.0, 0.0]),
        apparent_power_sum3: b(71.7),
        reactive_power: p([-36.59, 0.0, 0.0]),
        reactive_power_sum3: b(-36.59),
        cos_phi: p([0.57, 1.0, 1.0]),
        real_energy_consumed: p([439.93, 0.01, 0.01]),
        thd_voltage: p([1.85, f32::NAN, f32::NAN]),
        thd_current: p([125.42, f32::NAN, f32::NAN]),
    }
}

#[test]
fn baseline_reading_takes_every_phase_from_the_snapshot() {
    let snapshot = sample_snapshot();
    let reading = BaselineReading::from_snapshot(&snapshot);

    assert_eq!(reading.frequency, snapshot.frequency);
    assert_eq!(reading.voltage, snapshot.voltage);
    assert_eq!(reading.current, snapshot.current);
    assert_eq!(reading.real_power, snapshot.real_power);
    assert_eq!(reading.real_power_sum3, snapshot.real_power_sum3);
    assert_eq!(reading.apparent_power_sum3, snapshot.apparent_power_sum3);
    assert_eq!(reading.reactive_power_sum3, snapshot.reactive_power_sum3);
    assert_eq!(reading.cos_phi, snapshot.cos_phi);
    assert_eq!(reading.thd_voltage, snapshot.thd_voltage);
    assert_eq!(reading.thd_current, snapshot.thd_current);
}

#[test]
fn measurement_carries_all_three_phases_and_the_measured_sums() {
    let snapshot = sample_snapshot();
    let measurement = value_of(&measurement_json(&snapshot, snapshot.real_power_sum3, false));

    // The total is the meter's own three-phase sum, not L1 alone.
    assert_eq!(measurement["total_power"], Value::from(25.6_f32));
    assert_eq!(measurement["systime"], 1_789_068_334);
    assert_eq!(measurement["frequency_hz"], Value::from(49.97_f32));
    assert_eq!(measurement["totals"]["real_power_w"], Value::from(25.6_f32));
    assert_eq!(measurement["totals"]["apparent_power_va"], Value::from(71.7_f32));
    assert_eq!(measurement["totals"]["reactive_power_var"], Value::from(-36.59_f32));

    for (phase, block) in ["l1", "l2", "l3"].into_iter().enumerate() {
        for (field, value) in [
            ("voltage_v", snapshot.voltage[phase]),
            ("current_a", snapshot.current[phase]),
            ("real_power_w", snapshot.real_power[phase]),
            ("apparent_power_va", snapshot.apparent_power[phase]),
            ("reactive_power_var", snapshot.reactive_power[phase]),
            ("cos_phi", snapshot.cos_phi[phase]),
            ("real_energy_consumed_wh", snapshot.real_energy_consumed[phase]),
        ] {
            assert_eq!(measurement[block][field], Value::from(f(value)), "{block}.{field}");
        }
    }
}

#[test]
fn unavailable_values_are_sent_as_null_rather_than_dropped_or_zeroed() {
    let measurement = value_of(&measurement_json(&sample_snapshot(), b(25.6), false));

    for block in ["l2", "l3"] {
        for field in ["thd_voltage_pct", "thd_current_pct"] {
            let members = measurement[block].as_object().unwrap();
            assert_eq!(members.get(field), Some(&Value::Null), "{block}.{field}");
        }
    }
    assert_eq!(measurement["l1"]["thd_voltage_pct"], Value::from(1.85_f32));
    assert_eq!(measurement["l1"]["thd_current_pct"], Value::from(125.42_f32));

    let mut snapshot = sample_snapshot();
    snapshot.frequency = b(f32::NAN);
    snapshot.reactive_power_sum3 = b(f32::INFINITY);
    let measurement = value_of(&measurement_json(&snapshot, b(25.6), true));
    let members = measurement.as_object().unwrap();
    let names: Vec<&str> = members.keys().map(|name| name.as_str()).collect();
    assert_eq!(
        names,
        vec!["frequency_hz", "heartbeat", "l1", "l2", "l3", "systime", "total_power", "totals"]
    );
    assert_eq!(members["frequency_hz"], Value::Null);
    assert_eq!(members["totals"]["reactive_power_var"], Value::Null);
    for (phase, block) in ["l1", "l2", "l3"].into_iter().enumerate() {
        assert_eq!(members[block].as_object().unwrap().len(), 9);
        assert_eq!(members[block], value_of(&phase_json(&snapshot, phase)));
    }
    assert_eq!(members["totals"].as_object().unwrap().len(), 3);
}

#[test]
fn a_reading_says_whether_it_is_a_settled_change_or_a_keepalive() {
    let snapshot = sample_snapshot();
    assert_eq!(
        value_of(&measurement_json(&snapshot, b(25.6), false))["heartbeat"],
        Value::Bool(false)
    );
    assert_eq!(
        value_of(&measurement_json(&snapshot, b(25.6), true))["heartbeat"],
        Value::Bool(true)
    );
}

#[test]
fn exported_power_is_reported_as_a_negative_total() {
    let mut snapshot = sample_snapshot();
    snapshot.real_power = p([-1200.0, 0.0, 0.0]);
    snapshot.real_power_sum3 = b(-1200.0);

    let measurement = value_of(&measurement_json(&snapshot, snapshot.real_power_sum3, false));
    assert_eq!(measurement["total_power"], Value::from(-1200.0_f32));
    assert_eq!(measurement["l1"]["real_power_w"], Value::from(-1200.0_f32));
}

#[test]
fn summary_line_names_every_phase_and_marks_unavailable_values() {
    let line = summary(&sample_snapshot());

    assert!(line.contains("L1 ["), "{line}");
    assert!(line.contains("L2 ["), "{line}");
    assert!(line.contains("L3 ["), "{line}");
    assert!(line.contains("Sum3 [P: 25.60W, S: 71.70VA, Q: -36.59var]"), "{line}");
    assert!(line.contains("THD_I: n/a%"), "{line}");
    assert!(line.contains("THD_I: 125.42%"), "{line}");
}

#[test]
fn the_whole_summary_line() {
    assert_eq!(
        summary(&sample_snapshot()),
        "Time: 1789068334 | Freq: 49.97Hz | Sum3 [P: 25.60W, S: 71.70VA, Q: -36.59var] \
         | L1 [U: 241.66V, I: 0.30A, P: 25.60W, PF: 0.57, THD_U: 1.85%, THD_I: 125.42%] \
         | L2 [U: 0.00V, I: 0.00A, P: 0.00W, PF: 1.00, THD_U: n/a%, THD_I: n/a%] \
         | L3 [U: 0.00V, I: 0.00A, P: 0.00W, PF: 1.00, THD_U: n/a%, THD_I: n/a%]"
    );
    assert_eq!(show(b(f32::INFINITY), 2), "n/a");
    assert_eq!(show(b(2.5), 0), "2");
    assert_eq!(show(b(0.1), 10), "0.1000000015");
    assert_eq!(measured(b(f32::NAN)), None);
    assert_eq!(measured(b(-0.5)), Some(b(-0.5)));
}

#[test]
fn a_total_that_is_no_number_is_sent_as_null() {
    for total in [f32::NAN, f32::INFINITY, f32::NEG_INFINITY] {
        let measurement = value_of(&measurement_json(&sample_snapshot(), b(total), false));
        assert_eq!(measurement["total_power"], Value::Null);
    }
}

#[test]
fn a_step_that_is_no_number_is_not_told() {
    let config = ClientThresholdConfig {
        voltage_step_v: Some(b(f32::INFINITY)),
        voltage_enabled: Some(true),
        frequency_step_hz: Some(b(0.5)),
        ..config()
    };
    let told = encode_config(&config);
    assert_eq!(value_of(&told)["voltage_step_v"], Value::Null);
    assert_eq!(
        decode_config(&told),
        Some(ClientThresholdConfig { voltage_step_v: None, ..config })
    );
}

#[test]
fn a_settled_change_is_always_recorded() {
    let now = start();
    // Even immediately after another reading, and even without a heartbeat.
    assert!(should_record(true, None, Some(now), now));
    assert!(should_record(true, Some(Span::from_secs(2)), Some(now), now));
}

#[test]
fn an_unchanged_reading_is_recorded_once_the_link_has_been_quiet_too_long() {
    let t0 = start();
    let heartbeat = Some(Span::from_secs(2));

    // The very first reading has nothing to be quiet since.
    assert!(should_record(false, heartbeat, None, t0));

    // Inside the interval the noise filter still holds the reading back.
    assert!(!should_record(
        false,
        heartbeat,
        Some(t0),
        at(Duration::from_millis(1999))
    ));

    // At the interval it goes out, so the trend and the link stay alive.
    assert!(should_record(false, heartbeat, Some(t0), at(Duration::from_secs(2))));
}

#[test]
fn without_a_heartbeat_only_changes_are_recorded() {
    let t0 = start();
    assert!(!should_record(false, None, Some(t0), at(Duration::from_secs(3600))));
    assert!(!should_record(false, None, None, t0));
}

fn monitor() -> SettledMonitor {
    SettledMonitor::new(span(Duration::from_secs(2)))
}

fn process(monitor: &mut SettledMonitor, reading: BaselineReading, millis: u64) -> bool {
    monitor.process_reading(
        reading,
        at(Duration::from_millis(millis)),
        &ActiveThresholds::default(),
    )
}

#[test]
fn settled_monitor_establishes_initial_baseline_immediately() {
    assert!(process(&mut monitor(), sample_reading(), 0));
}

#[test]
fn settled_monitor_ignores_transient_spike_shorter_than_window() {
    let mut monitor = monitor();
    let baseline = sample_reading();
    assert!(process(&mut monitor, baseline, 0));

    let spike = with_real_power(baseline, f(baseline.real_power[0]) + 40.0);
    // The spike appears, stays for a second, and drops back.
    assert!(!process(&mut monitor, spike, 1000));
    assert!(monitor.is_settling());
    assert!(!process(&mut monitor, spike, 2000));
    assert!(!process(&mut monitor, baseline, 2500));
    assert!(!monitor.is_settling());
    assert!(!process(&mut monitor, baseline, 5000));
}

#[test]
fn settled_monitor_commits_change_after_two_seconds_stable() {
    let mut monitor = monitor();
    let baseline = sample_reading();
    assert!(process(&mut monitor, baseline, 0));

    let higher = with_real_power(baseline, f(baseline.real_power[0]) + 40.0);
    assert!(!process(&mut monitor, higher, 1000));
    assert!(!process(&mut monitor, higher, 2500));
    // Two seconds after the jump the level has settled.
    assert!(process(&mut monitor, higher, 3000));
    // Subsequent readings at the new baseline are steady state.
    assert!(!process(&mut monitor, higher, 3200));
}

#[test]
fn settled_monitor_collapses_rapid_intermediate_steps() {
    let mut monitor = monitor();
    let baseline = sample_reading();
    assert!(process(&mut monitor, baseline, 0));

    let r1 = with_real_power(baseline, 30.0);
    let r2 = with_real_power(baseline, 45.0);
    let r3 = with_real_power(baseline, 28.0);
    let r4 = with_real_power(baseline, 65.0);

    assert!(!process(&mut monitor, r1, 200));
    assert!(!process(&mut monitor, r2, 500));
    assert!(!process(&mut monitor, r3, 800));
    assert!(!process(&mut monitor, r4, 1000));

    // Stable until two seconds have passed since the last step.
    assert!(!process(&mut monitor, r4, 2500));
    assert!(process(&mut monitor, r4, 3000));
}

#[test]
fn without_a_settling_window_every_crossing_counts_at_once() {
    let mut monitor = monitor();
    let baseline = sample_reading();
    assert!(process(&mut monitor, baseline, 0));
    let higher = with_real_power(baseline, 300.0);
    assert!(!process(&mut monitor, higher, 100));
    monitor.update_settling(None);
    assert!(!monitor.is_settling());
    assert!(process(&mut monitor, higher, 200));
    monitor.update_settling(Some(1));
    assert!(!process(&mut monitor, baseline, 300));
    assert!(process(&mut monitor, baseline, 1300));
}

#[test]
fn a_threshold_is_crossed_only_beyond_it() {
    assert!(!exceeds(b(230.0), b(231.5), b(1.5)));
    assert!(exceeds(b(230.0), b(231.50002), b(1.5)));
    assert!(exceeds(b(230.0), b(228.0), b(1.5)));
    assert!(!exceeds(b(f32::NAN), b(1000.0), b(1.5)));
}

fn config() -> ClientThresholdConfig {
    ClientThresholdConfig {
        voltage_step_v: None,
        voltage_enabled: None,
        frequency_step_hz: None,
        frequency_enabled: None,
        thd_voltage_step_pct: None,
        thd_voltage_enabled: None,
        thd_current_step_pct: None,
        thd_current_enabled: None,
        settling_window_secs: None,
    }
}

#[test]
fn an_adjustment_changes_only_what_it_names() {
    let mut thresholds = ActiveThresholds::default();
    thresholds.apply_config(&ClientThresholdConfig {
        voltage_step_v: Some(b(4.0)),
        frequency_enabled: Some(false),
        thd_current_step_pct: Some(b(2.0)),
        ..config()
    });
    assert_eq!(
        thresholds,
        ActiveThresholds {
            voltage_v: b(4.0),
            frequency_enabled: false,
            thd_current_pct: b(2.0),
            ..ActiveThresholds::default()
        }
    );
    let baseline = sample_reading();
    let mut reading = baseline;
    raise(&mut reading.voltage[0], 2.0);
    assert!(!baseline.exceeds_threshold(&reading, &thresholds));
    let mut reading = baseline;
    raise(&mut reading.frequency, 5.0);
    assert!(!baseline.exceeds_threshold(&reading, &thresholds));
    let mut reading = baseline;
    raise(&mut reading.thd_current[0], 3.0);
    assert!(baseline.exceeds_threshold(&reading, &thresholds));
}

#[test]
fn a_configuration_survives_being_written_and_read() {
    for window in [None, Some(None), Some(Some(7))] {
        let config = ClientThresholdConfig {
            voltage_step_v: Some(b(0.5)),
            thd_voltage_enabled: Some(true),
            settling_window_secs: window,
            ..config()
        };
        assert_eq!(decode_config(&encode_config(&config)), Some(config));
    }
    // A member of the wrong kind makes the whole of it unreadable.
    let malformed = Json::Object(vec![(
        "settling_window_secs".to_owned(),
        Json::Decimal(b(1.5)),
    )]);
    assert_eq!(decode_config(&malformed), None);
    let repeated = Json::Object(vec![
        ("voltage_step_v".to_owned(), Json::Integer(1)),
        ("voltage_step_v".to_owned(), Json::Integer(2)),
    ]);
    assert_eq!(decode_config(&repeated), None);
    let unknown = Json::Object(vec![("other".to_owned(), Json::Null)]);
    assert_eq!(decode_config(&unknown), Some(config()));
    assert_eq!(decode_config(&Json::Null), None);

    // It may be a list of its values, as many as there are names.
    let list = Json::List(vec![Json::Integer(2), Json::Bool(false), Json::Null]);
    assert_eq!(
        decode_config(&list),
        Some(ClientThresholdConfig {
            voltage_step_v: Some(b(2.0)),
            voltage_enabled: Some(false),
            ..config()
        })
    );
    let long = Json::List((0..10).map(|_| Json::Null).collect());
    assert_eq!(decode_config(&long), None);
}

#[test]
fn acquisition_records_changes_and_keepalives_and_skips_missing_power() {
    let mut acquisition = Acquisition::new(Some(Span::from_secs(2)));
    let snapshot = sample_snapshot();
    let mut missing = snapshot;
    missing.real_power_sum3 = b(f32::NAN);
    assert!(matches!(acquisition.take(&missing, start()), Acquired::NoPower));
    match acquisition.take(&snapshot, start()) {
        Acquired::Record { changed, measurement } => {
            assert!(changed);
            assert_eq!(value_of(&measurement)["heartbeat"], Value::Bool(false));
        },
        _ => panic!("the first reading is recorded"),
    }
    assert!(matches!(
        acquisition.take(&snapshot, at(Duration::from_millis(1999))),
        Acquired::Quiet
    ));
    match acquisition.take(&snapshot, at(Duration::from_millis(2000))) {
        Acquired::Record { changed, measurement } => {
            assert!(!changed);
            assert_eq!(value_of(&measurement)["heartbeat"], Value::Bool(true));
        },
        _ => panic!("the heartbeat is due"),
    }
    // Without a settling window a crossing is a change at once.
    acquisition.configure(&ClientThresholdConfig {
        settling_window_secs: Some(None),
        ..config()
    });
    let mut louder = snapshot;
    louder.real_power_sum3 = b(500.0);
    assert!(matches!(
        acquisition.take(&louder, at(Duration::from_millis(2100))),
        Acquired::Record { changed: true, .. }
    ));
}
