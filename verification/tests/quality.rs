//! Power-quality limits.

use pq_meter::binary32::Binary32;
use pq_meter::receiver::input::{MeterReading, PhaseReading, TotalsReading};
use pq_meter::receiver::quality::{
    is_connected, violations, Limits, Severity, FREQUENCY_MAX_HZ, FREQUENCY_MIN_HZ, VOLTAGE_MAX_V,
    VOLTAGE_MIN_V,
};

fn b(value: f32) -> Binary32 {
    Binary32 { bits: value.to_bits() }
}

fn phase(voltage: f32, current: f32, thd_u: Option<f32>, thd_i: Option<f32>) -> PhaseReading {
    PhaseReading {
        voltage_v: Some(b(voltage)),
        current_a: Some(b(current)),
        real_power_w: Some(b(voltage * current)),
        apparent_power_va: Some(b(voltage * current)),
        reactive_power_var: Some(b(0.0)),
        cos_phi: Some(b(1.0)),
        real_energy_consumed_wh: Some(b(1000.0)),
        thd_voltage_pct: thd_u.map(b),
        thd_current_pct: thd_i.map(b),
    }
}

/// The meter in the lab: L1 loaded, the other phases unwired, so they read zero
/// and carry no distortion figure at all.
fn lab_reading(frequency: f32, l1: PhaseReading) -> MeterReading {
    let unwired = phase(0.0, 0.0, None, None);
    MeterReading {
        total_power: l1.real_power_w.unwrap_or(b(0.0)),
        systime: Some(1_789_000_000),
        frequency_hz: Some(Some(b(frequency))),
        l1: Some(l1),
        l2: Some(unwired),
        l3: Some(unwired),
        totals: Some(TotalsReading {
            real_power_w: l1.real_power_w,
            apparent_power_va: l1.apparent_power_va,
            reactive_power_var: Some(b(0.0)),
        }),
        heartbeat: false,
    }
}

#[test]
fn a_healthy_reading_has_no_violations() {
    let reading = lab_reading(50.0, phase(230.0, 2.0, Some(1.9), Some(3.0)));
    assert_eq!(violations(&reading), Vec::new());
}

#[test]
fn flags_voltage_outside_the_en50160_band() {
    for (voltage, limit) in [(200.0, VOLTAGE_MIN_V), (260.0, VOLTAGE_MAX_V)] {
        let reading = lab_reading(50.0, phase(voltage, 2.0, Some(1.9), None));
        let found = violations(&reading);
        assert_eq!(found.len(), 1, "{voltage} V");
        assert_eq!(found[0].quantity, "voltage_v");
        assert_eq!(found[0].phase, "L1");
        assert_eq!(found[0].limit.bits, limit);
        assert_eq!(found[0].severity, Severity::Violation);
    }

    // The edges of the band are still compliant.
    for voltage in [VOLTAGE_MIN_V, VOLTAGE_MAX_V] {
        let voltage = f32::from_bits(voltage);
        let reading = lab_reading(50.0, phase(voltage, 2.0, Some(1.9), None));
        assert!(violations(&reading).is_empty(), "{voltage} V");
    }
}

#[test]
fn flags_frequency_outside_the_band() {
    for (frequency, limit) in [(49.0, FREQUENCY_MIN_HZ), (51.0, FREQUENCY_MAX_HZ)] {
        let reading = lab_reading(frequency, phase(230.0, 2.0, Some(1.9), None));
        let found = violations(&reading);
        assert_eq!(found.len(), 1);
        assert_eq!(found[0].quantity, "frequency_hz");
        assert_eq!(found[0].phase, "-");
        assert_eq!(found[0].limit.bits, limit);
    }
    for frequency in [
        f32::from_bits(FREQUENCY_MIN_HZ),
        50.0,
        f32::from_bits(FREQUENCY_MAX_HZ),
    ] {
        assert!(
            violations(&lab_reading(frequency, phase(230.0, 2.0, Some(1.9), None))).is_empty()
        );
    }
}

#[test]
fn flags_voltage_distortion_above_eight_percent() {
    let reading = lab_reading(50.0, phase(230.0, 2.0, Some(9.5), None));
    let found = violations(&reading);
    assert_eq!(found.len(), 1);
    assert_eq!(found[0].quantity, "thd_voltage_pct");
    assert_eq!(found[0].severity, Severity::Violation);
}

#[test]
fn an_unwired_phase_reading_zero_volts_is_not_an_undervoltage() {
    // Both other phases sit at 0 V in the lab.
    let reading = lab_reading(50.0, phase(230.0, 2.0, Some(1.9), Some(2.0)));
    assert!(violations(&reading).is_empty());
}

#[test]
fn current_distortion_is_only_judged_once_a_real_current_flows() {
    // The bench meter reports ~140 % for the 0.3 A it idles at.
    let idle = lab_reading(50.0, phase(230.0, 0.3, Some(1.9), Some(140.0)));
    assert!(violations(&idle).is_empty());

    // Under a real load the same distortion is worth reporting, as a warning.
    let loaded = lab_reading(50.0, phase(230.0, 6.0, Some(1.9), Some(140.0)));
    let found = violations(&loaded);
    assert_eq!(found.len(), 1);
    assert_eq!(found[0].quantity, "thd_current_pct");
    assert_eq!(found[0].severity, Severity::Warning);
}

#[test]
fn values_the_meter_could_not_determine_are_never_violations() {
    let mut reading = lab_reading(50.0, phase(230.0, 2.0, None, None));
    reading.frequency_hz = None;
    reading.l1 = Some(PhaseReading { voltage_v: None, ..reading.l1.unwrap() });
    assert!(violations(&reading).is_empty());
}

#[test]
fn reports_every_breach_of_a_reading_not_only_the_first() {
    let reading = lab_reading(48.0, phase(190.0, 6.0, Some(12.0), Some(30.0)));
    let found = violations(&reading);
    let quantities: Vec<_> = found.iter().map(|v| v.quantity).collect();
    assert_eq!(
        quantities,
        vec!["frequency_hz", "voltage_v", "thd_voltage_pct", "thd_current_pct"]
    );
}

#[test]
fn a_breach_carries_its_value_its_limit_and_a_sentence() {
    let reading = lab_reading(48.0, phase(190.0, 6.0, Some(12.0), Some(30.0)));
    let found = violations(&reading);
    let values: Vec<Binary32> = found.iter().map(|v| v.value).collect();
    assert_eq!(values, vec![b(48.0), b(190.0), b(12.0), b(30.0)]);
    let messages: Vec<&str> = found.iter().map(|v| v.message.as_str()).collect();
    assert_eq!(
        messages,
        vec![
            "Grid frequency 48.00 Hz is outside 49.5–50.5 Hz",
            "L1 voltage 190.0 V is outside 207–253 V",
            "L1 voltage distortion 12.0 % exceeds 8 %",
            "L1 current distortion 30.0 % exceeds 8 %",
        ]
    );
    assert_eq!(VOLTAGE_MIN_V, (230.0_f32 * (1.0 - 0.10)).to_bits());
    assert_eq!(VOLTAGE_MAX_V, (230.0_f32 * (1.0 + 0.10)).to_bits());
    assert!(is_connected(&phase(0.0, -0.01, None, None)));
    assert!(!is_connected(&phase(230.0, 0.009, None, None)));
    let limits = Limits::en50160();
    assert_eq!(limits.nominal_voltage_v, b(230.0));
    assert_eq!(limits.voltage_min_v, b(207.0));
    assert_eq!(limits.voltage_max_v, b(253.0));
    assert_eq!(limits.nominal_frequency_hz, b(50.0));
    assert_eq!(limits.frequency_min_hz, b(49.5));
    assert_eq!(limits.frequency_max_hz, b(50.5));
    assert_eq!(limits.thd_voltage_max_pct, b(8.0));
    assert_eq!(limits.thd_current_max_pct, b(8.0));
    assert_eq!(limits.thd_current_relevant_a, b(1.0));
}

#[test]
fn current_distortion_is_judged_above_one_ampere_and_not_at_it() {
    let at_the_threshold = lab_reading(50.0, phase(230.0, 1.0, Some(1.9), Some(140.0)));
    assert_eq!(violations(&at_the_threshold), vec![]);
    let exporting = lab_reading(50.0, phase(230.0, -1.0, Some(1.9), Some(140.0)));
    assert_eq!(violations(&exporting), vec![]);

    let just_above = f32::from_bits(1.0_f32.to_bits() + 1);
    let found = violations(&lab_reading(50.0, phase(230.0, just_above, Some(1.9), Some(140.0))));
    assert_eq!(found.len(), 1);
    assert_eq!(found[0].quantity, "thd_current_pct");
    assert_eq!(found[0].severity, Severity::Warning);
}
