//! Inferring devices from changes of the total power.

use pq_meter::binary32::Binary32;
use pq_meter::receiver::decision::{
    contains_device, dummy_device_catalog, match_power_delta, ClosestPowerMatch, DecisionMethod,
    Device, DeviceChange, SettledPowerMatch,
};
use pq_meter::receiver::input::MeterReading;

fn b(value: f32) -> Binary32 {
    Binary32 { bits: value.to_bits() }
}

fn test_device() -> Device {
    Device::new("test-device", "Test device", b(60.0))
}

fn test_catalog() -> Vec<Device> {
    vec![test_device()]
}

fn closest(tolerance: f32) -> ClosestPowerMatch {
    ClosestPowerMatch::new(b(tolerance))
}

fn settled(minimum: f32, settle: f32, required: usize, tolerance: f32) -> SettledPowerMatch {
    SettledPowerMatch::new(b(minimum), b(settle), required, b(tolerance))
}

/// A method that compares totals.
enum Method {
    Closest(ClosestPowerMatch),
    Settled(SettledPowerMatch),
}

impl Method {
    fn decide(
        &mut self,
        previous: Option<f32>,
        total: f32,
        catalog: &[Device],
        active: &[Device],
    ) -> DeviceChange {
        let previous = previous.map(b);
        let (catalog, active) = (catalog.to_vec(), active.to_vec());
        match self {
            Method::Closest(method) => method.decide(previous, b(total), &catalog, &active),
            Method::Settled(method) => method.decide(previous, b(total), &catalog, &active),
        }
    }
}

#[test]
fn closest_match_uses_the_previous_reading_immediately() {
    let mut method = Method::Closest(closest(5.0));
    assert_eq!(
        method.decide(Some(100.0), 162.0, &test_catalog(), &[]),
        DeviceChange::Added(test_device())
    );
}

#[test]
fn settled_match_waits_for_three_readings_within_three_watts() {
    let mut method = Method::Settled(settled(5.0, 3.0, 3, 5.0));
    let catalog = test_catalog();
    for (previous, total) in [
        (None, 100.0),
        (Some(100.0), 145.0),
        (Some(145.0), 159.0),
        (Some(159.0), 161.0),
    ] {
        assert_eq!(
            method.decide(previous, total, &catalog, &[]),
            DeviceChange::Unchanged
        );
    }
    assert_eq!(
        method.decide(Some(161.0), 160.0, &catalog, &[]),
        DeviceChange::Added(test_device())
    );
}

#[test]
fn settled_match_ignores_changes_below_five_watts() {
    let mut method = Method::Settled(settled(5.0, 3.0, 3, 5.0));
    let catalog = test_catalog();
    assert_eq!(
        method.decide(None, 100.0, &catalog, &[]),
        DeviceChange::Unchanged
    );
    for reading in [102.0, 104.0, 101.0, 103.0] {
        assert_eq!(
            method.decide(Some(100.0), reading, &catalog, &[]),
            DeviceChange::Unchanged
        );
    }
}

#[test]
fn settled_match_only_removes_an_active_device() {
    let mut method = Method::Settled(settled(5.0, 3.0, 2, 5.0));
    let catalog = test_catalog();
    let active = [test_device()];
    method.decide(None, 160.0, &catalog, &active);
    assert_eq!(
        method.decide(Some(160.0), 101.0, &catalog, &active),
        DeviceChange::Unchanged
    );
    assert_eq!(
        method.decide(Some(101.0), 100.0, &catalog, &active),
        DeviceChange::Removed(test_device())
    );
}

#[test]
fn closest_match_returns_none_on_first_reading_or_zero_delta() {
    let mut method = Method::Closest(closest(5.0));
    assert_eq!(
        method.decide(None, 100.0, &test_catalog(), &[]),
        DeviceChange::Unchanged
    );
    assert_eq!(
        method.decide(Some(100.0), 100.0, &test_catalog(), &[]),
        DeviceChange::Unchanged
    );
}

#[test]
fn closest_match_picks_closest_device_among_multiple() {
    let d1 = Device::new("d1", "Device 1", b(50.0));
    let d2 = Device::new("d2", "Device 2", b(70.0));
    let catalog = [d1, d2];
    let mut method = Method::Closest(closest(10.0));

    // A step of 52 is closer to 50 than to 70.
    assert_eq!(
        method.decide(Some(100.0), 152.0, &catalog, &[]),
        DeviceChange::Added(d1)
    );
    // A step of 68 is closer to 70 than to 50.
    assert_eq!(
        method.decide(Some(100.0), 168.0, &catalog, &[]),
        DeviceChange::Added(d2)
    );
}

#[test]
fn closest_match_ignores_delta_exceeding_tolerance() {
    let mut method = Method::Closest(closest(5.0));
    assert_eq!(
        method.decide(Some(100.0), 170.0, &test_catalog(), &[]),
        DeviceChange::Unchanged
    );
    assert_eq!(
        method.decide(Some(100.0), 150.0, &test_catalog(), &[]),
        DeviceChange::Unchanged
    );
}

#[test]
fn closest_match_does_not_re_add_active_device_and_removes_it() {
    let mut method = Method::Closest(closest(5.0));
    let catalog = test_catalog();

    // Already active: not added again even where the step matches.
    assert_eq!(
        method.decide(Some(100.0), 160.0, &catalog, &[test_device()]),
        DeviceChange::Unchanged
    );
    // Inactive: not removed even where the step matches.
    assert_eq!(
        method.decide(Some(160.0), 100.0, &catalog, &[]),
        DeviceChange::Unchanged
    );
    assert_eq!(
        method.decide(Some(160.0), 100.0, &catalog, &[test_device()]),
        DeviceChange::Removed(test_device())
    );
}

#[test]
fn settled_match_resets_candidate_on_unstable_fluctuations() {
    let mut method = Method::Settled(settled(5.0, 3.0, 3, 5.0));
    let catalog = test_catalog();
    // A jump to 160, one more reading close to it, then one far away, which
    // starts the count over at a level that no device explains.
    for (previous, total) in [
        (None, 100.0),
        (Some(100.0), 160.0),
        (Some(160.0), 162.0),
        (Some(162.0), 180.0),
        (Some(180.0), 181.0),
        (Some(181.0), 180.0),
    ] {
        assert_eq!(
            method.decide(previous, total, &catalog, &[]),
            DeviceChange::Unchanged
        );
    }
}

#[test]
fn contains_device_helper() {
    assert!(!contains_device(&vec![], "test-device"));
    assert!(contains_device(&test_catalog(), "test-device"));
    assert!(!contains_device(&test_catalog(), "other-device"));
}

#[test]
fn threshold_exact_boundaries() {
    let mut method = Method::Settled(settled(5.0, 3.0, 2, 5.0));
    let catalog = test_catalog();
    method.decide(None, 100.0, &catalog, &[]);

    // A step of 4.9 W is absorbed as drift.
    assert_eq!(
        method.decide(Some(100.0), 104.9, &catalog, &[]),
        DeviceChange::Unchanged
    );
    // A step of 5 W from the new level starts a candidate.
    assert_eq!(
        method.decide(Some(104.9), 109.9, &catalog, &[]),
        DeviceChange::Unchanged
    );
}

#[test]
fn threshold_settle_tolerance_boundary() {
    let mut method = Method::Settled(settled(5.0, 3.0, 3, 5.0));
    let catalog = test_catalog();
    method.decide(None, 100.0, &catalog, &[]);
    method.decide(Some(100.0), 160.0, &catalog, &[]);
    // Exactly 3 W from the average, which moves to 161.5.
    method.decide(Some(160.0), 163.0, &catalog, &[]);
    // Exactly 3 W again: the average of 162.5 is settled, 62.5 W above.
    assert_eq!(
        method.decide(Some(163.0), 164.5, &catalog, &[]),
        DeviceChange::Added(test_device())
    );
}

#[test]
fn threshold_device_match_tolerance_boundary() {
    let catalog = test_catalog();
    let mut method = Method::Settled(settled(5.0, 1.0, 2, 5.0));
    method.decide(None, 100.0, &catalog, &[]);
    // A step of 65 W is exactly 5 W off.
    method.decide(Some(100.0), 165.0, &catalog, &[]);
    assert_eq!(
        method.decide(Some(165.0), 165.0, &catalog, &[]),
        DeviceChange::Added(test_device())
    );

    let mut method2 = Method::Settled(settled(5.0, 1.0, 2, 5.0));
    method2.decide(None, 100.0, &catalog, &[]);
    // A step of 65.1 W is more than 5 W off.
    method2.decide(Some(100.0), 165.1, &catalog, &[]);
    assert_eq!(
        method2.decide(Some(165.1), 165.1, &catalog, &[]),
        DeviceChange::Unchanged
    );
}

#[test]
fn threshold_creeping_power_drift_is_absorbed_without_detection() {
    let mut method = Method::Settled(settled(5.0, 3.0, 2, 5.0));
    let catalog = test_catalog();
    method.decide(None, 100.0, &catalog, &[]);

    // A slow ramp of 2 W at a time, 60 W altogether.
    for p in (102..=160).step_by(2) {
        let change = method.decide(Some((p - 2) as f32), p as f32, &catalog, &[]);
        assert_eq!(change, DeviceChange::Unchanged);
    }
}

#[test]
fn threshold_distinguishes_close_catalog_devices() {
    let mut method = Method::Closest(closest(5.0));
    let catalog = dummy_device_catalog();

    // A step of 63.5 W is within 5 W of 60 W and 65 W, and closer to the latter.
    let change = method.decide(Some(100.0), 163.5, &catalog, &[]);
    assert_eq!(change, DeviceChange::Added(catalog[1]));

    // With that one active, the next closest is picked.
    let active = [catalog[1]];
    let change2 = method.decide(Some(163.5), 227.0, &catalog, &active);
    assert_eq!(change2, DeviceChange::Added(catalog[3]));
}

#[test]
fn threshold_device_power_below_minimum_change_cannot_trigger() {
    let catalog = [Device::new("low-power", "Low Power", b(3.0))];
    let mut method = Method::Settled(settled(5.0, 1.0, 2, 5.0));

    method.decide(None, 100.0, &catalog, &[]);
    // The device turns on with 3 W, which is absorbed as a fluctuation.
    assert_eq!(
        method.decide(Some(100.0), 103.0, &catalog, &[]),
        DeviceChange::Unchanged
    );
    assert_eq!(
        method.decide(Some(103.0), 103.0, &catalog, &[]),
        DeviceChange::Unchanged
    );
}

#[test]
fn the_first_of_equally_close_devices_is_taken() {
    let first = Device::new("first", "First", b(50.0));
    let second = Device::new("second", "Second", b(70.0));
    let catalog = vec![first, second];
    assert_eq!(
        match_power_delta(b(60.0), b(10.0), &catalog, &vec![]),
        DeviceChange::Added(first)
    );
    assert_eq!(
        match_power_delta(b(-60.0), b(10.0), &vec![], &catalog),
        DeviceChange::Removed(first)
    );
    assert_eq!(
        match_power_delta(b(f32::NAN), b(10.0), &catalog, &catalog),
        DeviceChange::Unchanged
    );
}

#[test]
fn negative_tolerances_and_counts_are_lifted() {
    let method = settled(-1.0, -2.0, 0, -3.0);
    assert_eq!(method.minimum_change_watts, b(0.0));
    assert_eq!(method.settle_tolerance_watts, b(0.0));
    assert_eq!(method.required_stable_readings, 1);
    assert_eq!(method.device_match_tolerance_watts, b(0.0));
    assert_eq!(closest(-4.0).device_match_tolerance_watts, b(0.0));
}

#[test]
fn the_catalog_of_the_demonstration() {
    let powers: Vec<(&str, Binary32)> = dummy_device_catalog()
        .iter()
        .map(|device| (device.id, device.power_watts))
        .collect();
    assert_eq!(
        powers,
        vec![
            ("baseline-2-raspberry-pi", b(23.0)),
            ("noah-iphone", b(65.0)),
            ("noah-macbook", b(145.0)),
            ("chris-handy", b(60.0)),
            ("peter-laptop", b(68.0)),
            ("device-80w", b(80.0)),
        ]
    );
}

#[test]
fn a_method_decides_from_whole_readings() {
    let mut method = closest(5.0);
    let catalog = test_catalog();
    let previous = MeterReading::from(b(100.0));
    let reading = MeterReading::from(b(161.0));
    assert_eq!(
        method.decide_reading(Some(&previous), &reading, &catalog, &vec![]),
        DeviceChange::Added(test_device())
    );
    assert!(method.learned_devices().is_empty());
    assert!(method.learned_profiles().is_empty());
}
