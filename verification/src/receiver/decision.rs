//! Device catalog and interchangeable decision methods.

use vstd::prelude::*;

use crate::binary32;
use crate::binary32::Binary32;
use crate::receiver::input::MeterReading;
use crate::text::same_text;

verus! {

/// A device whose presence can be inferred from its power consumption.
#[derive(Clone, Copy, Debug, PartialEq, Eq)]
pub struct Device {
    pub id: &'static str,
    pub name: &'static str,
    pub power_watts: Binary32,
    pub reactive_power_var: Option<Binary32>,
    pub thd_current_pct: Option<Binary32>,
    pub cos_phi: Option<Binary32>,
}

impl Device {
    /// A device known by its power alone.
    pub open spec fn plain(self, id: Seq<char>, name: Seq<char>, power_watts: Binary32) -> bool {
        &&& self.id@ == id
        &&& self.name@ == name
        &&& self.power_watts == power_watts
        &&& self.reactive_power_var is None
        &&& self.thd_current_pct is None
        &&& self.cos_phi is None
    }

    pub fn new(id: &'static str, name: &'static str, power_watts: Binary32) -> (device: Device)
        ensures
            device.plain(id@, name@, power_watts),
    {
        Device {
            id,
            name,
            power_watts,
            reactive_power_var: None,
            thd_current_pct: None,
            cos_phi: None,
        }
    }
}

/// What a method remembers of a device it learned.
#[derive(Clone, Copy, Debug, PartialEq, Eq)]
pub struct StoredAppliance {
    pub id: &'static str,
    pub power_watts: Binary32,
    pub reactive_power_var: Binary32,
    pub distortion_current_a: Binary32,
}

/// The demonstration catalog: 23 W, 65 W, 145 W, 60 W, 68 W and 80 W.
pub fn dummy_device_catalog() -> (catalog: Vec<Device>)
    ensures
        catalog@.len() == 6,
        catalog@[0].plain("baseline-2-raspberry-pi"@, "Baseline"@, Binary32 { bits: 0x41b8_0000 }),
        catalog@[1].plain("noah-iphone"@, "Iphone"@, Binary32 { bits: 0x4282_0000 }),
        catalog@[2].plain("noah-macbook"@, "Macbook Air"@, Binary32 { bits: 0x4311_0000 }),
        catalog@[3].plain("chris-handy"@, "Smartphone"@, Binary32 { bits: 0x4270_0000 }),
        catalog@[4].plain("peter-laptop"@, "Laptop"@, Binary32 { bits: 0x4288_0000 }),
        catalog@[5].plain("device-80w"@, "Device 80 W"@, Binary32 { bits: 0x42a0_0000 }),
        forall|i: int, j: int|
            0 <= i < j < 6 ==> (#[trigger] catalog@[i]).id@ != (#[trigger] catalog@[j]).id@,
{
    let catalog = vec![
        Device::new("baseline-2-raspberry-pi", "Baseline", Binary32 { bits: 0x41b8_0000 }),
        Device::new("noah-iphone", "Iphone", Binary32 { bits: 0x4282_0000 }),
        Device::new("noah-macbook", "Macbook Air", Binary32 { bits: 0x4311_0000 }),
        Device::new("chris-handy", "Smartphone", Binary32 { bits: 0x4270_0000 }),
        Device::new("peter-laptop", "Laptop", Binary32 { bits: 0x4288_0000 }),
        Device::new("device-80w", "Device 80 W", Binary32 { bits: 0x42a0_0000 }),
    ];
    proof {
        reveal_strlit("baseline-2-raspberry-pi");
        reveal_strlit("noah-iphone");
        reveal_strlit("noah-macbook");
        reveal_strlit("chris-handy");
        reveal_strlit("peter-laptop");
        reveal_strlit("device-80w");
        let ids = seq![
            "baseline-2-raspberry-pi"@,
            "noah-iphone"@,
            "noah-macbook"@,
            "chris-handy"@,
            "peter-laptop"@,
            "device-80w"@,
        ];
        assert(ids[0].len() == 23 && ids[1].len() == 11 && ids[2].len() == 12 && ids[3].len() == 11
            && ids[4].len() == 12 && ids[5].len() == 10);
        assert(ids[1][0] != ids[3][0] && ids[2][0] != ids[4][0]);
        assert forall|i: int, j: int| 0 <= i < j < 6 implies #[trigger] ids[i] != #[trigger] ids[j] by {
            assert(i == 0 || i == 1 || i == 2 || i == 3 || i == 4);
            assert(j == 1 || j == 2 || j == 3 || j == 4 || j == 5);
        }
        assert forall|i: int, j: int| 0 <= i < j < 6 implies (#[trigger] catalog@[i]).id@ != (
        #[trigger] catalog@[j]).id@ by {
            assert(catalog@[i].id@ == ids[i]);
            assert(catalog@[j].id@ == ids[j]);
        }
    }
    catalog
}

/// The state change inferred from total-power readings.
#[derive(Clone, Copy, Debug, PartialEq, Eq)]
pub enum DeviceChange {
    Added(Device),
    Removed(Device),
    Unchanged,
}

/// Some device has this id.
pub open spec fn has_device(devices: Seq<Device>, id: Seq<char>) -> bool {
    exists|i: int| 0 <= i < devices.len() && (#[trigger] devices[i]).id@ == id
}

pub fn contains_device(devices: &Vec<Device>, id: &str) -> (found: bool)
    ensures
        found == has_device(devices@, id@),
{
    let mut at: usize = 0;
    while at < devices.len()
        invariant
            at <= devices@.len(),
            forall|i: int| 0 <= i < at ==> (#[trigger] devices@[i]).id@ != id@,
        decreases devices@.len() - at,
    {
        if same_text(devices[at].id, id) {
            return true;
        }
        at = at + 1;
    }
    false
}

/// How far the nominal power of a device lies from an observed step.
pub open spec fn distance(device: Device, step: Binary32) -> Binary32 {
    device.power_watts.difference(step).absolute_value()
}

/// The device closest to an observed step, of those that are not excluded; the
/// first of them where several are equally close.
pub open spec fn closest(devices: Seq<Device>, excluded: Seq<Device>, step: Binary32) -> Option<
    Device,
>
    decreases devices.len(),
{
    if devices.len() == 0 {
        None
    } else {
        let earlier = closest(devices.drop_last(), excluded, step);
        let last = devices.last();
        if has_device(excluded, last.id@) {
            earlier
        } else {
            match earlier {
                None => Some(last),
                Some(best) => if distance(last, step).total_position() < distance(
                    best,
                    step,
                ).total_position() {
                    Some(last)
                } else {
                    Some(best)
                },
            }
        }
    }
}

/// The change that a step in the total power stands for: the closest inactive
/// device went on, or the closest active one went off, unless even that one is
/// further away than the tolerance.
pub open spec fn matched(
    delta: Binary32,
    tolerance: Binary32,
    catalog: Seq<Device>,
    active: Seq<Device>,
) -> DeviceChange {
    let zero = Binary32 { bits: 0 };
    let step = delta.absolute_value();
    if zero.below(delta) {
        match closest(catalog, active, step) {
            Some(device) => if distance(device, step).at_most(tolerance) {
                DeviceChange::Added(device)
            } else {
                DeviceChange::Unchanged
            },
            None => DeviceChange::Unchanged,
        }
    } else if delta.below(zero) {
        match closest(active, Seq::empty(), step) {
            Some(device) => if distance(device, step).at_most(tolerance) {
                DeviceChange::Removed(device)
            } else {
                DeviceChange::Unchanged
            },
            None => DeviceChange::Unchanged,
        }
    } else {
        DeviceChange::Unchanged
    }
}

fn find_closest(devices: &Vec<Device>, excluded: &Vec<Device>, step: Binary32) -> (found: Option<
    Device,
>)
    ensures
        found == closest(devices@, excluded@, step),
{
    let mut found: Option<Device> = None;
    let mut at: usize = 0;
    while at < devices.len()
        invariant
            at <= devices@.len(),
            found == closest(devices@.take(at as int), excluded@, step),
        decreases devices@.len() - at,
    {
        assert(devices@.take(at + 1).drop_last() =~= devices@.take(at as int));
        let device: Device = devices[at];
        if !contains_device(excluded, device.id) {
            found = match found {
                None => Some(device),
                Some(best) => {
                    let here: Binary32 = device.power_watts.minus(step).abs();
                    let there: Binary32 = best.power_watts.minus(step).abs();
                    if here.precedes(there) {
                        Some(device)
                    } else {
                        Some(best)
                    }
                },
            };
        }
        at = at + 1;
    }
    assert(devices@.take(at as int) =~= devices@);
    found
}

/// Finds the change that a step in the total power stands for.
pub fn match_power_delta(
    delta: Binary32,
    tolerance: Binary32,
    catalog: &Vec<Device>,
    active: &Vec<Device>,
) -> (change: DeviceChange)
    ensures
        change == matched(delta, tolerance, catalog@, active@),
{
    let zero: Binary32 = Binary32 { bits: 0 };
    let step: Binary32 = delta.abs();
    if zero.lt(delta) {
        if let Some(device) = find_closest(catalog, active, step) {
            if device.power_watts.minus(step).abs().le(tolerance) {
                return DeviceChange::Added(device);
            }
        }
        DeviceChange::Unchanged
    } else if delta.lt(zero) {
        let none: Vec<Device> = Vec::new();
        assert(none@ =~= Seq::<Device>::empty());
        if let Some(device) = find_closest(active, &none, step) {
            if device.power_watts.minus(step).abs().le(tolerance) {
                return DeviceChange::Removed(device);
            }
        }
        DeviceChange::Unchanged
    } else {
        DeviceChange::Unchanged
    }
}

/// The device that was found is one of those to choose from, is not excluded,
/// and no other one is closer.
pub proof fn lemma_closest_is_closest(devices: Seq<Device>, excluded: Seq<Device>, step: Binary32)
    ensures
        closest(devices, excluded, step) matches Some(device) ==> {
            &&& devices.contains(device)
            &&& !has_device(excluded, device.id@)
            &&& forall|i: int|
                0 <= i < devices.len() && !has_device(excluded, (#[trigger] devices[i]).id@)
                    ==> distance(device, step).total_position() <= distance(
                    devices[i],
                    step,
                ).total_position()
        },
        closest(devices, excluded, step) is None ==> forall|i: int|
            0 <= i < devices.len() ==> has_device(excluded, (#[trigger] devices[i]).id@),
    decreases devices.len(),
{
    if devices.len() > 0 {
        let fewer = devices.drop_last();
        lemma_closest_is_closest(fewer, excluded, step);
        assert(forall|i: int| 0 <= i < fewer.len() ==> fewer[i] == #[trigger] devices[i]);
        assert(devices.last() == devices[devices.len() - 1]);
        if let Some(device) = closest(fewer, excluded, step) {
            let i = choose|i: int| 0 <= i < fewer.len() && fewer[i] == device;
            assert(devices[i] == device);
        }
    }
}

/// A device is only ever added while it is off, and removed while it is on.
pub proof fn lemma_changes_fit_the_active_devices(
    delta: Binary32,
    tolerance: Binary32,
    catalog: Seq<Device>,
    active: Seq<Device>,
)
    ensures
        matched(delta, tolerance, catalog, active) matches DeviceChange::Added(device) ==> {
            &&& catalog.contains(device)
            &&& !has_device(active, device.id@)
        },
        matched(delta, tolerance, catalog, active) matches DeviceChange::Removed(device)
            ==> active.contains(device),
{
    lemma_closest_is_closest(catalog, active, delta.absolute_value());
    lemma_closest_is_closest(active, Seq::empty(), delta.absolute_value());
}

/// The device at a place of a list is the one to pick for a step of this size:
/// its power lies within the tolerance of the step, no device to choose from is
/// nearer, and those before it are all further away.
pub open spec fn picked(
    devices: Seq<Device>,
    eligible: spec_fn(Device) -> bool,
    step: Binary32,
    tolerance: Binary32,
    place: int,
) -> bool {
    let gap = |device: Device| device.power_watts.difference(step).absolute_value();
    &&& 0 <= place < devices.len()
    &&& eligible(devices[place])
    &&& gap(devices[place]).at_most(tolerance)
    &&& forall|i: int|
        0 <= i < devices.len() && eligible(#[trigger] devices[i]) ==> !gap(devices[i]).below(
            gap(devices[place]),
        )
    &&& forall|i: int|
        0 <= i < place && eligible(#[trigger] devices[i]) ==> !gap(devices[i]).at_most(
            gap(devices[place]),
        )
}

/// No device to choose from has a power within the tolerance of the step.
pub open spec fn none_fits(
    devices: Seq<Device>,
    eligible: spec_fn(Device) -> bool,
    step: Binary32,
    tolerance: Binary32,
) -> bool {
    forall|i: int|
        0 <= i < devices.len() && eligible(#[trigger] devices[i])
            ==> !devices[i].power_watts.difference(step).absolute_value().at_most(tolerance)
}

/// Where a device is found, it stands at some place, and every device before it
/// that could have been chosen is further away.
#[verifier::rlimit(40)]
proof fn lemma_closest_has_a_place(devices: Seq<Device>, excluded: Seq<Device>, step: Binary32) -> (place:
    int)
    requires
        closest(devices, excluded, step) is Some,
    ensures
        0 <= place < devices.len(),
        closest(devices, excluded, step) == Some(devices[place]),
        !has_device(excluded, devices[place].id@),
        forall|i: int|
            0 <= i < devices.len() && !has_device(excluded, (#[trigger] devices[i]).id@)
                ==> distance(devices[place], step).total_position() <= distance(
                devices[i],
                step,
            ).total_position(),
        forall|i: int|
            0 <= i < place && !has_device(excluded, (#[trigger] devices[i]).id@) ==> distance(
                devices[place],
                step,
            ).total_position() < distance(devices[i], step).total_position(),
    decreases devices.len(),
{
    let fewer = devices.drop_last();
    let last = devices.len() - 1;
    assert(forall|i: int| 0 <= i < fewer.len() ==> fewer[i] == #[trigger] devices[i]);
    lemma_closest_is_closest(fewer, excluded, step);
    lemma_closest_is_closest(devices, excluded, step);
    if closest(fewer, excluded, step) is None {
        last
    } else {
        let earlier = lemma_closest_has_a_place(fewer, excluded, step);
        if has_device(excluded, devices[last].id@) || distance(devices[earlier], step).total_position()
            <= distance(devices[last], step).total_position() {
            earlier
        } else {
            last
        }
    }
}

#[verifier::rlimit(40)]
proof fn lemma_pick(
    devices: Seq<Device>,
    excluded: Seq<Device>,
    eligible: spec_fn(Device) -> bool,
    step: Binary32,
    tolerance: Binary32,
)
    requires
        forall|device: Device| #[trigger] eligible(device) <==> !has_device(excluded, device.id@),
    ensures
        match closest(devices, excluded, step) {
            Some(device) => if distance(device, step).at_most(tolerance) {
                exists|place: int| #[trigger]
                    picked(devices, eligible, step, tolerance, place) && devices[place] == device
            } else {
                none_fits(devices, eligible, step, tolerance)
            },
            None => none_fits(devices, eligible, step, tolerance),
        },
{
    let found = closest(devices, excluded, step);
    lemma_closest_is_closest(devices, excluded, step);
    if let Some(device) = found {
        let place = lemma_closest_has_a_place(devices, excluded, step);
        if distance(device, step).at_most(tolerance) {
            assert(picked(devices, eligible, step, tolerance, place));
        }
    }
}

/// A step up in the total power switches a device on exactly if some device that
/// is off has a power within the tolerance of the step; it is the nearest of
/// them, the first in the catalog where several are equally near.  It never
/// switches one off.
#[verifier::rlimit(40)]
pub proof fn lemma_a_rise_is_the_nearest_device_that_was_off(
    delta: Binary32,
    tolerance: Binary32,
    catalog: Seq<Device>,
    active: Seq<Device>,
)
    requires
        (Binary32 { bits: 0 }).below(delta),
    ensures
        ({
            let off = |device: Device|
                forall|j: int| 0 <= j < active.len() ==> (#[trigger] active[j]).id@ != device.id@;
            match matched(delta, tolerance, catalog, active) {
                DeviceChange::Added(device) => exists|place: int| #[trigger]
                    picked(catalog, off, delta.absolute_value(), tolerance, place)
                        && catalog[place] == device,
                DeviceChange::Removed(_) => false,
                DeviceChange::Unchanged => none_fits(
                    catalog,
                    off,
                    delta.absolute_value(),
                    tolerance,
                ),
            }
        }),
{
    let off = |device: Device|
        forall|j: int| 0 <= j < active.len() ==> (#[trigger] active[j]).id@ != device.id@;
    lemma_pick(catalog, active, off, delta.absolute_value(), tolerance);
}

/// A step down in the total power switches a device off exactly if some active
/// device has a power within the tolerance of the step; of all active devices it
/// is the nearest, the first where several are equally near.  It never switches
/// one on.
#[verifier::rlimit(40)]
pub proof fn lemma_a_drop_is_the_nearest_device_that_was_on(
    delta: Binary32,
    tolerance: Binary32,
    catalog: Seq<Device>,
    active: Seq<Device>,
)
    requires
        delta.below(Binary32 { bits: 0 }),
    ensures
        ({
            let any = |device: Device| true;
            match matched(delta, tolerance, catalog, active) {
                DeviceChange::Removed(device) => exists|place: int| #[trigger]
                    picked(active, any, delta.absolute_value(), tolerance, place)
                        && active[place] == device,
                DeviceChange::Added(_) => false,
                DeviceChange::Unchanged => none_fits(
                    active,
                    any,
                    delta.absolute_value(),
                    tolerance,
                ),
            }
        }),
{
    let any = |device: Device| true;
    lemma_pick(active, Seq::empty(), any, delta.absolute_value(), tolerance);
}

/// No step, and a step that is no number, switch nothing.
pub proof fn lemma_no_step_switches_nothing(
    delta: Binary32,
    tolerance: Binary32,
    catalog: Seq<Device>,
    active: Seq<Device>,
)
    requires
        delta.nan() || delta.magnitude() == 0,
    ensures
        matched(delta, tolerance, catalog, active) == DeviceChange::Unchanged,
{
}

/// A device that goes on and then off again by the same step is the same
/// device: with nothing else active, what a rise added the equal drop removes.
pub proof fn lemma_what_a_rise_adds_the_drop_removes(
    delta: Binary32,
    tolerance: Binary32,
    catalog: Seq<Device>,
)
    requires
        (Binary32 { bits: 0 }).below(delta),
    ensures
        matched(delta, tolerance, catalog, Seq::empty()) matches DeviceChange::Added(device)
            ==> matched(delta.opposite(), tolerance, catalog, seq![device])
            == DeviceChange::Removed(device),
{
    let change = matched(delta, tolerance, catalog, Seq::empty());
    if let DeviceChange::Added(device) = change {
        let active = seq![device];
        let none = Seq::<Device>::empty();
        let step = delta.absolute_value();
        lemma_a_step_and_its_opposite(delta);
        assert(distance(device, step).at_most(tolerance));
        assert(active.drop_last() =~= none);
        assert(closest(none, none, step) is None);
        assert(!has_device(none, device.id@));
        assert(closest(active, none, step) == Some(device));
    }
}

/// A step down is as large as the same step up.
proof fn lemma_a_step_and_its_opposite(delta: Binary32)
    requires
        (Binary32 { bits: 0 }).below(delta),
    ensures
        delta.opposite().below(Binary32 { bits: 0 }),
        !(Binary32 { bits: 0 }).below(delta.opposite()),
        delta.opposite().absolute_value() == delta.absolute_value(),
{
}

/// The total powers that a method compares.
pub open spec fn total_of(reading: Option<MeterReading>) -> Option<Binary32> {
    match reading {
        Some(reading) => Some(reading.total_power),
        None => None,
    }
}

/// Pluggable policy for translating readings into device changes.
///
/// A method may keep internal state, which allows it to observe several
/// readings before it decides.
pub trait DecisionMethod: Sized {
    /// What the method relies on in its own state.
    spec fn ready(&self) -> bool;

    /// The state after a reading, and the change it stands for.
    spec fn decision(
        &self,
        previous: Option<MeterReading>,
        reading: MeterReading,
        catalog: Seq<Device>,
        active: Seq<Device>,
    ) -> (Self, DeviceChange);

    /// Devices learned from the readings.
    spec fn learned(&self) -> Seq<Device>;

    /// What is remembered of the learned devices.
    spec fn profiles(&self) -> Seq<StoredAppliance>;

    fn decide_reading(
        &mut self,
        previous: Option<&MeterReading>,
        reading: &MeterReading,
        catalog: &Vec<Device>,
        active: &Vec<Device>,
    ) -> (change: DeviceChange)
        requires
            old(self).ready(),
        ensures
            final(self).ready(),
            (*final(self), change) == old(self).decision(
                match previous {
                    Some(previous) => Some(*previous),
                    None => None,
                },
                *reading,
                catalog@,
                active@,
            ),
    ;

    fn learned_devices(&self) -> (devices: Vec<Device>)
        ensures
            devices@ == self.learned(),
    ;

    fn learned_profiles(&self) -> (profiles: Vec<StoredAppliance>)
        ensures
            profiles@ == self.profiles(),
    ;
}

/// Immediately selects the device closest to the change from the previous
/// reading.
#[derive(Clone, Copy, Debug, PartialEq, Eq, Structural)]
pub struct ClosestPowerMatch {
    pub device_match_tolerance_watts: Binary32,
}

impl ClosestPowerMatch {
    pub fn new(device_match_tolerance_watts: Binary32) -> (method: ClosestPowerMatch)
        ensures
            method.device_match_tolerance_watts == device_match_tolerance_watts.floored_at_zero(),
    {
        ClosestPowerMatch {
            device_match_tolerance_watts: device_match_tolerance_watts.at_least_zero(),
        }
    }

    /// The change that two totals in a row stand for.
    pub open spec fn change(
        self,
        previous: Option<Binary32>,
        total_power: Binary32,
        catalog: Seq<Device>,
        active: Seq<Device>,
    ) -> DeviceChange {
        match previous {
            Some(previous) => matched(
                total_power.difference(previous),
                self.device_match_tolerance_watts,
                catalog,
                active,
            ),
            None => DeviceChange::Unchanged,
        }
    }

    pub fn decide(
        &mut self,
        previous_total_power: Option<Binary32>,
        total_power: Binary32,
        catalog: &Vec<Device>,
        active_devices: &Vec<Device>,
    ) -> (change: DeviceChange)
        ensures
            *final(self) == *old(self),
            change == old(self).change(
                previous_total_power,
                total_power,
                catalog@,
                active_devices@,
            ),
    {
        match previous_total_power {
            Some(previous) => match_power_delta(
                total_power.minus(previous),
                self.device_match_tolerance_watts,
                catalog,
                active_devices,
            ),
            None => DeviceChange::Unchanged,
        }
    }
}

impl DecisionMethod for ClosestPowerMatch {
    open spec fn ready(&self) -> bool {
        true
    }

    open spec fn decision(
        &self,
        previous: Option<MeterReading>,
        reading: MeterReading,
        catalog: Seq<Device>,
        active: Seq<Device>,
    ) -> (ClosestPowerMatch, DeviceChange) {
        (*self, self.change(total_of(previous), reading.total_power, catalog, active))
    }

    open spec fn learned(&self) -> Seq<Device> {
        Seq::empty()
    }

    open spec fn profiles(&self) -> Seq<StoredAppliance> {
        Seq::empty()
    }

    fn decide_reading(
        &mut self,
        previous: Option<&MeterReading>,
        reading: &MeterReading,
        catalog: &Vec<Device>,
        active: &Vec<Device>,
    ) -> (change: DeviceChange) {
        let previous_total_power: Option<Binary32> = match previous {
            Some(previous) => Some(previous.total_power),
            None => None,
        };
        self.decide(previous_total_power, reading.total_power, catalog, active)
    }

    fn learned_devices(&self) -> (devices: Vec<Device>) {
        Vec::new()
    }

    fn learned_profiles(&self) -> (profiles: Vec<StoredAppliance>) {
        Vec::new()
    }
}

/// A power level that may settle.
#[derive(Clone, Copy, Debug, PartialEq, Eq, Structural)]
pub struct PowerCandidate {
    pub average_power: Binary32,
    pub sample_count: usize,
}

/// Waits for a changed power level to settle before matching it to a device.
///
/// Consecutive readings count as stable while they stay close to their running
/// average.  Once enough of them have arrived, the difference from the last
/// settled level is matched against the catalog.
#[derive(Clone, Copy, Debug, PartialEq, Eq, Structural)]
pub struct SettledPowerMatch {
    pub minimum_change_watts: Binary32,
    pub settle_tolerance_watts: Binary32,
    pub required_stable_readings: usize,
    pub device_match_tolerance_watts: Binary32,
    pub settled_total_power: Option<Binary32>,
    pub candidate: Option<PowerCandidate>,
}

impl SettledPowerMatch {
    /// A candidate never has as many readings as are required: it is settled as
    /// soon as it has.
    pub open spec fn wf(self) -> bool {
        &&& self.required_stable_readings >= 1
        &&& self.candidate matches Some(candidate) ==> 1 <= candidate.sample_count
            < self.required_stable_readings
    }

    pub fn new(
        minimum_change_watts: Binary32,
        settle_tolerance_watts: Binary32,
        required_stable_readings: usize,
        device_match_tolerance_watts: Binary32,
    ) -> (method: SettledPowerMatch)
        ensures
            method.wf(),
            method == (SettledPowerMatch {
                minimum_change_watts: minimum_change_watts.floored_at_zero(),
                settle_tolerance_watts: settle_tolerance_watts.floored_at_zero(),
                required_stable_readings: if required_stable_readings >= 1 {
                    required_stable_readings
                } else {
                    1
                },
                device_match_tolerance_watts: device_match_tolerance_watts.floored_at_zero(),
                settled_total_power: None,
                candidate: None,
            }),
    {
        SettledPowerMatch {
            minimum_change_watts: minimum_change_watts.at_least_zero(),
            settle_tolerance_watts: settle_tolerance_watts.at_least_zero(),
            required_stable_readings: if required_stable_readings >= 1 {
                required_stable_readings
            } else {
                1
            },
            device_match_tolerance_watts: device_match_tolerance_watts.at_least_zero(),
            settled_total_power: None,
            candidate: None,
        }
    }

    /// The candidate after another reading away from the settled level: the
    /// running average goes on while the reading is close to it, and starts over
    /// otherwise.
    pub open spec fn next_candidate(self, total_power: Binary32) -> PowerCandidate {
        match self.candidate {
            Some(candidate) => if total_power.difference(
                candidate.average_power,
            ).absolute_value().at_most(self.settle_tolerance_watts) {
                let count = (candidate.sample_count + 1) as usize;
                PowerCandidate {
                    average_power: candidate.average_power.sum(
                        total_power.difference(candidate.average_power).quotient(
                            Binary32::nearest_count(count as nat),
                        ),
                    ),
                    sample_count: count,
                }
            } else {
                PowerCandidate { average_power: total_power, sample_count: 1 }
            },
            None => PowerCandidate { average_power: total_power, sample_count: 1 },
        }
    }

    /// The state after a reading, and the change it stands for.
    pub open spec fn after(
        self,
        total_power: Binary32,
        catalog: Seq<Device>,
        active: Seq<Device>,
    ) -> (SettledPowerMatch, DeviceChange) {
        match self.settled_total_power {
            None => (
                SettledPowerMatch { settled_total_power: Some(total_power), ..self },
                DeviceChange::Unchanged,
            ),
            Some(settled) => if total_power.difference(settled).absolute_value().below(
                self.minimum_change_watts,
            ) {
                (
                    SettledPowerMatch {
                        settled_total_power: Some(total_power),
                        candidate: None,
                        ..self
                    },
                    DeviceChange::Unchanged,
                )
            } else {
                let candidate = self.next_candidate(total_power);
                if candidate.sample_count < self.required_stable_readings {
                    (
                        SettledPowerMatch { candidate: Some(candidate), ..self },
                        DeviceChange::Unchanged,
                    )
                } else {
                    (
                        SettledPowerMatch {
                            settled_total_power: Some(candidate.average_power),
                            candidate: None,
                            ..self
                        },
                        matched(
                            candidate.average_power.difference(settled),
                            self.device_match_tolerance_watts,
                            catalog,
                            active,
                        ),
                    )
                }
            },
        }
    }

    fn update_candidate(&self, total_power: Binary32) -> (candidate: PowerCandidate)
        requires
            self.wf(),
        ensures
            candidate == self.next_candidate(total_power),
            1 <= candidate.sample_count <= self.required_stable_readings,
    {
        if let Some(candidate) = self.candidate {
            let offset: Binary32 = total_power.minus(candidate.average_power);
            if offset.abs().le(self.settle_tolerance_watts) {
                let sample_count: usize = candidate.sample_count + 1;
                proof {
                    binary32::lemma_counts_are_positive(sample_count as nat);
                }
                let share: Binary32 = offset.divided_by(
                    Binary32::from_count(sample_count as u64),
                );
                return PowerCandidate {
                    average_power: candidate.average_power.plus(share),
                    sample_count,
                };
            }
        }
        PowerCandidate { average_power: total_power, sample_count: 1 }
    }

    pub fn decide(
        &mut self,
        _previous_total_power: Option<Binary32>,
        total_power: Binary32,
        catalog: &Vec<Device>,
        active_devices: &Vec<Device>,
    ) -> (change: DeviceChange)
        requires
            old(self).wf(),
        ensures
            final(self).wf(),
            (*final(self), change) == old(self).after(total_power, catalog@, active_devices@),
    {
        let settled: Binary32 = match self.settled_total_power {
            Some(settled) => settled,
            None => {
                self.settled_total_power = Some(total_power);
                return DeviceChange::Unchanged;
            },
        };
        if total_power.minus(settled).abs().lt(self.minimum_change_watts) {
            // Small fluctuations move the settled level along.
            self.settled_total_power = Some(total_power);
            self.candidate = None;
            return DeviceChange::Unchanged;
        }
        let candidate: PowerCandidate = self.update_candidate(total_power);
        if candidate.sample_count < self.required_stable_readings {
            self.candidate = Some(candidate);
            return DeviceChange::Unchanged;
        }
        self.candidate = None;
        self.settled_total_power = Some(candidate.average_power);
        match_power_delta(
            candidate.average_power.minus(settled),
            self.device_match_tolerance_watts,
            catalog,
            active_devices,
        )
    }
}

impl DecisionMethod for SettledPowerMatch {
    open spec fn ready(&self) -> bool {
        self.wf()
    }

    open spec fn decision(
        &self,
        previous: Option<MeterReading>,
        reading: MeterReading,
        catalog: Seq<Device>,
        active: Seq<Device>,
    ) -> (SettledPowerMatch, DeviceChange) {
        self.after(reading.total_power, catalog, active)
    }

    open spec fn learned(&self) -> Seq<Device> {
        Seq::empty()
    }

    open spec fn profiles(&self) -> Seq<StoredAppliance> {
        Seq::empty()
    }

    fn decide_reading(
        &mut self,
        previous: Option<&MeterReading>,
        reading: &MeterReading,
        catalog: &Vec<Device>,
        active: &Vec<Device>,
    ) -> (change: DeviceChange) {
        let previous_total_power: Option<Binary32> = match previous {
            Some(previous) => Some(previous.total_power),
            None => None,
        };
        self.decide(previous_total_power, reading.total_power, catalog, active)
    }

    fn learned_devices(&self) -> (devices: Vec<Device>) {
        Vec::new()
    }

    fn learned_profiles(&self) -> (profiles: Vec<StoredAppliance>) {
        Vec::new()
    }
}

/// The first reading is the baseline: no method infers a device from it.
pub proof fn lemma_first_reading_is_the_baseline(
    immediate: ClosestPowerMatch,
    settled: SettledPowerMatch,
    reading: MeterReading,
    catalog: Seq<Device>,
    active: Seq<Device>,
)
    requires
        settled.settled_total_power is None,
    ensures
        immediate.decision(None, reading, catalog, active).1 == DeviceChange::Unchanged,
        settled.decision(None, reading, catalog, active).1 == DeviceChange::Unchanged,
        settled.decision(None, reading, catalog, active).0.settled_total_power == Some(
            reading.total_power,
        ),
{
}

/// The immediate method looks at nothing but the step between the two latest
/// totals, and is none the wiser afterwards.
pub proof fn lemma_the_immediate_method_compares_two_totals(
    method: ClosestPowerMatch,
    previous: MeterReading,
    reading: MeterReading,
    catalog: Seq<Device>,
    active: Seq<Device>,
)
    ensures
        method.decision(Some(previous), reading, catalog, active) == (
            method,
            matched(
                reading.total_power.difference(previous.total_power),
                method.device_match_tolerance_watts,
                catalog,
                active,
            ),
        ),
{
}

/// A level away from the settled one is matched once it has been read as many
/// times in a row as are required, and not a reading sooner: the step is the one
/// from the old level to the new, and the new level is the settled one from
/// there on.
#[verifier::spinoff_prover]
#[verifier::rlimit(40)]
pub proof fn lemma_a_steady_level_settles(
    method: SettledPowerMatch,
    level: Binary32,
    earlier: nat,
    catalog: Seq<Device>,
    active: Seq<Device>,
)
    requires
        method.wf(),
        method.settled_total_power is Some,
        method.candidate is None,
        (Binary32 { bits: 0 }).at_most(method.settle_tolerance_watts),
        level.finite(),
        level.magnitude() > 0 || !level.negative(),
        !level.difference(method.settled_total_power->0).absolute_value().below(
            method.minimum_change_watts,
        ),
        earlier < method.required_stable_readings,
    ensures
        ({
            let seen = after_totals(
                method,
                Seq::new(earlier, |i: int| level),
                catalog,
                active,
            );
            let (next, change) = seen.after(level, catalog, active);
            if earlier + 1 < method.required_stable_readings {
                &&& change == DeviceChange::Unchanged
                &&& next.settled_total_power == method.settled_total_power
                &&& next.candidate == Some(
                    PowerCandidate { average_power: level, sample_count: (earlier + 1) as usize },
                )
            } else {
                &&& change == matched(
                    level.difference(method.settled_total_power->0),
                    method.device_match_tolerance_watts,
                    catalog,
                    active,
                )
                &&& next.settled_total_power == Some(level)
                &&& next.candidate is None
            }
        }),
    decreases earlier,
{
    let totals = Seq::new(earlier, |i: int| level);
    let seen = after_totals(method, totals, catalog, active);
    if earlier > 0 {
        let fewer = (earlier - 1) as nat;
        assert(totals.drop_last() =~= Seq::new(fewer, |i: int| level));
        lemma_a_steady_level_settles(method, level, fewer, catalog, active);
        lemma_settings_stay(method, totals, catalog, active);
        assert(totals.last() == level);
        lemma_one_more_of_the_same(seen, level, earlier);
    } else {
        assert(totals =~= Seq::<Binary32>::empty());
        assert(seen == method);
    }
}

/// The same level once more leaves the average where it is.
proof fn lemma_one_more_of_the_same(method: SettledPowerMatch, level: Binary32, count: nat)
    requires
        (Binary32 { bits: 0 }).at_most(method.settle_tolerance_watts),
        level.finite(),
        level.magnitude() > 0 || !level.negative(),
        0 < count < usize::MAX,
        method.candidate == Some(
            PowerCandidate { average_power: level, sample_count: count as usize },
        ),
    ensures
        method.next_candidate(level) == (PowerCandidate {
            average_power: level,
            sample_count: (count + 1) as usize,
        }),
{
    binary32::lemma_mean_of_equal_values(level, count + 1);
    let zero = Binary32 { bits: 0 };
    assert(zero.absolute_value() == zero);
}

proof fn lemma_settings_stay(
    method: SettledPowerMatch,
    totals: Seq<Binary32>,
    catalog: Seq<Device>,
    active: Seq<Device>,
)
    ensures
        ({
            let seen = after_totals(method, totals, catalog, active);
            &&& seen.minimum_change_watts == method.minimum_change_watts
            &&& seen.settle_tolerance_watts == method.settle_tolerance_watts
            &&& seen.required_stable_readings == method.required_stable_readings
            &&& seen.device_match_tolerance_watts == method.device_match_tolerance_watts
        }),
    decreases totals.len(),
{
    if totals.len() > 0 {
        lemma_settings_stay(method, totals.drop_last(), catalog, active);
    }
}

/// A reading too far from the level that was settling starts a level of its
/// own; one close to the settled level ends the attempt.  Neither is a change
/// while more than one reading is required.
#[verifier::rlimit(40)]
pub proof fn lemma_an_unsteady_level_starts_over(
    method: SettledPowerMatch,
    total_power: Binary32,
    catalog: Seq<Device>,
    active: Seq<Device>,
)
    requires
        method.required_stable_readings > 1,
        method.settled_total_power is Some,
        method.candidate is Some,
        !total_power.difference(method.candidate->0.average_power).absolute_value().at_most(
            method.settle_tolerance_watts,
        ),
    ensures
        ({
            let (next, change) = method.after(total_power, catalog, active);
            let near = total_power.difference(
                method.settled_total_power->0,
            ).absolute_value().below(method.minimum_change_watts);
            &&& change == DeviceChange::Unchanged
            &&& near ==> next.candidate is None && next.settled_total_power == Some(total_power)
            &&& !near ==> next.candidate == Some(
                PowerCandidate { average_power: total_power, sample_count: 1 },
            ) && next.settled_total_power == method.settled_total_power
        }),
{
}

/// A series of readings, each of them closer to the one before than the
/// smallest change, never infers a device, however far the level creeps.
pub proof fn lemma_creeping_power_is_absorbed(
    method: SettledPowerMatch,
    totals: Seq<Binary32>,
    catalog: Seq<Device>,
    active: Seq<Device>,
    index: int,
)
    requires
        0 <= index < totals.len(),
        method.settled_total_power is Some,
        forall|i: int|
            0 <= i < totals.len() ==> (#[trigger] totals[i]).difference(
                if i == 0 {
                    method.settled_total_power->0
                } else {
                    totals[i - 1]
                },
            ).absolute_value().below(method.minimum_change_watts),
    ensures
        after_totals(method, totals.take(index), catalog, active).after(
            totals[index],
            catalog,
            active,
        ).1 == DeviceChange::Unchanged,
{
    lemma_creeping_level(method, totals.take(index), catalog, active);
    if index > 0 {
        assert(totals.take(index).last() == totals[index - 1]);
    }
}

/// The state after several readings.
pub open spec fn after_totals(
    method: SettledPowerMatch,
    totals: Seq<Binary32>,
    catalog: Seq<Device>,
    active: Seq<Device>,
) -> SettledPowerMatch
    decreases totals.len(),
{
    if totals.len() == 0 {
        method
    } else {
        after_totals(method, totals.drop_last(), catalog, active).after(
            totals.last(),
            catalog,
            active,
        ).0
    }
}

proof fn lemma_creeping_level(
    method: SettledPowerMatch,
    totals: Seq<Binary32>,
    catalog: Seq<Device>,
    active: Seq<Device>,
)
    requires
        method.settled_total_power is Some,
        forall|i: int|
            0 <= i < totals.len() ==> (#[trigger] totals[i]).difference(
                if i == 0 {
                    method.settled_total_power->0
                } else {
                    totals[i - 1]
                },
            ).absolute_value().below(method.minimum_change_watts),
    ensures
        after_totals(method, totals, catalog, active).settled_total_power == Some(
            if totals.len() == 0 {
                method.settled_total_power->0
            } else {
                totals.last()
            },
        ),
        after_totals(method, totals, catalog, active).minimum_change_watts
            == method.minimum_change_watts,
    decreases totals.len(),
{
    if totals.len() > 0 {
        let fewer = totals.drop_last();
        assert forall|i: int| 0 <= i < fewer.len() implies (#[trigger] fewer[i]).difference(
            if i == 0 {
                method.settled_total_power->0
            } else {
                fewer[i - 1]
            },
        ).absolute_value().below(method.minimum_change_watts) by {
            assert(fewer[i] == totals[i]);
        }
        lemma_creeping_level(method, fewer, catalog, active);
        assert(totals[totals.len() - 1] == totals.last());
    }
}

/// A reading at the level that is settling counts towards it, and moves the
/// average by its share of the distance from it.  Once enough readings agree, the
/// average is the settled level, and the step to it from the old one is matched.
#[verifier::rlimit(40)]
pub proof fn lemma_readings_of_a_level_are_averaged(
    method: SettledPowerMatch,
    total_power: Binary32,
    catalog: Seq<Device>,
    active: Seq<Device>,
)
    requires
        method.wf(),
        method.settled_total_power is Some,
        method.candidate is Some,
        !total_power.difference(method.settled_total_power->0).absolute_value().below(
            method.minimum_change_watts,
        ),
        total_power.difference(method.candidate->0.average_power).absolute_value().at_most(
            method.settle_tolerance_watts,
        ),
    ensures
        ({
            let (next, change) = method.after(total_power, catalog, active);
            let average = method.candidate->0.average_power;
            let count = method.candidate->0.sample_count + 1;
            let moved = average.sum(
                total_power.difference(average).quotient(Binary32::nearest_count(count as nat)),
            );
            if count < method.required_stable_readings {
                &&& change == DeviceChange::Unchanged
                &&& next.settled_total_power == method.settled_total_power
                &&& next.candidate is Some
                &&& next.candidate->0.average_power == moved
                &&& next.candidate->0.sample_count == count
            } else {
                &&& change == matched(
                    moved.difference(method.settled_total_power->0),
                    method.device_match_tolerance_watts,
                    catalog,
                    active,
                )
                &&& next.settled_total_power == Some(moved)
                &&& next.candidate is None
            }
        }),
{
}

/// A device known by its power alone has its id, its name and its power, and
/// nothing else is known of it.
pub proof fn lemma_a_plain_device(
    device: Device,
    id: Seq<char>,
    name: Seq<char>,
    power_watts: Binary32,
)
    requires
        device.plain(id, name, power_watts),
    ensures
        device.id@ == id,
        device.name@ == name,
        device.power_watts == power_watts,
        device.reactive_power_var is None,
        device.thd_current_pct is None,
        device.cos_phi is None,
{
}

/// Both methods go by the total power of the readings, and neither learns any
/// devices.
pub proof fn lemma_methods_go_by_the_total_power(
    immediate: ClosestPowerMatch,
    settled: SettledPowerMatch,
    previous: Option<MeterReading>,
    reading: MeterReading,
    catalog: Seq<Device>,
    active: Seq<Device>,
)
    ensures
        settled.decision(previous, reading, catalog, active) == settled.after(
            reading.total_power,
            catalog,
            active,
        ),
        immediate.learned().len() == 0,
        immediate.profiles().len() == 0,
        settled.learned().len() == 0,
        settled.profiles().len() == 0,
{
}

} // verus!
