//! The read model of the dashboard.

use vstd::prelude::*;
use vstd::string::*;

use crate::binary32;
use crate::binary32::Binary32;
use crate::clock;
use crate::clock::{time_text, Timestamp};
use crate::receiver::decision;
use crate::receiver::decision::{contains_device, Device, DeviceChange};
use crate::receiver::forecast::ForecastSeries;
use crate::receiver::history::HistoryEntry;
use crate::receiver::input::{MeterReading, PhaseReading};
use crate::receiver::labels;
use crate::receiver::labels::{DeviceLabels, RenameError};
use crate::receiver::meter::{Meter, MeterSnapshot, MeterState, HISTORY_WINDOW_SECS};
use crate::receiver::quality;
use crate::receiver::quality::{is_connected, violations, Limits, Violation};
use crate::receiver::transport;
use crate::receiver::transport::GatewayTransport;

verus! {

/// How long after the last reading the link stops counting as live.
pub const STALE_AFTER_SECONDS: u64 = 10;

/// One phase of the latest reading, flattened for display.
pub struct PhaseStatus {
    pub name: &'static str,
    pub voltage_v: Option<Binary32>,
    pub current_a: Option<Binary32>,
    pub real_power_w: Option<Binary32>,
    pub reactive_power_var: Option<Binary32>,
    pub cos_phi: Option<Binary32>,
    pub thd_voltage_pct: Option<Binary32>,
    pub thd_current_pct: Option<Binary32>,
    /// False for a phase with nothing wired to it, which is not a fault.
    pub connected: bool,
}

impl PhaseStatus {
    /// The status shows a phase, or that there is none.
    pub open spec fn shows(&self, name: Seq<char>, phase: Option<PhaseReading>) -> bool {
        &&& self.name@ == name
        &&& match phase {
            Some(phase) => {
                &&& self.voltage_v == phase.voltage_v
                &&& self.current_a == phase.current_a
                &&& self.real_power_w == phase.real_power_w
                &&& self.reactive_power_var == phase.reactive_power_var
                &&& self.cos_phi == phase.cos_phi
                &&& self.thd_voltage_pct == phase.thd_voltage_pct
                &&& self.thd_current_pct == phase.thd_current_pct
                &&& self.connected == quality::draws(phase, quality::CONNECTED_PHASE_CURRENT_A)
            },
            None => {
                &&& self.voltage_v is None
                &&& self.current_a is None
                &&& self.real_power_w is None
                &&& self.reactive_power_var is None
                &&& self.cos_phi is None
                &&& self.thd_voltage_pct is None
                &&& self.thd_current_pct is None
                &&& !self.connected
            },
        }
    }
}

pub fn phase_status(name: &'static str, phase: Option<PhaseReading>) -> (status: PhaseStatus)
    ensures
        status.shows(name@, phase),
{
    match phase {
        Some(phase) => PhaseStatus {
            name,
            voltage_v: phase.voltage_v,
            current_a: phase.current_a,
            real_power_w: phase.real_power_w,
            reactive_power_var: phase.reactive_power_var,
            cos_phi: phase.cos_phi,
            thd_voltage_pct: phase.thd_voltage_pct,
            thd_current_pct: phase.thd_current_pct,
            connected: is_connected(&phase),
        },
        None => PhaseStatus {
            name,
            voltage_v: None,
            current_a: None,
            real_power_w: None,
            reactive_power_var: None,
            cos_phi: None,
            thd_voltage_pct: None,
            thd_current_pct: None,
            connected: false,
        },
    }
}

/// The supply as the meter last measured it.
pub struct PowerQuality {
    pub frequency_hz: Option<Binary32>,
    /// Signed three-phase real power: negative means that the site is exporting.
    pub total_power_watts: Option<Binary32>,
    pub apparent_power_va: Option<Binary32>,
    pub reactive_power_var: Option<Binary32>,
    /// Which way the energy flows, or nothing before the first reading.
    pub flow: Option<&'static str>,
    pub phases: Vec<PhaseStatus>,
    pub violations: Vec<Violation>,
}

/// Which way the energy flows.
pub open spec fn flow_of(total_power: Binary32) -> Seq<char> {
    let zero = Binary32 { bits: 0 };
    if zero.below(total_power) {
        "import"@
    } else if total_power.below(zero) {
        "export"@
    } else {
        "balanced"@
    }
}

impl PowerQuality {
    /// The block shows a reading, or that there is none yet.
    pub open spec fn shows(&self, reading: Option<MeterReading>) -> bool {
        &&& self.phases@.len() == 3
        &&& match reading {
            Some(reading) => {
                &&& self.frequency_hz == reading.grid_frequency()
                &&& self.total_power_watts == Some(reading.total_power)
                &&& self.apparent_power_va == match reading.totals {
                    Some(totals) => totals.apparent_power_va,
                    None => None,
                }
                &&& self.reactive_power_var == match reading.totals {
                    Some(totals) => totals.reactive_power_var,
                    None => None,
                }
                &&& self.flow matches Some(flow) && flow@ == flow_of(reading.total_power)
                &&& self.phases@[0].shows("L1"@, reading.l1)
                &&& self.phases@[1].shows("L2"@, reading.l2)
                &&& self.phases@[2].shows("L3"@, reading.l3)
                &&& quality::breach_views(self.violations@) == quality::breaches(reading)
            },
            None => {
                &&& self.frequency_hz is None
                &&& self.total_power_watts is None
                &&& self.apparent_power_va is None
                &&& self.reactive_power_var is None
                &&& self.flow is None
                &&& self.phases@[0].shows("L1"@, None)
                &&& self.phases@[1].shows("L2"@, None)
                &&& self.phases@[2].shows("L3"@, None)
                &&& self.violations@.len() == 0
            },
        }
    }
}

pub fn power_quality(reading: Option<MeterReading>) -> (block: PowerQuality)
    ensures
        block.shows(reading),
{
    match reading {
        Some(reading) => {
            let zero: Binary32 = Binary32 { bits: 0 };
            let flow: &'static str = if zero.lt(reading.total_power) {
                "import"
            } else if reading.total_power.lt(zero) {
                "export"
            } else {
                "balanced"
            };
            PowerQuality {
                frequency_hz: reading.frequency(),
                total_power_watts: Some(reading.total_power),
                apparent_power_va: match reading.totals {
                    Some(totals) => totals.apparent_power_va,
                    None => None,
                },
                reactive_power_var: match reading.totals {
                    Some(totals) => totals.reactive_power_var,
                    None => None,
                },
                flow: Some(flow),
                phases: vec![
                    phase_status("L1", reading.l1),
                    phase_status("L2", reading.l2),
                    phase_status("L3", reading.l3),
                ],
                violations: violations(&reading),
            }
        },
        None => PowerQuality {
            frequency_hz: None,
            total_power_watts: None,
            apparent_power_va: None,
            reactive_power_var: None,
            flow: None,
            phases: vec![
                phase_status("L1", None),
                phase_status("L2", None),
                phase_status("L3", None),
            ],
            violations: Vec::new(),
        },
    }
}

/// The link the readings arrive over.
pub struct Transport {
    /// `live`, `stale`, or `waiting`: judged from arrival times, not taken from
    /// what the gateway claims about itself.
    pub state: &'static str,
    pub seconds_since_last_reading: Option<i64>,
    pub readings_received: u64,
    /// What the gateway reported about its own side of the link.
    pub gateway: GatewayTransport,
    /// Whether the gateway reported anything at all.
    pub gateway_reporting: bool,
}

/// The state of the link, from when a reading last arrived.
pub open spec fn link_state(seconds: Option<int>) -> Seq<char> {
    match seconds {
        None => "waiting"@,
        Some(seconds) => if seconds > STALE_AFTER_SECONDS {
            "stale"@
        } else {
            "live"@
        },
    }
}

/// Whole seconds since a reading last arrived.
pub open spec fn silence(last: Option<Timestamp>, now: Timestamp) -> Option<int> {
    match last {
        Some(last) => Some(now.seconds_since(last)),
        None => None,
    }
}

pub struct DeviceStatus {
    pub id: &'static str,
    pub name: String,
    pub nominal_power_watts: Binary32,
    pub reactive_power_var: Option<Binary32>,
    pub thd_current_pct: Option<Binary32>,
    pub cos_phi: Option<Binary32>,
    pub active: bool,
}

/// What a device is called: by the name given to it, or by its own.
pub open spec fn called(names: Seq<(Seq<char>, Seq<char>)>, device: Device) -> Seq<char> {
    match labels::name_given(names, device.id@) {
        Some(name) => name,
        None => device.name@,
    }
}

impl DeviceStatus {
    /// The status shows a device.
    pub open spec fn shows(
        &self,
        device: Device,
        names: Seq<(Seq<char>, Seq<char>)>,
        active: Seq<Device>,
    ) -> bool {
        &&& self.id@ == device.id@
        &&& self.name@ == called(names, device)
        &&& self.nominal_power_watts == device.power_watts
        &&& self.reactive_power_var == device.reactive_power_var
        &&& self.thd_current_pct == device.thd_current_pct
        &&& self.cos_phi == device.cos_phi
        &&& self.active == decision::has_device(active, device.id@)
    }
}

pub struct Change {
    pub kind: &'static str,
    pub device_id: &'static str,
    pub device_name: String,
    pub nominal_power_watts: Binary32,
    pub reactive_power_var: Option<Binary32>,
    pub thd_current_pct: Option<Binary32>,
    pub received_at: String,
}

impl Change {
    /// The change is the coming or going of a device at a time.
    pub open spec fn tells(
        &self,
        kind: Seq<char>,
        device: Device,
        names: Seq<(Seq<char>, Seq<char>)>,
        at: Timestamp,
    ) -> bool {
        &&& self.kind@ == kind
        &&& self.device_id@ == device.id@
        &&& self.device_name@ == called(names, device)
        &&& self.nominal_power_watts == device.power_watts
        &&& self.reactive_power_var == device.reactive_power_var
        &&& self.thd_current_pct == device.thd_current_pct
        &&& self.received_at@ == clock::rfc3339_text(at.secs, at.nanos)
    }
}

/// Everything the live view shows.
pub struct Snapshot {
    pub schema_version: u8,
    pub generated_at: String,
    pub decision_method: &'static str,
    pub stale_after_seconds: u64,
    pub readings_received: u64,
    pub last_received_at: Option<String>,
    pub total_power_watts: Option<Binary32>,
    pub latest_reading: Option<MeterReading>,
    /// The nominal power of each active device.
    pub active_power_watts: Vec<Binary32>,
    pub devices: Vec<DeviceStatus>,
    pub last_change: Option<Change>,
    /// The measured state of the supply, phase by phase.
    pub power_quality: PowerQuality,
    /// The limits that violations were judged against.
    pub limits: Limits,
    /// The link, as far as either end can see it.
    pub transport: Transport,
}

fn call_device(names: &DeviceLabels, device: &Device) -> (name: String)
    ensures
        name@ == called(labels::name_texts(names.names@), *device),
{
    match names.name_of(device.id) {
        Some(name) => name.clone(),
        None => device.name.to_owned(),
    }
}

fn list_devices(meter: &MeterSnapshot) -> (devices: Vec<DeviceStatus>)
    ensures
        devices@.len() == meter.catalog@.len(),
        forall|i: int|
            0 <= i < devices@.len() ==> (#[trigger] devices@[i]).shows(
                meter.catalog@[i],
                labels::name_texts(meter.device_names.names@),
                meter.active_devices@,
            ),
{
    let mut devices: Vec<DeviceStatus> = Vec::new();
    let mut at: usize = 0;
    while at < meter.catalog.len()
        invariant
            at <= meter.catalog@.len(),
            devices@.len() == at,
            forall|i: int|
                0 <= i < at ==> (#[trigger] devices@[i]).shows(
                    meter.catalog@[i],
                    labels::name_texts(meter.device_names.names@),
                    meter.active_devices@,
                ),
        decreases meter.catalog@.len() - at,
    {
        let device: Device = meter.catalog[at];
        devices.push(
            DeviceStatus {
                id: device.id,
                name: call_device(&meter.device_names, &device),
                nominal_power_watts: device.power_watts,
                reactive_power_var: device.reactive_power_var,
                thd_current_pct: device.thd_current_pct,
                cos_phi: device.cos_phi,
                active: contains_device(&meter.active_devices, device.id),
            },
        );
        at = at + 1;
    }
    devices
}

fn list_active_powers(devices: &Vec<Device>) -> (powers: Vec<Binary32>)
    ensures
        powers@ == devices@.map_values(|device: Device| device.power_watts),
{
    let mut powers: Vec<Binary32> = Vec::new();
    let mut at: usize = 0;
    while at < devices.len()
        invariant
            at <= devices@.len(),
            powers@.len() == at,
            forall|i: int| 0 <= i < at ==> #[trigger] powers@[i] == devices@[i].power_watts,
        decreases devices@.len() - at,
    {
        powers.push(devices[at].power_watts);
        at = at + 1;
    }
    assert(powers@ =~= devices@.map_values(|device: Device| device.power_watts));
    powers
}

fn tell_change(
    kind: &'static str,
    device: &Device,
    names: &DeviceLabels,
    at: Timestamp,
) -> (change: Change)
    requires
        at.wf(),
    ensures
        change.tells(kind@, *device, labels::name_texts(names.names@), at),
{
    Change {
        kind,
        device_id: device.id,
        device_name: call_device(names, device),
        nominal_power_watts: device.power_watts,
        reactive_power_var: device.reactive_power_var,
        thd_current_pct: device.thd_current_pct,
        received_at: time_text(at),
    }
}

/// The snapshot shows what the receiver knows at a time.
pub open spec fn snapshot_shows(
    snapshot: Snapshot,
    meter: MeterSnapshot,
    decision_method: Seq<char>,
    now: Timestamp,
) -> bool {
    let names = labels::name_texts(meter.device_names.names@);
    let seconds = silence(meter.last_received_at, now);
    &&& snapshot.schema_version == 1
    &&& snapshot.generated_at@ == clock::rfc3339_text(now.secs, now.nanos)
    &&& snapshot.decision_method@ == decision_method
    &&& snapshot.stale_after_seconds == STALE_AFTER_SECONDS
    &&& snapshot.readings_received == meter.readings_received
    &&& match meter.last_received_at {
        Some(at) => snapshot.last_received_at matches Some(text) && text@ == clock::rfc3339_text(
            at.secs,
            at.nanos,
        ),
        None => snapshot.last_received_at is None,
    }
    &&& snapshot.total_power_watts == meter.total_power_watts
    &&& snapshot.latest_reading == meter.latest_reading
    &&& snapshot.active_power_watts@ == meter.active_devices@.map_values(
        |device: Device| device.power_watts,
    )
    &&& snapshot.devices@.len() == meter.catalog@.len()
    &&& forall|i: int|
        0 <= i < snapshot.devices@.len() ==> (#[trigger] snapshot.devices@[i]).shows(
            meter.catalog@[i],
            names,
            meter.active_devices@,
        )
    &&& match meter.last_change {
        Some((DeviceChange::Added(device), at)) => snapshot.last_change matches Some(change)
            && change.tells("added"@, device, names, at),
        Some((DeviceChange::Removed(device), at)) => snapshot.last_change matches Some(change)
            && change.tells("removed"@, device, names, at),
        _ => snapshot.last_change is None,
    }
    &&& snapshot.power_quality.shows(meter.latest_reading)
    &&& snapshot.limits == quality::published_limits()
    &&& snapshot.transport.state@ == link_state(seconds)
    &&& match snapshot.transport.seconds_since_last_reading {
        Some(shown) => seconds == Some(shown as int),
        None => seconds is None,
    }
    &&& snapshot.transport.readings_received == meter.readings_received
    &&& snapshot.transport.gateway@ == meter.transport@
    &&& snapshot.transport.gateway_reporting == (meter.transport@ != transport::no_report())
}

/// Builds the live view from a copy of the receiver's state.
pub fn snapshot(meter: &MeterSnapshot, decision_method: &'static str, now: Timestamp) -> (snapshot:
    Snapshot)
    requires
        meter.wf(),
        now.wf(),
    ensures
        snapshot_shows(snapshot, *meter, decision_method@, now),
{
    let seconds: Option<i64> = match meter.last_received_at {
        Some(at) => Some(now.whole_seconds_since(at)),
        None => None,
    };
    let state: &'static str = match seconds {
        None => "waiting",
        Some(seconds) => {
            if seconds as u64 > STALE_AFTER_SECONDS {
                "stale"
            } else {
                "live"
            }
        },
    };
    let last_received_at: Option<String> = match meter.last_received_at {
        Some(at) => Some(time_text(at)),
        None => None,
    };
    let last_change: Option<Change> = match meter.last_change {
        Some((change, at)) => match change {
            DeviceChange::Added(device) => Some(
                tell_change("added", &device, &meter.device_names, at),
            ),
            DeviceChange::Removed(device) => Some(
                tell_change("removed", &device, &meter.device_names, at),
            ),
            DeviceChange::Unchanged => None,
        },
        None => None,
    };
    Snapshot {
        schema_version: 1,
        generated_at: time_text(now),
        decision_method,
        stale_after_seconds: STALE_AFTER_SECONDS,
        readings_received: meter.readings_received,
        last_received_at,
        total_power_watts: meter.total_power_watts,
        latest_reading: meter.latest_reading,
        active_power_watts: list_active_powers(&meter.active_devices),
        devices: list_devices(meter),
        last_change,
        power_quality: power_quality(meter.latest_reading),
        limits: Limits::en50160(),
        transport: Transport {
            state,
            seconds_since_last_reading: seconds,
            readings_received: meter.readings_received,
            gateway: meter.transport.copy(),
            gateway_reporting: !meter.transport.is_empty(),
        },
    }
}

/// One point on the charts: only what is plotted.
pub struct HistorySample {
    pub at: String,
    pub total_power_watts: Binary32,
    pub frequency_hz: Option<Binary32>,
    pub voltage_v: [Option<Binary32>; 3],
    pub current_a: [Option<Binary32>; 3],
    pub thd_voltage_pct: [Option<Binary32>; 3],
    pub thd_current_pct: [Option<Binary32>; 3],
}

/// The block of a phase, or a block without values.
pub open spec fn phase_of(reading: MeterReading, phase: int) -> Option<PhaseReading> {
    if phase == 0 {
        reading.l1
    } else if phase == 1 {
        reading.l2
    } else {
        reading.l3
    }
}

impl HistorySample {
    /// The sample plots an entry.
    pub open spec fn plots(&self, entry: HistoryEntry<MeterReading>) -> bool {
        &&& self.at@ == clock::rfc3339_text(entry.timestamp.secs, entry.timestamp.nanos)
        &&& self.total_power_watts == entry.data.total_power
        &&& self.frequency_hz == entry.data.grid_frequency()
        &&& forall|phase: int|
            #![trigger phase_of(entry.data, phase)]
            0 <= phase < 3 ==> {
                &&& self.voltage_v[phase] == match phase_of(entry.data, phase) {
                    Some(block) => block.voltage_v,
                    None => None,
                }
                &&& self.current_a[phase] == match phase_of(entry.data, phase) {
                    Some(block) => block.current_a,
                    None => None,
                }
                &&& self.thd_voltage_pct[phase] == match phase_of(entry.data, phase) {
                    Some(block) => block.thd_voltage_pct,
                    None => None,
                }
                &&& self.thd_current_pct[phase] == match phase_of(entry.data, phase) {
                    Some(block) => block.thd_current_pct,
                    None => None,
                }
            }
    }
}

/// A window of recent readings, oldest first.
pub struct HistorySeries<'a> {
    pub schema_version: u8,
    pub generated_at: String,
    pub window_seconds: u64,
    pub persistent: bool,
    pub stored_readings: u64,
    pub samples: Vec<HistorySample>,
    pub forecast: Option<&'a ForecastSeries>,
}

fn voltage_of(phase: &Option<PhaseReading>) -> (value: Option<Binary32>)
    ensures
        value == match *phase {
            Some(phase) => phase.voltage_v,
            None => None,
        },
{
    match phase {
        Some(phase) => phase.voltage_v,
        None => None,
    }
}

fn current_of(phase: &Option<PhaseReading>) -> (value: Option<Binary32>)
    ensures
        value == match *phase {
            Some(phase) => phase.current_a,
            None => None,
        },
{
    match phase {
        Some(phase) => phase.current_a,
        None => None,
    }
}

fn thd_voltage_of(phase: &Option<PhaseReading>) -> (value: Option<Binary32>)
    ensures
        value == match *phase {
            Some(phase) => phase.thd_voltage_pct,
            None => None,
        },
{
    match phase {
        Some(phase) => phase.thd_voltage_pct,
        None => None,
    }
}

fn thd_current_of(phase: &Option<PhaseReading>) -> (value: Option<Binary32>)
    ensures
        value == match *phase {
            Some(phase) => phase.thd_current_pct,
            None => None,
        },
{
    match phase {
        Some(phase) => phase.thd_current_pct,
        None => None,
    }
}

fn plot(entry: &HistoryEntry<MeterReading>) -> (sample: HistorySample)
    requires
        entry.timestamp.wf(),
    ensures
        sample.plots(*entry),
{
    let reading: MeterReading = entry.data;
    HistorySample {
        at: time_text(entry.timestamp),
        total_power_watts: reading.total_power,
        frequency_hz: reading.frequency(),
        voltage_v: [voltage_of(&reading.l1), voltage_of(&reading.l2), voltage_of(&reading.l3)],
        current_a: [current_of(&reading.l1), current_of(&reading.l2), current_of(&reading.l3)],
        thd_voltage_pct: [
            thd_voltage_of(&reading.l1),
            thd_voltage_of(&reading.l2),
            thd_voltage_of(&reading.l3),
        ],
        thd_current_pct: [
            thd_current_of(&reading.l1),
            thd_current_of(&reading.l2),
            thd_current_of(&reading.l3),
        ],
    }
}

/// Builds the series behind the charts from the recent entries.
pub fn series<'a>(
    entries: &[HistoryEntry<MeterReading>],
    persistent: bool,
    stored_readings: u64,
    forecast: Option<&'a ForecastSeries>,
    now: Timestamp,
) -> (series: HistorySeries<'a>)
    requires
        now.wf(),
        forall|i: int| 0 <= i < entries@.len() ==> (#[trigger] entries@[i]).timestamp.wf(),
    ensures
        series.schema_version == 1,
        series.generated_at@ == clock::rfc3339_text(now.secs, now.nanos),
        series.window_seconds == HISTORY_WINDOW_SECS,
        series.persistent == persistent,
        series.stored_readings == stored_readings,
        series.forecast == forecast,
        series.samples@.len() == entries@.len(),
        forall|i: int|
            0 <= i < entries@.len() ==> (#[trigger] series.samples@[i]).plots(entries@[i]),
{
    let mut samples: Vec<HistorySample> = Vec::new();
    let mut at: usize = 0;
    while at < entries.len()
        invariant
            at <= entries@.len(),
            samples@.len() == at,
            forall|i: int| 0 <= i < entries@.len() ==> (#[trigger] entries@[i]).timestamp.wf(),
            forall|i: int| 0 <= i < at ==> (#[trigger] samples@[i]).plots(entries@[i]),
        decreases entries@.len() - at,
    {
        assert(entries@[at as int].timestamp.wf());
        samples.push(plot(&entries[at]));
        at = at + 1;
    }
    HistorySeries {
        schema_version: 1,
        generated_at: time_text(now),
        window_seconds: HISTORY_WINDOW_SECS,
        persistent,
        stored_readings,
        samples,
        forecast,
    }
}

/// The dashboard's view of a receiver.
pub struct LiveMeterSource {
    pub meter: MeterState,
    pub decision_method: &'static str,
}

impl LiveMeterSource {
    /// The live view at a time.
    pub fn snapshot(&self, now: Timestamp) -> (shown: Snapshot)
        requires
            self.meter.wf(),
            now.wf(),
        ensures
            exists|copy: MeterSnapshot| #[trigger]
                copy.copies(self.meter@) && snapshot_shows(
                    shown,
                    copy,
                    self.decision_method@,
                    now,
                ),
    {
        let copy: MeterSnapshot = self.meter.snapshot();
        snapshot(&copy, self.decision_method, now)
    }

    /// The series of the latest recorded minute.
    pub fn history<'a>(&'a self, now: Timestamp) -> (shown: HistorySeries<'a>)
        requires
            self.meter.wf(),
            now.wf(),
        ensures
            shown.schema_version == 1,
            shown.generated_at@ == clock::rfc3339_text(now.secs, now.nanos),
            shown.window_seconds == HISTORY_WINDOW_SECS,
            shown.persistent == self.meter@.persistent,
            shown.stored_readings == self.meter@.stored,
            match shown.forecast {
                Some(forecast) => self.meter.forecasted() == Some(*forecast),
                None => self.meter.forecasted() is None,
            },
            shown.samples@.len() == self.meter@.recent().len(),
            forall|i: int|
                0 <= i < shown.samples@.len() ==> (#[trigger] shown.samples@[i]).plots(
                    self.meter@.recent()[i],
                ),
    {
        let recent: &[HistoryEntry<MeterReading>] = self.meter.recent_history();
        series(
            recent,
            self.meter.history_is_persistent(),
            self.meter.stored_readings(),
            self.meter.latest_forecast(),
            now,
        )
    }
}

/// How a rename that failed is answered.
pub fn rename_failure(error: RenameError) -> (answer: (u16, &'static str))
    ensures
        match error {
            RenameError::InvalidName => answer.0 == 400 && answer.1@
                == "Use a name of 1–80 characters without control characters."@,
            RenameError::NotFound => answer.0 == 404 && answer.1@
                == "This device is no longer in the catalog."@,
            RenameError::Unavailable => answer.0 == 503 && answer.1@
                == "Could not save the device name. Please retry."@,
        },
{
    match error {
        RenameError::InvalidName => (
            400,
            "Use a name of 1–80 characters without control characters.",
        ),
        RenameError::NotFound => (404, "This device is no longer in the catalog."),
        RenameError::Unavailable => (503, "Could not save the device name. Please retry."),
    }
}

/// The link counts as live for as long as the receiver itself has heard from it
/// lately, and waits for a first reading before anything is claimed.
pub proof fn lemma_link_state_goes_by_arrival(last: Option<Timestamp>, now: Timestamp)
    requires
        now.wf(),
        last matches Some(at) ==> at.wf(),
    ensures
        link_state(silence(last, now)) == match last {
            None => "waiting"@,
            Some(at) => if (now.secs - at.secs) * 1_000_000_000 + now.nanos - at.nanos >= (
            STALE_AFTER_SECONDS + 1) * 1_000_000_000 {
                "stale"@
            } else {
                "live"@
            },
        },
{
}

/// A status tells the measured values of a phase, and whether at least 10 mA are
/// drawn from it; of a phase that is not there it tells nothing.
pub open spec fn tells_phase(status: PhaseStatus, phase: Option<PhaseReading>) -> bool {
    match phase {
        Some(phase) => {
            &&& status.voltage_v == phase.voltage_v
            &&& status.current_a == phase.current_a
            &&& status.real_power_w == phase.real_power_w
            &&& status.reactive_power_var == phase.reactive_power_var
            &&& status.cos_phi == phase.cos_phi
            &&& status.thd_voltage_pct == phase.thd_voltage_pct
            &&& status.thd_current_pct == phase.thd_current_pct
            &&& status.connected <==> phase.current_a is Some && (Binary32 {
                bits: 0x3c23_d70a,
            }).at_most(phase.current_a->0.absolute_value())
        },
        None => {
            &&& status.voltage_v is None
            &&& status.current_a is None
            &&& status.real_power_w is None
            &&& status.reactive_power_var is None
            &&& status.cos_phi is None
            &&& status.thd_voltage_pct is None
            &&& status.thd_current_pct is None
            &&& !status.connected
        },
    }
}

/// The supply is shown phase by phase, `L1`, `L2` and `L3`, each with what the
/// reading says of it, next to the sums and everything that is out of its limit.
#[verifier::rlimit(40)]
pub proof fn lemma_every_phase_is_shown_under_its_name(block: PowerQuality, reading: MeterReading)
    requires
        block.shows(Some(reading)),
    ensures
        block.phases@.len() == 3,
        block.phases@[0].name@ == "L1"@,
        block.phases@[1].name@ == "L2"@,
        block.phases@[2].name@ == "L3"@,
        tells_phase(block.phases@[0], reading.l1),
        tells_phase(block.phases@[1], reading.l2),
        tells_phase(block.phases@[2], reading.l3),
        block.total_power_watts == Some(reading.total_power),
        reading.frequency_hz is Some ==> block.frequency_hz == reading.frequency_hz->0,
        reading.frequency_hz is None ==> block.frequency_hz is None,
        reading.totals is Some ==> block.apparent_power_va == reading.totals->0.apparent_power_va
            && block.reactive_power_var == reading.totals->0.reactive_power_var,
        reading.totals is None ==> block.apparent_power_va is None && block.reactive_power_var
             is None,
        block.violations@.len() == quality::breaches(reading).len(),
        forall|i: int|
            0 <= i < block.violations@.len() ==> (#[trigger] block.violations@[i])@
                == quality::breaches(reading)[i],
{
    let views = quality::breach_views(block.violations@);
    assert forall|i: int| 0 <= i < block.violations@.len() implies (
    #[trigger] block.violations@[i])@ == quality::breaches(reading)[i] by {
        assert(views[i] == block.violations@[i]@);
    }
}

/// Before the first reading nothing is shown of the supply.
pub proof fn lemma_nothing_is_shown_before_the_first_reading(block: PowerQuality, phase: int)
    requires
        block.shows(None),
        0 <= phase < 3,
    ensures
        block.phases@.len() == 3,
        tells_phase(block.phases@[phase], None),
        block.total_power_watts is None,
        block.frequency_hz is None,
        block.apparent_power_va is None,
        block.reactive_power_var is None,
        block.flow is None,
        block.violations@.len() == 0,
{
}

/// Energy is drawn while the total power is above zero, and given back while it
/// is below.
pub proof fn lemma_which_way_the_energy_flows(total_power: Binary32)
    requires
        total_power.finite(),
    ensures
        total_power.units() > 0 ==> flow_of(total_power) == "import"@,
        total_power.units() < 0 ==> flow_of(total_power) == "export"@,
        total_power.units() == 0 ==> flow_of(total_power) == "balanced"@,
{
    let zero = Binary32 { bits: 0 };
    binary32::lemma_order_is_numeric(zero, total_power);
    binary32::lemma_order_is_numeric(total_power, zero);
    assert(zero.units() == 0);
}

/// A device is called by the name given to it last, or by its own.
pub proof fn lemma_what_a_device_is_called(
    names: Seq<(Seq<char>, Seq<char>)>,
    device: Device,
    at: int,
)
    ensures
        (forall|i: int| 0 <= i < names.len() ==> (#[trigger] names[i]).0 != device.id@) ==> called(
            names,
            device,
        ) == device.name@,
        0 <= at < names.len() && names[at].0 == device.id@ && (forall|i: int|
            at < i < names.len() ==> (#[trigger] names[i]).0 != device.id@) ==> called(names, device)
            == names[at].1,
{
    labels::lemma_a_name_is_the_one_given_last(names, device.id@);
    if let Some(name) = labels::name_given(names, device.id@) {
        let found = choose|found: int|
            0 <= found < names.len() && #[trigger] names[found] == (device.id@, name) && forall|
                i: int,
            |
                found < i < names.len() ==> (#[trigger] names[i]).0 != device.id@;
        assert(names[found].0 == device.id@);
    }
}

/// Every device of the catalog is shown, in its order, and as active exactly if
/// a device with its id is; the powers of all active devices are shown with it.
pub proof fn lemma_every_device_is_shown(
    snapshot: Snapshot,
    meter: MeterSnapshot,
    decision_method: Seq<char>,
    now: Timestamp,
    at: int,
)
    requires
        snapshot_shows(snapshot, meter, decision_method, now),
        0 <= at < meter.catalog@.len(),
    ensures
        snapshot.devices@.len() == meter.catalog@.len(),
        ({
            let shown = snapshot.devices@[at];
            let device = meter.catalog@[at];
            &&& shown.id@ == device.id@
            &&& shown.name@ == called(labels::name_texts(meter.device_names.names@), device)
            &&& shown.nominal_power_watts == device.power_watts
            &&& shown.reactive_power_var == device.reactive_power_var
            &&& shown.thd_current_pct == device.thd_current_pct
            &&& shown.cos_phi == device.cos_phi
            &&& shown.active <==> exists|j: int|
                0 <= j < meter.active_devices@.len() && (#[trigger] meter.active_devices@[j]).id@
                    == device.id@
        }),
        snapshot.active_power_watts@.len() == meter.active_devices@.len(),
        forall|j: int|
            0 <= j < meter.active_devices@.len() ==> #[trigger] snapshot.active_power_watts@[j]
                == meter.active_devices@[j].power_watts,
{
    assert(snapshot.devices@[at].shows(
        meter.catalog@[at],
        labels::name_texts(meter.device_names.names@),
        meter.active_devices@,
    ));
}

/// The rest of the live view: what was counted and measured last, the last
/// change, and the link by the arrival of readings and by what the gateway said.
#[verifier::rlimit(40)]
pub proof fn lemma_what_the_live_view_tells(
    snapshot: Snapshot,
    meter: MeterSnapshot,
    decision_method: Seq<char>,
    now: Timestamp,
)
    requires
        snapshot_shows(snapshot, meter, decision_method, now),
    ensures
        snapshot.readings_received == meter.readings_received,
        snapshot.total_power_watts == meter.total_power_watts,
        snapshot.latest_reading == meter.latest_reading,
        snapshot.decision_method@ == decision_method,
        snapshot.stale_after_seconds == 10,
        snapshot.generated_at@ == clock::rfc3339_text(now.secs, now.nanos),
        snapshot.last_received_at is Some <==> meter.last_received_at is Some,
        snapshot.last_received_at is Some ==> snapshot.last_received_at->0@ == clock::rfc3339_text(
            meter.last_received_at->0.secs,
            meter.last_received_at->0.nanos,
        ),
        meter.latest_reading is Some ==> snapshot.power_quality.shows(
            Some(meter.latest_reading->0),
        ),
        meter.last_change is None ==> snapshot.last_change is None,
        meter.last_change matches Some((change, at)) ==> match change {
            DeviceChange::Added(device) => snapshot.last_change is Some
                && snapshot.last_change->0.kind@ == "added"@ && snapshot.last_change->0.device_id@
                == device.id@ && snapshot.last_change->0.nominal_power_watts == device.power_watts
                && snapshot.last_change->0.reactive_power_var == device.reactive_power_var
                && snapshot.last_change->0.thd_current_pct == device.thd_current_pct
                && snapshot.last_change->0.device_name@ == called(
                labels::name_texts(meter.device_names.names@),
                device,
            ) && snapshot.last_change->0.received_at@ == clock::rfc3339_text(at.secs, at.nanos),
            DeviceChange::Removed(device) => snapshot.last_change is Some
                && snapshot.last_change->0.kind@ == "removed"@ && snapshot.last_change->0.device_id@
                == device.id@ && snapshot.last_change->0.nominal_power_watts == device.power_watts
                && snapshot.last_change->0.reactive_power_var == device.reactive_power_var
                && snapshot.last_change->0.thd_current_pct == device.thd_current_pct
                && snapshot.last_change->0.device_name@ == called(
                labels::name_texts(meter.device_names.names@),
                device,
            ) && snapshot.last_change->0.received_at@ == clock::rfc3339_text(at.secs, at.nanos),
            DeviceChange::Unchanged => snapshot.last_change is None,
        },
        snapshot.transport.readings_received == meter.readings_received,
        snapshot.transport.gateway@ == meter.transport@,
        snapshot.transport.gateway_reporting <==> meter.transport@ != transport::no_report(),
        snapshot.transport.seconds_since_last_reading is Some <==> meter.last_received_at is Some,
        snapshot.transport.seconds_since_last_reading is Some
            ==> snapshot.transport.seconds_since_last_reading->0 == now.seconds_since(
            meter.last_received_at->0,
        ),
        snapshot.transport.state@ == link_state(silence(meter.last_received_at, now)),
{
}

/// A copy of the state tells everything the state tells.
pub proof fn lemma_a_copy_is_complete(copy: MeterSnapshot, meter: Meter)
    requires
        copy.copies(meter),
    ensures
        copy.catalog@ == meter.catalog,
        copy.active_devices@ == meter.active,
        copy.latest_reading == meter.latest,
        meter.latest is Some ==> copy.total_power_watts == Some(meter.latest->0.total_power),
        meter.latest is None ==> copy.total_power_watts is None,
        copy.readings_received == meter.received,
        copy.last_received_at == meter.last_received_at,
        copy.last_change == meter.last_change,
        copy.transport@ == meter.transport,
        labels::name_texts(copy.device_names.names@) == meter.names,
{
}

/// What is plotted of one phase.
pub open spec fn plots_phase(
    sample: HistorySample,
    index: int,
    phase: Option<PhaseReading>,
) -> bool {
    match phase {
        Some(phase) => {
            &&& sample.voltage_v[index] == phase.voltage_v
            &&& sample.current_a[index] == phase.current_a
            &&& sample.thd_voltage_pct[index] == phase.thd_voltage_pct
            &&& sample.thd_current_pct[index] == phase.thd_current_pct
        },
        None => {
            &&& sample.voltage_v[index] is None
            &&& sample.current_a[index] is None
            &&& sample.thd_voltage_pct[index] is None
            &&& sample.thd_current_pct[index] is None
        },
    }
}

/// A point of the charts plots the three phases in their order.
pub proof fn lemma_every_phase_is_plotted(sample: HistorySample, entry: HistoryEntry<MeterReading>)
    requires
        sample.plots(entry),
    ensures
        plots_phase(sample, 0, entry.data.l1),
        plots_phase(sample, 1, entry.data.l2),
        plots_phase(sample, 2, entry.data.l3),
        sample.total_power_watts == entry.data.total_power,
        entry.data.frequency_hz is Some ==> sample.frequency_hz == entry.data.frequency_hz->0,
        entry.data.frequency_hz is None ==> sample.frequency_hz is None,
        sample.at@ == clock::rfc3339_text(entry.timestamp.secs, entry.timestamp.nanos),
{
    assert(phase_of(entry.data, 0) == entry.data.l1);
    assert(phase_of(entry.data, 1) == entry.data.l2);
    assert(phase_of(entry.data, 2) == entry.data.l3);
}

} // verus!
