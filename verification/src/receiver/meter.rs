//! Transport-independent, in-memory state.  Only accepted readings update it.

use vstd::prelude::*;
use vstd::string::*;

use crate::binary32::Binary32;
use crate::clock::Timestamp;
use crate::receiver::archive;
use crate::receiver::archive::{load_cache, ArchiveError, StoredRow};
use crate::receiver::decision;
use crate::receiver::decision::{
    contains_device, DecisionMethod, Device, DeviceChange, StoredAppliance,
};
use crate::receiver::forecast::ForecastSeries;
use crate::receiver::history;
use crate::receiver::history::{History, HistoryEntry};
use crate::receiver::input::MeterReading;
use crate::receiver::labels;
use crate::receiver::labels::{DeviceLabels, RenameError};
use crate::receiver::transport;
use crate::receiver::transport::{is_control, GatewayTransport, Report};
use crate::text;
use crate::text::{chars_of, same_text, trim};

verus! {

/// How much of the recent past the charts can draw, in seconds.
pub const HISTORY_WINDOW_SECS: u64 = 60;

/// Samples kept for that window.
pub const HISTORY_CAPACITY: usize = 600;

/// The longest name that a device can be given.
pub const MAX_NAME_LEN: usize = 80;

/// What the receiver knows, as plain values.
#[verifier::ext_equal]
pub struct Meter {
    /// Device ids and the names given to them.
    pub names: Seq<(Seq<char>, Seq<char>)>,
    pub appliances: Seq<StoredAppliance>,
    pub catalog: Seq<Device>,
    pub active: Seq<Device>,
    pub latest: Option<MeterReading>,
    /// The latest reading that was no keepalive, from which changes are
    /// measured.
    pub last_settled: Option<MeterReading>,
    pub received: nat,
    pub last_received_at: Option<Timestamp>,
    pub last_change: Option<(DeviceChange, Timestamp)>,
    pub history: Seq<HistoryEntry<MeterReading>>,
    pub transport: Report,
    /// Whether readings are archived, and how many have been.
    pub persistent: bool,
    pub stored: nat,
}

/// No two devices have the same id.
pub open spec fn distinct(devices: Seq<Device>) -> bool {
    forall|i: int, j: int|
        0 <= i < j < devices.len() ==> (#[trigger] devices[i]).id@ != (#[trigger] devices[j]).id@
}

/// The number of devices before the first one with an id.
pub open spec fn place_of(devices: Seq<Device>, id: Seq<char>) -> nat
    decreases devices.len(),
{
    if devices.len() == 0 || devices[0].id@ == id {
        0
    } else {
        1 + place_of(devices.drop_first(), id)
    }
}

proof fn lemma_place(devices: Seq<Device>, id: Seq<char>, place: nat)
    requires
        place <= devices.len(),
        forall|i: int| 0 <= i < place ==> (#[trigger] devices[i]).id@ != id,
        place < devices.len() ==> devices[place as int].id@ == id,
    ensures
        place_of(devices, id) == place,
        decision::has_device(devices, id) == (place < devices.len()),
    decreases devices.len(),
{
    if place > 0 {
        let rest = devices.drop_first();
        assert forall|i: int| 0 <= i < place - 1 implies (#[trigger] rest[i]).id@ != id by {
            assert(rest[i] == devices[i + 1]);
        }
        lemma_place(rest, id, (place - 1) as nat);
    }
}

/// The catalog with one learned device in it: what was known under its id is
/// replaced.
pub open spec fn with_learned(catalog: Seq<Device>, device: Device) -> Seq<Device> {
    if decision::has_device(catalog, device.id@) {
        catalog.update(place_of(catalog, device.id@) as int, device)
    } else {
        catalog.push(device)
    }
}

/// The catalog with every learned device in it.
pub open spec fn with_all_learned(catalog: Seq<Device>, learned: Seq<Device>) -> Seq<Device>
    decreases learned.len(),
{
    if learned.len() == 0 {
        catalog
    } else {
        with_learned(with_all_learned(catalog, learned.drop_last()), learned.last())
    }
}

/// The devices without the one that has an id.
pub open spec fn without(devices: Seq<Device>, id: Seq<char>) -> Seq<Device>
    decreases devices.len(),
{
    if devices.len() == 0 {
        Seq::empty()
    } else {
        let earlier = without(devices.drop_last(), id);
        if devices.last().id@ == id {
            earlier
        } else {
            earlier.push(devices.last())
        }
    }
}

/// The devices with one more, unless its id is there already.
pub open spec fn with_device(devices: Seq<Device>, device: Device) -> Seq<Device> {
    if decision::has_device(devices, device.id@) {
        devices
    } else {
        devices.push(device)
    }
}

impl Meter {
    /// The change that a reading stands for, and the method after it.  A
    /// keepalive stands for none, the method does not see it, and no later
    /// change is measured from it.
    pub open spec fn decided<M: DecisionMethod>(self, method: M, reading: MeterReading) -> (
        M,
        DeviceChange,
    ) {
        if reading.heartbeat {
            (method, DeviceChange::Unchanged)
        } else {
            method.decision(self.last_settled, reading, self.catalog, self.active)
        }
    }

    /// The state after a reading that was found to stand for a change.
    pub open spec fn after_change(
        self,
        reading: MeterReading,
        change: DeviceChange,
        learned: Seq<Device>,
        profiles: Seq<StoredAppliance>,
        at: Timestamp,
    ) -> Meter {
        let catalog = with_all_learned(self.catalog, learned);
        Meter {
            appliances: if profiles.len() > 0 {
                profiles
            } else {
                self.appliances
            },
            catalog: match change {
                DeviceChange::Added(device) => with_device(catalog, device),
                _ => catalog,
            },
            active: match change {
                DeviceChange::Added(device) => with_device(self.active, device),
                DeviceChange::Removed(device) => without(self.active, device.id@),
                DeviceChange::Unchanged => self.active,
            },
            latest: Some(reading),
            last_settled: if reading.heartbeat {
                self.last_settled
            } else {
                Some(reading)
            },
            received: self.received + 1,
            last_received_at: Some(at),
            last_change: if change is Unchanged {
                self.last_change
            } else {
                Some((change, at))
            },
            history: history::newest(
                self.history.push(HistoryEntry { timestamp: at, data: reading }),
                Some(HISTORY_CAPACITY),
            ),
            stored: self.stored + 1,
            ..self
        }
    }

    /// The state after a reading.
    pub open spec fn after_reading<M: DecisionMethod>(
        self,
        method: M,
        reading: MeterReading,
        at: Timestamp,
    ) -> Meter {
        let (method, change) = self.decided(method, reading);
        self.after_change(reading, change, method.learned(), method.profiles(), at)
    }

    /// The readings of the minute that ends with the newest one.
    pub open spec fn recent(self) -> Seq<HistoryEntry<MeterReading>> {
        if self.history.len() == 0 {
            self.history
        } else {
            self.history.skip(
                history::older(
                    self.history,
                    self.history.last().timestamp.minute_before(),
                ) as int,
            )
        }
    }

    /// The state after a report about the link.  A report that says nothing
    /// leaves the previous one in place.
    pub open spec fn after_report(self, report: Report) -> Meter {
        if report == transport::no_report() {
            self
        } else {
            Meter { transport: report, ..self }
        }
    }
}

/// A name that a device can be given.
pub open spec fn valid_name(name: Seq<char>) -> bool {
    &&& 0 < name.len() <= MAX_NAME_LEN
    &&& forall|i: int| 0 <= i < name.len() ==> !transport::control(#[trigger] name[i])
}

/// What renaming a device asks for: the name without the space around it, or
/// what is wrong.
pub open spec fn rename_request(catalog: Seq<Device>, id: Seq<char>, name: Seq<char>) -> Result<
    Seq<char>,
    RenameError,
> {
    let trimmed = text::trimmed(name);
    if !valid_name(trimmed) {
        Err(RenameError::InvalidName)
    } else if !decision::has_device(catalog, id) {
        Err(RenameError::NotFound)
    } else {
        Ok(trimmed)
    }
}

/// A rename that has to be saved before it takes effect.
pub struct PendingRename {
    /// The labels to save.
    pub labels: DeviceLabels,
    /// The name as it will be.
    pub name: String,
}

pub struct MeterState {
    labels: DeviceLabels,
    catalog: Vec<Device>,
    active_devices: Vec<Device>,
    latest_reading: Option<MeterReading>,
    last_settled: Option<MeterReading>,
    readings_received: u64,
    last_received_at: Option<Timestamp>,
    last_change: Option<(DeviceChange, Timestamp)>,
    history: History<MeterReading>,
    /// What the gateway last reported about the link it delivers over.
    transport: GatewayTransport,
    persistent: bool,
    stored: u64,
    forecast: Option<ForecastSeries>,
}

impl View for MeterState {
    type V = Meter;

    closed spec fn view(&self) -> Meter {
        Meter {
            names: labels::name_texts(self.labels.names@),
            appliances: self.labels.appliances@,
            catalog: self.catalog@,
            active: self.active_devices@,
            latest: self.latest_reading,
            last_settled: self.last_settled,
            received: self.readings_received as nat,
            last_received_at: self.last_received_at,
            last_change: self.last_change,
            history: self.history@,
            transport: self.transport@,
            persistent: self.persistent,
            stored: self.stored as nat,
        }
    }
}

/// An owned, consistent copy of the state.
pub struct MeterSnapshot {
    pub device_names: DeviceLabels,
    pub catalog: Vec<Device>,
    pub active_devices: Vec<Device>,
    pub total_power_watts: Option<Binary32>,
    pub latest_reading: Option<MeterReading>,
    pub readings_received: u64,
    pub last_received_at: Option<Timestamp>,
    pub last_change: Option<(DeviceChange, Timestamp)>,
    pub transport: GatewayTransport,
}

impl MeterSnapshot {
    /// The copy agrees with the state.
    pub open spec fn copies(&self, meter: Meter) -> bool {
        &&& labels::name_texts(self.device_names.names@) == meter.names
        &&& self.catalog@ == meter.catalog
        &&& self.active_devices@ == meter.active
        &&& self.total_power_watts == decision::total_of(meter.latest)
        &&& self.latest_reading == meter.latest
        &&& self.readings_received == meter.received
        &&& self.last_received_at == meter.last_received_at
        &&& self.last_change == meter.last_change
        &&& self.transport@ == meter.transport
    }

    /// The times in the copy are in the calendar.
    pub open spec fn wf(&self) -> bool {
        &&& self.last_received_at matches Some(at) ==> at.wf()
        &&& self.last_change matches Some((_, at)) ==> at.wf()
    }
}

fn copy_devices(devices: &Vec<Device>) -> (copy: Vec<Device>)
    ensures
        copy@ == devices@,
{
    let mut copy: Vec<Device> = Vec::new();
    let mut at: usize = 0;
    while at < devices.len()
        invariant
            at <= devices@.len(),
            copy@ == devices@.take(at as int),
        decreases devices@.len() - at,
    {
        copy.push(devices[at]);
        at = at + 1;
        assert(devices@.take(at as int) =~= devices@.take(at - 1).push(devices@[at - 1]));
    }
    assert(devices@.take(at as int) =~= devices@);
    copy
}

fn copy_names(source: &Vec<(String, String)>) -> (copy: Vec<(String, String)>)
    ensures
        labels::name_texts(copy@) == labels::name_texts(source@),
{
    let mut copy: Vec<(String, String)> = Vec::new();
    let mut at: usize = 0;
    let ghost all = labels::name_texts(source@);
    assert(labels::name_texts(copy@) =~= all.take(0));
    while at < source.len()
        invariant
            at <= source@.len(),
            all == labels::name_texts(source@),
            labels::name_texts(copy@) == all.take(at as int),
        decreases source@.len() - at,
    {
        let ghost before = copy@;
        let entry: (String, String) = (source[at].0.clone(), source[at].1.clone());
        copy.push(entry);
        at = at + 1;
        assert(labels::name_texts(copy@) =~= labels::name_texts(before).push(
            (entry.0@, entry.1@),
        ));
        assert(all.take(at as int) =~= all.take(at - 1).push(all[at - 1]));
    }
    assert(all.take(at as int) =~= all);
    copy
}

fn copy_appliances(source: &Vec<StoredAppliance>) -> (copy: Vec<StoredAppliance>)
    ensures
        copy@ == source@,
{
    let mut copy: Vec<StoredAppliance> = Vec::new();
    let mut at: usize = 0;
    while at < source.len()
        invariant
            at <= source@.len(),
            copy@ == source@.take(at as int),
        decreases source@.len() - at,
    {
        copy.push(source[at]);
        at = at + 1;
        assert(source@.take(at as int) =~= source@.take(at - 1).push(source@[at - 1]));
    }
    assert(source@.take(at as int) =~= source@);
    copy
}

fn find_place(devices: &Vec<Device>, id: &str) -> (place: usize)
    ensures
        place == place_of(devices@, id@),
        place <= devices@.len(),
        decision::has_device(devices@, id@) == (place < devices@.len()),
{
    let mut place: usize = 0;
    while place < devices.len() && !same_text(devices[place].id, id)
        invariant
            place <= devices@.len(),
            forall|i: int| 0 <= i < place ==> (#[trigger] devices@[i]).id@ != id@,
        decreases devices@.len() - place,
    {
        place = place + 1;
    }
    proof {
        lemma_place(devices@, id@, place as nat);
    }
    place
}

fn learn(catalog: &mut Vec<Device>, learned: &Vec<Device>)
    ensures
        final(catalog)@ == with_all_learned(old(catalog)@, learned@),
{
    let ghost before = catalog@;
    let mut at: usize = 0;
    assert(learned@.take(0) =~= Seq::<Device>::empty());
    while at < learned.len()
        invariant
            at <= learned@.len(),
            catalog@ == with_all_learned(before, learned@.take(at as int)),
        decreases learned@.len() - at,
    {
        assert(learned@.take(at + 1).drop_last() =~= learned@.take(at as int));
        let device: Device = learned[at];
        let place: usize = find_place(catalog, device.id);
        if place < catalog.len() {
            catalog.set(place, device);
        } else {
            catalog.push(device);
        }
        at = at + 1;
    }
    assert(learned@.take(at as int) =~= learned@);
}

fn remove_device(devices: &Vec<Device>, id: &str) -> (rest: Vec<Device>)
    ensures
        rest@ == without(devices@, id@),
{
    let mut rest: Vec<Device> = Vec::new();
    let mut at: usize = 0;
    assert(rest@ =~= without(devices@.take(0), id@));
    while at < devices.len()
        invariant
            at <= devices@.len(),
            rest@ == without(devices@.take(at as int), id@),
        decreases devices@.len() - at,
    {
        assert(devices@.take(at + 1).drop_last() =~= devices@.take(at as int));
        if !same_text(devices[at].id, id) {
            rest.push(devices[at]);
        }
        at = at + 1;
    }
    assert(devices@.take(at as int) =~= devices@);
    rest
}

/// Taking a device out of distinct ones leaves distinct ones.
proof fn lemma_without(devices: Seq<Device>, id: Seq<char>)
    ensures
        distinct(devices) ==> distinct(without(devices, id)),
        !decision::has_device(without(devices, id), id),
        forall|other: Seq<char>| #[trigger]
            decision::has_device(without(devices, id), other) ==> decision::has_device(
                devices,
                other,
            ),
    decreases devices.len(),
{
    if devices.len() > 0 {
        let fewer = devices.drop_last();
        let earlier = without(fewer, id);
        let rest = without(devices, id);
        lemma_without(fewer, id);
        assert(forall|i: int| 0 <= i < fewer.len() ==> fewer[i] == #[trigger] devices[i]);
        assert(devices.last() == devices[devices.len() - 1]);
        if distinct(devices) {
            assert(distinct(fewer));
        }
        assert forall|other: Seq<char>| #[trigger] decision::has_device(rest, other) implies
            decision::has_device(devices, other) by {
            let i = choose|i: int| 0 <= i < rest.len() && (#[trigger] rest[i]).id@ == other;
            if i < earlier.len() {
                assert(earlier[i].id@ == other);
                assert(decision::has_device(earlier, other));
                let j = choose|j: int| 0 <= j < fewer.len() && (#[trigger] fewer[j]).id@ == other;
                assert(devices[j].id@ == other);
            }
        }
        if decision::has_device(rest, id) {
            let i = choose|i: int| 0 <= i < rest.len() && (#[trigger] rest[i]).id@ == id;
            if i < earlier.len() {
                assert(earlier[i].id@ == id);
            }
            assert(false);
        }
        if distinct(devices) && devices.last().id@ != id {
            assert forall|i: int, j: int| 0 <= i < j < rest.len() implies (#[trigger] rest[i]).id@
                != (#[trigger] rest[j]).id@ by {
                if j == earlier.len() {
                    assert(earlier[i].id@ == rest[i].id@);
                    assert(decision::has_device(earlier, rest[i].id@));
                    let k = choose|k: int|
                        0 <= k < fewer.len() && (#[trigger] fewer[k]).id@ == rest[i].id@;
                    assert(devices[k].id@ != devices[devices.len() - 1].id@);
                } else {
                    assert(rest[i] == earlier[i]);
                    assert(rest[j] == earlier[j]);
                }
            }
        }
    } else {
        assert(!decision::has_device(without(devices, id), id));
    }
}

/// Whatever a reading stands for, no device is active twice; the device that
/// was added is active and in the catalog, and the one that was removed is not
/// active any more.
pub proof fn lemma_active_devices_stay_distinct(
    meter: Meter,
    reading: MeterReading,
    change: DeviceChange,
    learned: Seq<Device>,
    profiles: Seq<StoredAppliance>,
    at: Timestamp,
)
    requires
        distinct(meter.active),
    ensures
        distinct(meter.after_change(reading, change, learned, profiles, at).active),
        change matches DeviceChange::Added(device) ==> {
            let after = meter.after_change(reading, change, learned, profiles, at);
            &&& decision::has_device(after.active, device.id@)
            &&& decision::has_device(after.catalog, device.id@)
        },
        change matches DeviceChange::Removed(device) ==> !decision::has_device(
            meter.after_change(reading, change, learned, profiles, at).active,
            device.id@,
        ),
{
    let after = meter.after_change(reading, change, learned, profiles, at);
    match change {
        DeviceChange::Added(device) => {
            if !decision::has_device(meter.active, device.id@) {
                assert(after.active[meter.active.len() as int] == device);
                assert forall|i: int, j: int| 0 <= i < j < after.active.len() implies (
                #[trigger] after.active[i]).id@ != (#[trigger] after.active[j]).id@ by {
                    if j == meter.active.len() {
                        assert(meter.active[i].id@ != device.id@);
                    }
                }
            }
            let catalog = with_all_learned(meter.catalog, learned);
            if !decision::has_device(catalog, device.id@) {
                assert(after.catalog[catalog.len() as int] == device);
            }
        },
        DeviceChange::Removed(device) => {
            lemma_without(meter.active, device.id@);
        },
        DeviceChange::Unchanged => {},
    }
}

/// A keepalive is counted and kept like any reading, but no method sees it and
/// no device comes or goes; the catalog gains no more than what was learned
/// before.
pub proof fn lemma_keepalives_infer_nothing<M: DecisionMethod>(
    meter: Meter,
    method: M,
    reading: MeterReading,
    at: Timestamp,
)
    requires
        reading.heartbeat,
    ensures
        meter.decided(method, reading) == (method, DeviceChange::Unchanged),
        ({
            let after = meter.after_reading(method, reading, at);
            &&& after.active == meter.active
            &&& after.catalog == with_all_learned(meter.catalog, method.learned())
            &&& after.last_change == meter.last_change
            &&& after.last_settled == meter.last_settled
            &&& after.latest == Some(reading)
            &&& after.received == meter.received + 1
        }),
{
}

/// The charts never hold more than their capacity, and what they hold is the
/// newest of what they held and the reading just accepted.
pub proof fn lemma_history_is_bounded(
    meter: Meter,
    reading: MeterReading,
    change: DeviceChange,
    learned: Seq<Device>,
    profiles: Seq<StoredAppliance>,
    at: Timestamp,
)
    requires
        meter.history.len() <= HISTORY_CAPACITY,
    ensures
        ({
            let after = meter.after_change(reading, change, learned, profiles, at);
            &&& 0 < after.history.len() <= HISTORY_CAPACITY
            &&& after.history.last() == (HistoryEntry { timestamp: at, data: reading })
            &&& after.history.drop_last() == meter.history || after.history.drop_last()
                == meter.history.drop_first()
        }),
{
    let after = meter.after_change(reading, change, learned, profiles, at);
    if meter.history.len() < HISTORY_CAPACITY {
        assert(after.history.drop_last() =~= meter.history);
    } else {
        assert(after.history.drop_last() =~= meter.history.drop_first());
    }
}

impl MeterState {
    pub closed spec fn wf(&self) -> bool {
        &&& self.history.wf()
        &&& self.history.bound() == Some(HISTORY_CAPACITY)
        &&& distinct(self.active_devices@)
        &&& self.last_received_at matches Some(at) ==> at.wf()
        &&& self.last_change matches Some((_, at)) ==> at.wf()
        &&& forall|i: int|
            0 <= i < self.history@.len() ==> (#[trigger] self.history@[i]).timestamp.wf()
    }

    /// The forecast that was last handed in.
    pub closed spec fn forecasted(&self) -> Option<ForecastSeries> {
        self.forecast
    }

    /// The state of a receiver that has seen nothing.
    pub open spec fn fresh(self, catalog: Seq<Device>) -> bool {
        &&& self@.catalog == catalog
        &&& self@.active == Seq::<Device>::empty()
        &&& self@.latest is None
        &&& self@.last_settled is None
        &&& self@.received == 0
        &&& self@.last_received_at is None
        &&& self@.last_change is None
        &&& self@.history == Seq::<HistoryEntry<MeterReading>>::empty()
        &&& self@.transport == transport::no_report()
        &&& !self@.persistent
        &&& self@.stored == 0
        &&& self.forecasted() is None
    }

    pub fn new(catalog: Vec<Device>) -> (state: MeterState)
        ensures
            state.wf(),
            state.fresh(catalog@),
            state@.names == Seq::<(Seq<char>, Seq<char>)>::empty(),
            state@.appliances == Seq::<StoredAppliance>::empty(),
    {
        let state: MeterState = MeterState::with_labels(catalog, DeviceLabels::default());
        assert(state@.names =~= Seq::<(Seq<char>, Seq<char>)>::empty());
        assert(state@.appliances =~= Seq::<StoredAppliance>::empty());
        state
    }

    pub fn with_labels(catalog: Vec<Device>, labels: DeviceLabels) -> (state: MeterState)
        ensures
            state.wf(),
            state.fresh(catalog@),
            state@.names == labels::name_texts(labels.names@),
            state@.appliances == labels.appliances@,
    {
        MeterState {
            labels,
            catalog,
            active_devices: Vec::new(),
            latest_reading: None,
            last_settled: None,
            readings_received: 0,
            last_received_at: None,
            last_change: None,
            history: History::bounded(HISTORY_CAPACITY),
            transport: GatewayTransport::default(),
            persistent: false,
            stored: 0,
            forecast: None,
        }
    }

    /// Takes over what the archive holds, oldest first, for the charts alone:
    /// saved readings are not replayed into live state.  Where a row cannot be
    /// read, nothing changes.
    pub fn restore_history(&mut self, rows: &Vec<StoredRow>) -> (result: Result<u64, ArchiveError>)
        requires
            old(self).wf(),
        ensures
            final(self).wf(),
            final(self).forecasted() == old(self).forecasted(),
            match result {
                Ok(count) => {
                    &&& count == rows@.len()
                    &&& archive::all_restored(rows@) matches Ok(entries)
                    &&& final(self)@ == (Meter {
                        history: archive::pushed(
                            old(self)@.history,
                            Some(HISTORY_CAPACITY),
                            entries,
                        ),
                        persistent: true,
                        stored: rows@.len(),
                        ..old(self)@
                    })
                },
                Err(error) => {
                    &&& archive::all_restored(rows@) == Err::<
                        Seq<HistoryEntry<MeterReading>>,
                        ArchiveError,
                    >(error)
                    &&& final(self)@ == old(self)@
                },
            },
    {
        match load_cache(rows, &mut self.history) {
            Ok(count) => {
                self.persistent = true;
                self.stored = count;
                Ok(count)
            },
            Err(error) => Err(error),
        }
    }

    /// Checks a rename, and prepares the labels that have to be saved for it.
    pub fn prepare_rename(&self, id: &str, name: &str) -> (result: Result<
        PendingRename,
        RenameError,
    >)
        ensures
            match result {
                Ok(pending) => {
                    &&& rename_request(self@.catalog, id@, name@) == Ok::<Seq<char>, RenameError>(
                        pending.name@,
                    )
                    &&& labels::name_texts(pending.labels.names@) == labels::renamed(
                        self@.names,
                        id@,
                        pending.name@,
                    )
                    &&& pending.labels.appliances@ == self@.appliances
                },
                Err(error) => rename_request(self@.catalog, id@, name@) == Err::<
                    Seq<char>,
                    RenameError,
                >(error),
            },
    {
        let trimmed: String = trim(name);
        let chars: Vec<char> = chars_of(trimmed.as_str());
        if chars.len() == 0 || chars.len() > MAX_NAME_LEN {
            return Err(RenameError::InvalidName);
        }
        let mut at: usize = 0;
        while at < chars.len()
            invariant
                at <= chars@.len(),
                chars@ == trimmed@,
                trimmed@ == text::trimmed(name@),
                forall|i: int| 0 <= i < at ==> !transport::control(#[trigger] chars@[i]),
            decreases chars@.len() - at,
        {
            if is_control(chars[at]) {
                assert(transport::control(text::trimmed(name@)[at as int]));
                return Err(RenameError::InvalidName);
            }
            at = at + 1;
        }
        assert(valid_name(trimmed@));
        if !contains_device(&self.catalog, id) {
            return Err(RenameError::NotFound);
        }
        let labels: DeviceLabels = self.labels.with_name(id, trimmed.as_str());
        Ok(PendingRename { labels, name: trimmed })
    }

    /// Lets a rename take effect once its labels are saved; if they could not be
    /// saved, the previous labels stay.
    pub fn finish_rename(&mut self, pending: PendingRename, saved: bool) -> (result: Result<
        String,
        RenameError,
    >)
        requires
            old(self).wf(),
        ensures
            final(self).wf(),
            final(self).forecasted() == old(self).forecasted(),
            match result {
                Ok(name) => {
                    &&& saved
                    &&& name@ == pending.name@
                    &&& final(self)@ == (Meter {
                        names: labels::name_texts(pending.labels.names@),
                        appliances: pending.labels.appliances@,
                        ..old(self)@
                    })
                },
                Err(error) => {
                    &&& !saved
                    &&& error == RenameError::Unavailable
                    &&& final(self)@ == old(self)@
                },
            },
    {
        if !saved {
            return Err(RenameError::Unavailable);
        }
        self.labels = pending.labels;
        Ok(pending.name)
    }

    /// Records what the gateway reported about its link.
    pub fn record_transport(&mut self, reported: GatewayTransport)
        requires
            old(self).wf(),
        ensures
            final(self).wf(),
            final(self)@ == old(self)@.after_report(reported@),
            final(self).forecasted() == old(self).forecasted(),
    {
        if !reported.is_empty() {
            self.transport = reported;
        }
    }

    /// The latest recorded minute.
    pub fn recent_history(&self) -> (entries: &[HistoryEntry<MeterReading>])
        requires
            self.wf(),
        ensures
            entries@ == self@.recent(),
            forall|i: int| 0 <= i < entries@.len() ==> (#[trigger] entries@[i]).timestamp.wf(),
    {
        match self.history.latest() {
            Some(newest) => {
                let cutoff: Timestamp = newest.timestamp.a_minute_before();
                let entries: &[HistoryEntry<MeterReading>] = self.history.since(cutoff);
                proof {
                    let from = history::older(self.history@, cutoff) as int;
                    lemma_older_is_a_place(self.history@, cutoff);
                    assert forall|i: int| 0 <= i < entries@.len() implies (
                    #[trigger] entries@[i]).timestamp.wf() by {
                        assert(entries@[i] == self.history@[from + i]);
                    }
                }
                entries
            },
            None => self.history.all(),
        }
    }

    pub fn latest_power(&self) -> (power: Option<Binary32>)
        ensures
            power == decision::total_of(self@.latest),
    {
        match self.latest_reading {
            Some(reading) => Some(reading.total_power),
            None => None,
        }
    }

    pub fn history_is_persistent(&self) -> (persistent: bool)
        ensures
            persistent == self@.persistent,
    {
        self.persistent
    }

    pub fn stored_readings(&self) -> (stored: u64)
        ensures
            stored == self@.stored,
    {
        self.stored
    }

    /// Takes over a forecast.
    pub fn update_forecast(&mut self, forecast: ForecastSeries)
        requires
            old(self).wf(),
        ensures
            final(self).wf(),
            final(self)@ == old(self)@,
            final(self).forecasted() == Some(forecast),
    {
        self.forecast = Some(forecast);
    }

    pub fn latest_forecast(&self) -> (forecast: Option<&ForecastSeries>)
        ensures
            match forecast {
                Some(forecast) => self.forecasted() == Some(*forecast),
                None => self.forecasted() is None,
            },
    {
        match &self.forecast {
            Some(forecast) => Some(forecast),
            None => None,
        }
    }

    /// A copy of the state for a reader.
    pub fn snapshot(&self) -> (snapshot: MeterSnapshot)
        requires
            self.wf(),
        ensures
            snapshot.wf(),
            snapshot.copies(self@),
    {
        MeterSnapshot {
            device_names: DeviceLabels {
                names: copy_names(&self.labels.names),
                appliances: copy_appliances(&self.labels.appliances),
            },
            catalog: copy_devices(&self.catalog),
            active_devices: copy_devices(&self.active_devices),
            total_power_watts: self.latest_power(),
            latest_reading: self.latest_reading,
            readings_received: self.readings_received,
            last_received_at: self.last_received_at,
            last_change: self.last_change,
            transport: self.transport.copy(),
        }
    }

    /// Accepts a reading that arrived at a time.
    pub fn apply_reading<M: DecisionMethod>(
        &mut self,
        reading: MeterReading,
        decision_method: &mut M,
        at: Timestamp,
    ) -> (change: DeviceChange)
        requires
            old(self).wf(),
            old(decision_method).ready(),
            at.wf(),
            old(self)@.received < u64::MAX,
            old(self)@.stored < u64::MAX,
        ensures
            final(self).wf(),
            final(decision_method).ready(),
            (*final(decision_method), change) == old(self)@.decided(*old(decision_method), reading),
            final(self)@ == old(self)@.after_reading(*old(decision_method), reading, at),
            final(self).forecasted() == old(self).forecasted(),
    {
        let ghost before = self@;
        // A keepalive may carry a level that is still settling, so no decision
        // is made from it, and no change is measured from it.
        let change: DeviceChange = if reading.heartbeat {
            DeviceChange::Unchanged
        } else {
            let previous: Option<&MeterReading> = match &self.last_settled {
                Some(previous) => Some(previous),
                None => None,
            };
            decision_method.decide_reading(
                previous,
                &reading,
                &self.catalog,
                &self.active_devices,
            )
        };
        let learned: Vec<Device> = decision_method.learned_devices();
        learn(&mut self.catalog, &learned);
        let profiles: Vec<StoredAppliance> = decision_method.learned_profiles();
        let ghost described = before.after_change(reading, change, learned@, profiles@, at);
        proof {
            lemma_active_devices_stay_distinct(before, reading, change, learned@, profiles@, at);
        }
        if profiles.len() > 0 {
            self.labels.appliances = profiles;
        }
        match change {
            DeviceChange::Added(device) => {
                if !contains_device(&self.catalog, device.id) {
                    self.catalog.push(device);
                }
                if !contains_device(&self.active_devices, device.id) {
                    self.active_devices.push(device);
                }
                self.last_change = Some((change, at));
            },
            DeviceChange::Removed(device) => {
                self.active_devices = remove_device(&self.active_devices, device.id);
                self.last_change = Some((change, at));
            },
            DeviceChange::Unchanged => {},
        }
        self.latest_reading = Some(reading);
        if !reading.heartbeat {
            self.last_settled = Some(reading);
        }
        self.history.push(reading, at);
        self.readings_received = self.readings_received + 1;
        self.stored = self.stored + 1;
        self.last_received_at = Some(at);
        assert(self@ =~= described);
        change
    }
}

/// A device that was learned, the last of those with an id.
pub open spec fn last_learned(learned: Seq<Device>, id: Seq<char>) -> Device
    recommends
        decision::has_device(learned, id),
    decreases learned.len(),
{
    if learned.len() == 0 || learned.last().id@ == id {
        learned.last()
    } else {
        last_learned(learned.drop_last(), id)
    }
}

/// The catalog shows every device as it was last learned.
pub open spec fn up_to_date(catalog: Seq<Device>, learned: Seq<Device>) -> bool {
    forall|id: Seq<char>| #[trigger]
        decision::has_device(learned, id) ==> decision::has_device(catalog, id) && catalog[place_of(
            catalog,
            id,
        ) as int] == last_learned(learned, id)
}

/// A place in front of which no device has the id, and at which one has, is the
/// place of the id.
proof fn lemma_place_is_found(devices: Seq<Device>, id: Seq<char>)
    ensures
        place_of(devices, id) <= devices.len(),
        decision::has_device(devices, id) == (place_of(devices, id) < devices.len()),
        forall|i: int| 0 <= i < place_of(devices, id) ==> (#[trigger] devices[i]).id@ != id,
        place_of(devices, id) < devices.len() ==> devices[place_of(devices, id) as int].id@ == id,
    decreases devices.len(),
{
    if devices.len() > 0 && devices[0].id@ != id {
        let rest = devices.drop_first();
        lemma_place_is_found(rest, id);
        let place = 1 + place_of(rest, id);
        assert forall|i: int| 0 <= i < place implies (#[trigger] devices[i]).id@ != id by {
            if i > 0 {
                assert(rest[i - 1] == devices[i]);
            }
        }
        if place < devices.len() {
            assert(rest[place - 1] == devices[place as int]);
        }
        lemma_place(devices, id, place);
    } else if devices.len() > 0 {
        lemma_place(devices, id, 0);
    } else {
        lemma_place(devices, id, 0);
    }
}

/// Learning one device leaves every other in place.
proof fn lemma_learning_one(catalog: Seq<Device>, device: Device, id: Seq<char>)
    ensures
        decision::has_device(with_learned(catalog, device), id) == (decision::has_device(
            catalog,
            id,
        ) || device.id@ == id),
        decision::has_device(catalog, id) ==> place_of(with_learned(catalog, device), id)
            == place_of(catalog, id),
        decision::has_device(with_learned(catalog, device), id) ==> with_learned(catalog, device)[
        place_of(with_learned(catalog, device), id) as int] == if device.id@ == id {
            device
        } else {
            catalog[place_of(catalog, id) as int]
        },
{
    let after = with_learned(catalog, device);
    lemma_place_is_found(catalog, id);
    lemma_place_is_found(catalog, device.id@);
    let place = place_of(catalog, id);
    if decision::has_device(catalog, device.id@) {
        let at = place_of(catalog, device.id@) as int;
        assert(after[at] == device);
        assert forall|i: int| 0 <= i < place implies (#[trigger] after[i]).id@ != id by {
            assert(catalog[i].id@ != id);
        }
        lemma_place(after, id, place);
    } else {
        assert forall|i: int| 0 <= i < place implies (#[trigger] after[i]).id@ != id by {
            assert(catalog[i].id@ != id);
        }
        if place < catalog.len() || device.id@ == id {
            lemma_place(after, id, place);
        } else {
            lemma_place(after, id, (place + 1) as nat);
        }
    }
}

/// Having learned brings the catalog up to date.
proof fn lemma_learning_brings_up_to_date(catalog: Seq<Device>, learned: Seq<Device>)
    ensures
        up_to_date(with_all_learned(catalog, learned), learned),
    decreases learned.len(),
{
    let after = with_all_learned(catalog, learned);
    if learned.len() > 0 {
        let fewer = learned.drop_last();
        let before = with_all_learned(catalog, fewer);
        lemma_learning_brings_up_to_date(catalog, fewer);
        assert forall|id: Seq<char>| #[trigger] decision::has_device(learned, id) implies
            decision::has_device(after, id) && after[place_of(after, id) as int] == last_learned(
            learned,
            id,
        ) by {
            lemma_learning_one(before, learned.last(), id);
            if learned.last().id@ != id {
                lemma_place_is_found(learned, id);
                let place = place_of(learned, id) as int;
                assert(fewer[place] == learned[place]);
                assert(decision::has_device(fewer, id));
            }
        }
    }
}

/// Devices with the same ids have them in the same places.
proof fn lemma_places_go_by_ids(devices: Seq<Device>, others: Seq<Device>, id: Seq<char>)
    requires
        devices.len() == others.len(),
        forall|i: int|
            0 <= i < devices.len() ==> (#[trigger] devices[i]).id@ == others[i].id@,
    ensures
        place_of(devices, id) == place_of(others, id),
        decision::has_device(devices, id) == decision::has_device(others, id),
{
    lemma_place_is_found(others, id);
    let place = place_of(others, id);
    assert forall|i: int| 0 <= i < place implies (#[trigger] devices[i]).id@ != id by {
        assert(others[i].id@ != id);
    }
    lemma_place(devices, id, place);
}

/// Learning devices that are all known changes at most the places they have, to
/// what each was last learned as.
proof fn lemma_learning_known_devices(catalog: Seq<Device>, learned: Seq<Device>)
    requires
        forall|id: Seq<char>| #[trigger]
            decision::has_device(learned, id) ==> decision::has_device(catalog, id),
    ensures
        with_all_learned(catalog, learned).len() == catalog.len(),
        forall|i: int|
            0 <= i < catalog.len() ==> (#[trigger] with_all_learned(catalog, learned)[i]).id@
                == catalog[i].id@,
        forall|i: int|
            0 <= i < catalog.len() ==> (#[trigger] with_all_learned(catalog, learned)[i]) == if {
                &&& decision::has_device(learned, catalog[i].id@)
                &&& i == place_of(catalog, catalog[i].id@)
            } {
                last_learned(learned, catalog[i].id@)
            } else {
                catalog[i]
            },
    decreases learned.len(),
{
    if learned.len() > 0 {
        let fewer = learned.drop_last();
        let last = learned.last();
        assert forall|id: Seq<char>| #[trigger] decision::has_device(fewer, id) implies
            decision::has_device(catalog, id) by {
            let i = choose|i: int| 0 <= i < fewer.len() && (#[trigger] fewer[i]).id@ == id;
            assert(learned[i].id@ == id);
            assert(decision::has_device(learned, id));
        }
        lemma_learning_known_devices(catalog, fewer);
        let before = with_all_learned(catalog, fewer);
        let after = with_all_learned(catalog, learned);
        assert(learned[learned.len() - 1] == last);
        assert(decision::has_device(learned, last.id@));
        lemma_places_go_by_ids(before, catalog, last.id@);
        lemma_place_is_found(before, last.id@);
        let place = place_of(catalog, last.id@) as int;
        assert(after == before.update(place, last));
        assert forall|i: int| 0 <= i < catalog.len() implies (#[trigger] after[i]) == if {
            &&& decision::has_device(learned, catalog[i].id@)
            &&& i == place_of(catalog, catalog[i].id@)
        } {
            last_learned(learned, catalog[i].id@)
        } else {
            catalog[i]
        } by {
            let id = catalog[i].id@;
            assert(before[i].id@ == id);
            if i != place && id != last.id@ {
                if decision::has_device(learned, id) {
                    let j = choose|j: int| 0 <= j < learned.len() && (#[trigger] learned[j]).id@
                        == id;
                    assert(fewer[j].id@ == id);
                    assert(decision::has_device(fewer, id));
                }
            }
        }
        assert forall|i: int| 0 <= i < catalog.len() implies (#[trigger] after[i]).id@
            == catalog[i].id@ by {
            assert(before[i].id@ == catalog[i].id@);
        }
    }
}

/// Learning the same again changes nothing.
proof fn lemma_learning_again_changes_nothing(catalog: Seq<Device>, learned: Seq<Device>)
    requires
        up_to_date(catalog, learned),
    ensures
        with_all_learned(catalog, learned) == catalog,
{
    lemma_learning_known_devices(catalog, learned);
    assert forall|i: int| 0 <= i < catalog.len() implies (#[trigger] with_all_learned(
        catalog,
        learned,
    )[i]) == catalog[i] by {
        let id = catalog[i].id@;
        if decision::has_device(learned, id) && i == place_of(catalog, id) {
            assert(catalog[place_of(catalog, id) as int] == last_learned(learned, id));
        }
    }
    assert(with_all_learned(catalog, learned) =~= catalog);
}

/// A new device does not put the catalog out of date.
proof fn lemma_adding_stays_up_to_date(catalog: Seq<Device>, learned: Seq<Device>, device: Device)
    requires
        up_to_date(catalog, learned),
    ensures
        up_to_date(with_device(catalog, device), learned),
{
    let after = with_device(catalog, device);
    assert forall|id: Seq<char>| #[trigger] decision::has_device(learned, id) implies
        decision::has_device(after, id) && after[place_of(after, id) as int] == last_learned(
        learned,
        id,
    ) by {
        lemma_place_is_found(catalog, id);
        let place = place_of(catalog, id);
        assert(decision::has_device(catalog, id));
        assert forall|i: int| 0 <= i < place implies (#[trigger] after[i]).id@ != id by {
            assert(catalog[i].id@ != id);
        }
        lemma_place(after, id, place);
    }
}

/// What a series of readings, each with the time it arrived, comes to: the state
/// and the method after it, and the change each reading stood for.
pub struct Course<M> {
    pub meter: Meter,
    pub method: M,
    pub changes: Seq<DeviceChange>,
}

/// What a series of readings comes to, one after another.
pub open spec fn course<M: DecisionMethod>(
    meter: Meter,
    method: M,
    readings: Seq<(MeterReading, Timestamp)>,
) -> Course<M>
    decreases readings.len(),
{
    if readings.len() == 0 {
        Course { meter, method, changes: Seq::empty() }
    } else {
        let earlier = course(meter, method, readings.drop_last());
        let (reading, at) = readings.last();
        let (next, change) = earlier.meter.decided(earlier.method, reading);
        Course {
            meter: earlier.meter.after_reading(earlier.method, reading, at),
            method: next,
            changes: earlier.changes.push(change),
        }
    }
}

/// The readings of a series that are no keepalives.
pub open spec fn settled_only(readings: Seq<(MeterReading, Timestamp)>) -> Seq<
    (MeterReading, Timestamp),
>
    decreases readings.len(),
{
    if readings.len() == 0 {
        Seq::empty()
    } else {
        let earlier = settled_only(readings.drop_last());
        if readings.last().0.heartbeat {
            earlier
        } else {
            earlier.push(readings.last())
        }
    }
}

/// The changes that the readings of a series other than keepalives stood for.
pub open spec fn settled_changes(
    readings: Seq<(MeterReading, Timestamp)>,
    changes: Seq<DeviceChange>,
) -> Seq<DeviceChange>
    decreases readings.len(),
{
    if readings.len() == 0 {
        Seq::empty()
    } else {
        let earlier = settled_changes(readings.drop_last(), changes.drop_last());
        if readings.last().0.heartbeat {
            earlier
        } else {
            earlier.push(changes.last())
        }
    }
}

/// Keepalives make no difference to what is inferred, wherever they stand: the
/// other readings stand for the changes they stand for without them, and the
/// method, the catalog and the active devices come out the same.  Each keepalive
/// stands for no change, and counts as received.
///
/// What the method has learned before has to be in the catalog, because a
/// keepalive would put it there.
pub proof fn lemma_keepalives_make_no_difference<M: DecisionMethod>(
    meter: Meter,
    method: M,
    readings: Seq<(MeterReading, Timestamp)>,
)
    requires
        up_to_date(meter.catalog, method.learned()),
    ensures
        ({
            let whole = course(meter, method, readings);
            let without = course(meter, method, settled_only(readings));
            &&& whole.changes.len() == readings.len()
            &&& settled_changes(readings, whole.changes) == without.changes
            &&& whole.method == without.method
            &&& whole.meter.catalog == without.meter.catalog
            &&& whole.meter.active == without.meter.active
            &&& whole.meter.last_settled == without.meter.last_settled
            &&& whole.meter.last_change == without.meter.last_change
            &&& whole.meter.received == meter.received + readings.len()
            &&& up_to_date(whole.meter.catalog, whole.method.learned())
        }),
        forall|i: int|
            0 <= i < readings.len() && (#[trigger] readings[i]).0.heartbeat ==> course(
                meter,
                method,
                readings,
            ).changes[i] == DeviceChange::Unchanged,
    decreases readings.len(),
{
    if readings.len() > 0 {
        let fewer = readings.drop_last();
        lemma_keepalives_make_no_difference(meter, method, fewer);
        let earlier = course(meter, method, fewer);
        let plain = course(meter, method, settled_only(fewer));
        let whole = course(meter, method, readings);
        let (reading, at) = readings.last();
        assert(whole.changes.drop_last() =~= earlier.changes);
        assert forall|i: int| 0 <= i < readings.len() && (#[trigger] readings[i]).0.heartbeat implies
            whole.changes[i] == DeviceChange::Unchanged by {
            if i < fewer.len() {
                assert(fewer[i] == readings[i]);
            }
        }
        if reading.heartbeat {
            lemma_learning_again_changes_nothing(earlier.meter.catalog, earlier.method.learned());
        } else {
            let settled = settled_only(fewer).push(readings.last());
            assert(settled.drop_last() =~= settled_only(fewer));
            let (next, change) = earlier.meter.decided(earlier.method, reading);
            assert((next, change) == plain.meter.decided(plain.method, reading));
            let catalog = with_all_learned(earlier.meter.catalog, next.learned());
            lemma_learning_brings_up_to_date(earlier.meter.catalog, next.learned());
            if let DeviceChange::Added(device) = change {
                lemma_adding_stays_up_to_date(catalog, next.learned(), device);
            }
        }
    }
}

impl Meter {
    /// No id is there twice, neither among the active devices nor in the catalog,
    /// and every active device is in the catalog.
    pub open spec fn consistent(self) -> bool {
        &&& distinct(self.active)
        &&& distinct(self.catalog)
        &&& forall|id: Seq<char>| #[trigger]
            decision::has_device(self.active, id) ==> decision::has_device(self.catalog, id)
    }
}

/// Learning keeps ids apart and forgets none.
proof fn lemma_learning_keeps_ids_apart(catalog: Seq<Device>, learned: Seq<Device>)
    ensures
        distinct(catalog) ==> distinct(with_all_learned(catalog, learned)),
        forall|id: Seq<char>| #[trigger]
            decision::has_device(catalog, id) ==> decision::has_device(
                with_all_learned(catalog, learned),
                id,
            ),
    decreases learned.len(),
{
    if learned.len() > 0 {
        let before = with_all_learned(catalog, learned.drop_last());
        let device = learned.last();
        lemma_learning_keeps_ids_apart(catalog, learned.drop_last());
        lemma_place_is_found(before, device.id@);
        assert forall|id: Seq<char>| #[trigger]
            decision::has_device(catalog, id) implies decision::has_device(
            with_all_learned(catalog, learned),
            id,
        ) by {
            lemma_learning_one(before, device, id);
        }
        if distinct(catalog) {
            lemma_one_more_stays_distinct(before, device);
            let after = with_learned(before, device);
            if decision::has_device(before, device.id@) {
                assert forall|i: int, j: int| 0 <= i < j < after.len() implies (
                #[trigger] after[i]).id@ != (#[trigger] after[j]).id@ by {
                    assert(before[i].id@ != before[j].id@);
                }
            }
        }
    }
}

proof fn lemma_one_more_stays_distinct(devices: Seq<Device>, device: Device)
    ensures
        distinct(devices) ==> distinct(with_device(devices, device)),
        decision::has_device(with_device(devices, device), device.id@),
        forall|id: Seq<char>| #[trigger]
            decision::has_device(with_device(devices, device), id) ==> decision::has_device(
                devices,
                id,
            ) || id == device.id@,
        forall|id: Seq<char>| #[trigger]
            decision::has_device(devices, id) ==> decision::has_device(
                with_device(devices, device),
                id,
            ),
{
    let after = with_device(devices, device);
    if !decision::has_device(devices, device.id@) {
        assert(after[devices.len() as int] == device);
        assert forall|id: Seq<char>| #[trigger] decision::has_device(devices, id) implies
            decision::has_device(after, id) by {
            let i = choose|i: int| 0 <= i < devices.len() && (#[trigger] devices[i]).id@ == id;
            assert(after[i].id@ == id);
        }
        assert forall|id: Seq<char>| #[trigger] decision::has_device(after, id) implies
            decision::has_device(devices, id) || id == device.id@ by {
            let i = choose|i: int| 0 <= i < after.len() && (#[trigger] after[i]).id@ == id;
            if i < devices.len() {
                assert(devices[i].id@ == id);
            }
        }
        if distinct(devices) {
            assert forall|i: int, j: int| 0 <= i < j < after.len() implies (
            #[trigger] after[i]).id@ != (#[trigger] after[j]).id@ by {
                assert(devices[i] == after[i]);
                if j < devices.len() {
                    assert(devices[j] == after[j]);
                }
            }
        }
    }
}

/// Whatever series of readings arrives, and whatever a method makes of it: no two
/// active devices and no two devices of the catalog ever share an id, and every
/// active device is in the catalog.
pub proof fn lemma_devices_stay_consistent<M: DecisionMethod>(
    meter: Meter,
    method: M,
    readings: Seq<(MeterReading, Timestamp)>,
)
    requires
        meter.consistent(),
    ensures
        course(meter, method, readings).meter.consistent(),
    decreases readings.len(),
{
    if readings.len() > 0 {
        lemma_devices_stay_consistent(meter, method, readings.drop_last());
        let earlier = course(meter, method, readings.drop_last());
        let (reading, at) = readings.last();
        let (next, change) = earlier.meter.decided(earlier.method, reading);
        let before = earlier.meter;
        let catalog = with_all_learned(before.catalog, next.learned());
        lemma_learning_keeps_ids_apart(before.catalog, next.learned());
        match change {
            DeviceChange::Added(device) => {
                lemma_one_more_stays_distinct(catalog, device);
                lemma_one_more_stays_distinct(before.active, device);
            },
            DeviceChange::Removed(device) => {
                lemma_without(before.active, device.id@);
            },
            DeviceChange::Unchanged => {},
        }
    }
}

impl MeterState {
    /// No two devices are active under the same id.
    pub proof fn lemma_active_devices_are_distinct(&self)
        requires
            self.wf(),
        ensures
            distinct(self@.active),
    {
    }

    /// A receiver that has seen nothing starts out consistent, given a catalog
    /// without repeated ids.
    pub proof fn lemma_fresh_state_is_consistent(&self, catalog: Seq<Device>)
        requires
            self.fresh(catalog),
            distinct(catalog),
        ensures
            self@.consistent(),
    {
    }
}

/// The charts show the latest recorded minute, however long ago that was: the
/// newest reading, and with times that never go back every reading from the
/// millisecond a minute before it.
pub proof fn lemma_the_latest_minute_is_shown(meter: Meter, index: int)
    requires
        forall|i: int, j: int|
            0 <= i < j < meter.history.len() ==> !(#[trigger] meter.history[j]).timestamp.earlier(
                (#[trigger] meter.history[i]).timestamp,
            ),
        0 <= index < meter.history.len(),
        meter.history.last().timestamp.wf(),
    ensures
        meter.recent().len() > 0,
        meter.recent().last() == meter.history.last(),
        meter.history[index].timestamp.earlier(meter.history.last().timestamp.minute_before())
            <==> index < meter.history.len() - meter.recent().len(),
{
    let cutoff = meter.history.last().timestamp.minute_before();
    history::lemma_recent_entries_are_the_newest(meter.history, cutoff, index);
    history::lemma_recent_entries_are_the_newest(meter.history, cutoff, meter.history.len() - 1);
}

proof fn lemma_older_is_a_place(entries: Seq<HistoryEntry<MeterReading>>, cutoff: Timestamp)
    ensures
        history::older(entries, cutoff) <= entries.len(),
    decreases entries.len(),
{
    if entries.len() > 0 {
        lemma_older_is_a_place(entries.drop_first(), cutoff);
    }
}

/// Tells the devices with another id.
pub open spec fn other_than(id: Seq<char>) -> spec_fn(Device) -> bool {
    |device: Device| device.id@ != id
}

proof fn lemma_without_is_a_filter(devices: Seq<Device>, id: Seq<char>)
    ensures
        without(devices, id) == devices.filter(other_than(id)),
    decreases devices.len(),
{
    reveal(Seq::filter);
    if devices.len() > 0 {
        lemma_without_is_a_filter(devices.drop_last(), id);
    }
}

/// Whatever a reading stands for, every other device keeps its state.  Removing
/// one leaves all active devices with another id, in the order they were in;
/// adding one puts it behind them, unless it is active already; and where nothing
/// changed, they are the same.
#[verifier::rlimit(40)]
pub proof fn lemma_a_change_moves_one_device(
    meter: Meter,
    reading: MeterReading,
    change: DeviceChange,
    learned: Seq<Device>,
    profiles: Seq<StoredAppliance>,
    at: Timestamp,
)
    ensures
        ({
            let after = meter.after_change(reading, change, learned, profiles, at);
            match change {
                DeviceChange::Removed(removed) => {
                    &&& after.active == meter.active.filter(other_than(removed.id@))
                    &&& forall|i: int|
                        0 <= i < meter.active.len() && (#[trigger] meter.active[i]).id@
                            != removed.id@ ==> after.active.contains(meter.active[i])
                    &&& forall|i: int|
                        0 <= i < after.active.len() ==> meter.active.contains(
                            #[trigger] after.active[i],
                        ) && after.active[i].id@ != removed.id@
                },
                DeviceChange::Added(added) => if mentions(meter.active, added.id@) {
                    after.active == meter.active
                } else {
                    &&& after.active.len() == meter.active.len() + 1
                    &&& after.active.last() == added
                    &&& forall|i: int|
                        0 <= i < meter.active.len() ==> #[trigger] after.active[i]
                            == meter.active[i]
                },
                DeviceChange::Unchanged => after.active == meter.active,
            }
        }),
{
    if let DeviceChange::Removed(removed) = change {
        let keep = other_than(removed.id@);
        let rest = meter.active.filter(keep);
        lemma_without_is_a_filter(meter.active, removed.id@);
        assert forall|i: int|
            0 <= i < meter.active.len() && (#[trigger] meter.active[i]).id@ != removed.id@ implies rest.contains(
            meter.active[i],
        ) by {
            lemma_kept(meter.active, keep, i);
        }
        assert forall|i: int| 0 <= i < rest.len() implies meter.active.contains(#[trigger] rest[i])
            && rest[i].id@ != removed.id@ by {
            lemma_kept_from(meter.active, keep, i);
        }
    }
}

proof fn lemma_kept(devices: Seq<Device>, keep: spec_fn(Device) -> bool, i: int)
    requires
        0 <= i < devices.len(),
        keep(devices[i]),
    ensures
        devices.filter(keep).contains(devices[i]),
    decreases devices.len(),
{
    reveal(Seq::filter);
    let fewer = devices.drop_last();
    let earlier = fewer.filter(keep);
    if i < fewer.len() {
        lemma_kept(fewer, keep, i);
        let j = choose|j: int| 0 <= j < earlier.len() && earlier[j] == devices[i];
        assert(devices.filter(keep)[j] == devices[i]);
    } else {
        assert(devices.filter(keep)[earlier.len() as int] == devices[i]);
    }
}

proof fn lemma_kept_from(devices: Seq<Device>, keep: spec_fn(Device) -> bool, i: int)
    requires
        0 <= i < devices.filter(keep).len(),
    ensures
        devices.contains(devices.filter(keep)[i]),
        keep(devices.filter(keep)[i]),
    decreases devices.len(),
{
    reveal(Seq::filter);
    if devices.len() > 0 {
        let fewer = devices.drop_last();
        let earlier = fewer.filter(keep);
        if i < earlier.len() {
            lemma_kept_from(fewer, keep, i);
            let j = choose|j: int| 0 <= j < fewer.len() && fewer[j] == earlier[i];
            assert(devices[j] == earlier[i]);
        } else {
            assert(devices[devices.len() - 1] == devices.last());
        }
    }
}

/// What a reading leaves behind apart from devices: it is the latest one, it is
/// counted, and its time is kept; a change is noted with its time, and only a
/// change; names and the state of the link stay.
pub proof fn lemma_a_reading_is_counted_and_kept(
    meter: Meter,
    reading: MeterReading,
    change: DeviceChange,
    learned: Seq<Device>,
    profiles: Seq<StoredAppliance>,
    at: Timestamp,
)
    ensures
        ({
            let after = meter.after_change(reading, change, learned, profiles, at);
            &&& after.latest == Some(reading)
            &&& after.received == meter.received + 1
            &&& after.stored == meter.stored + 1
            &&& after.last_received_at == Some(at)
            &&& change != DeviceChange::Unchanged ==> after.last_change == Some((change, at))
            &&& change == DeviceChange::Unchanged ==> after.last_change == meter.last_change
            &&& reading.heartbeat ==> after.last_settled == meter.last_settled
            &&& !reading.heartbeat ==> after.last_settled == Some(reading)
            &&& after.names == meter.names
            &&& after.transport == meter.transport
            &&& after.persistent == meter.persistent
            &&& profiles.len() == 0 ==> after.appliances == meter.appliances
            &&& profiles.len() > 0 ==> after.appliances == profiles
            &&& meter.history.len() < 600 ==> after.history == meter.history.push(
                HistoryEntry { timestamp: at, data: reading },
            )
            &&& meter.history.len() == 600 ==> after.history == meter.history.drop_first().push(
                HistoryEntry { timestamp: at, data: reading },
            )
        }),
{
    let after = meter.after_change(reading, change, learned, profiles, at);
    if meter.history.len() == 600 {
        assert(after.history =~= meter.history.drop_first().push(
            HistoryEntry { timestamp: at, data: reading },
        ));
    }
}

/// The method is asked about every reading that is no keepalive, with the last
/// such reading before it, the whole catalog and all active devices.
pub proof fn lemma_the_method_sees_the_last_settled_reading<M: DecisionMethod>(
    meter: Meter,
    method: M,
    readings: Seq<(MeterReading, Timestamp)>,
    reading: MeterReading,
    place: int,
)
    requires
        !reading.heartbeat,
        0 <= place < readings.len(),
        !readings[place].0.heartbeat,
        forall|i: int| place < i < readings.len() ==> (#[trigger] readings[i]).0.heartbeat,
    ensures
        ({
            let state = course(meter, method, readings);
            &&& state.meter.last_settled == Some(readings[place].0)
            &&& state.meter.latest == Some(readings.last().0)
            &&& state.meter.last_received_at == Some(readings.last().1)
            &&& state.meter.decided(state.method, reading) == state.method.decision(
                Some(readings[place].0),
                reading,
                state.meter.catalog,
                state.meter.active,
            )
        }),
    decreases readings.len(),
{
    let fewer = readings.drop_last();
    assert(readings.last() == readings[readings.len() - 1]);
    if place < fewer.len() {
        assert(forall|i: int| 0 <= i < fewer.len() ==> fewer[i] == #[trigger] readings[i]);
        lemma_the_method_sees_the_last_settled_reading(meter, method, fewer, reading, place);
    }
}

/// A device of the list has the id.
pub open spec fn mentions(devices: Seq<Device>, id: Seq<char>) -> bool {
    exists|i: int| 0 <= i < devices.len() && (#[trigger] devices[i]).id@ == id
}

/// No device behind this one has the same id.
pub open spec fn latest_of_its_id(devices: Seq<Device>, at: int) -> bool {
    forall|k: int| at < k < devices.len() ==> (#[trigger] devices[k]).id@ != devices[at].id@
}

proof fn lemma_learning_keeps_places(catalog: Seq<Device>, learned: Seq<Device>)
    ensures
        catalog.len() <= with_all_learned(catalog, learned).len(),
        forall|i: int|
            0 <= i < catalog.len() ==> (#[trigger] with_all_learned(catalog, learned)[i]).id@
                == catalog[i].id@,
        forall|i: int|
            0 <= i < catalog.len() && !mentions(learned, catalog[i].id@)
                ==> #[trigger] with_all_learned(catalog, learned)[i] == catalog[i],
    decreases learned.len(),
{
    if learned.len() > 0 {
        let fewer = learned.drop_last();
        let last = learned.last();
        let before = with_all_learned(catalog, fewer);
        let after = with_all_learned(catalog, learned);
        lemma_learning_keeps_places(catalog, fewer);
        lemma_place_is_found(before, last.id@);
        assert(learned[learned.len() - 1] == last);
        assert forall|i: int| 0 <= i < catalog.len() && !mentions(learned, catalog[i].id@) implies (
        #[trigger] after[i]) == catalog[i] by {
            if mentions(fewer, catalog[i].id@) {
                let j = choose|j: int|
                    0 <= j < fewer.len() && (#[trigger] fewer[j]).id@ == catalog[i].id@;
                assert(learned[j].id@ == catalog[i].id@);
            }
            assert(before[i] == catalog[i]);
        }
    }
}

proof fn lemma_learning_adds_what_was_learned(catalog: Seq<Device>, learned: Seq<Device>)
    ensures
        forall|i: int|
            catalog.len() <= i < with_all_learned(catalog, learned).len() ==> learned.contains(
                #[trigger] with_all_learned(catalog, learned)[i],
            ),
    decreases learned.len(),
{
    if learned.len() > 0 {
        let fewer = learned.drop_last();
        let last = learned.last();
        let before = with_all_learned(catalog, fewer);
        let after = with_all_learned(catalog, learned);
        lemma_learning_adds_what_was_learned(catalog, fewer);
        lemma_place_is_found(before, last.id@);
        assert(learned[learned.len() - 1] == last);
        assert forall|i: int| catalog.len() <= i < after.len() implies learned.contains(
            #[trigger] after[i],
        ) by {
            if after[i] != last {
                assert(after[i] == before[i]);
                let j = choose|j: int| 0 <= j < fewer.len() && fewer[j] == before[i];
                assert(learned[j] == after[i]);
            }
        }
    }
}

proof fn lemma_what_was_learned_is_known(catalog: Seq<Device>, learned: Seq<Device>, j: int)
    requires
        0 <= j < learned.len(),
        latest_of_its_id(learned, j),
    ensures
        with_all_learned(catalog, learned).contains(learned[j]),
    decreases learned.len(),
{
    let fewer = learned.drop_last();
    let last = learned.last();
    let before = with_all_learned(catalog, fewer);
    let after = with_all_learned(catalog, learned);
    lemma_place_is_found(before, last.id@);
    let place = if decision::has_device(before, last.id@) {
        place_of(before, last.id@) as int
    } else {
        before.len() as int
    };
    assert(after[place] == last);
    assert(learned[learned.len() - 1] == last);
    if j < fewer.len() {
        assert(fewer[j] == learned[j]);
        assert(latest_of_its_id(fewer, j)) by {
            assert forall|k: int| j < k < fewer.len() implies (#[trigger] fewer[k]).id@
                != fewer[j].id@ by {
                assert(learned[k].id@ != learned[j].id@);
            }
        }
        lemma_what_was_learned_is_known(catalog, fewer, j);
        let i = choose|i: int| 0 <= i < before.len() && before[i] == fewer[j];
        assert(after[i] == learned[j]);
    }
}

/// The catalog forgets nothing: devices that nothing new was learned of stay as
/// they are and where they are, one that was learned takes the place of what was
/// known under its id, and whatever is new comes behind them.
#[verifier::rlimit(40)]
pub proof fn lemma_the_catalog_forgets_nothing(
    meter: Meter,
    reading: MeterReading,
    change: DeviceChange,
    learned: Seq<Device>,
    profiles: Seq<StoredAppliance>,
    at: Timestamp,
)
    ensures
        ({
            let after = meter.after_change(reading, change, learned, profiles, at).catalog;
            &&& meter.catalog.len() <= after.len()
            &&& forall|i: int|
                0 <= i < meter.catalog.len() ==> (#[trigger] after[i]).id@ == meter.catalog[i].id@
            &&& forall|i: int|
                0 <= i < meter.catalog.len() && !mentions(learned, meter.catalog[i].id@)
                    ==> #[trigger] after[i] == meter.catalog[i]
            &&& forall|i: int|
                meter.catalog.len() <= i < after.len() ==> learned.contains(#[trigger] after[i])
                    || change == DeviceChange::Added(after[i])
            &&& forall|j: int|
                0 <= j < learned.len() && latest_of_its_id(learned, j) ==> after.contains(
                    #[trigger] learned[j],
                )
            &&& change matches DeviceChange::Added(added) ==> mentions(after, added.id@)
        }),
{
    let taught = with_all_learned(meter.catalog, learned);
    let after = meter.after_change(reading, change, learned, profiles, at).catalog;
    lemma_learning_keeps_places(meter.catalog, learned);
    lemma_learning_adds_what_was_learned(meter.catalog, learned);
    assert forall|i: int| 0 <= i < taught.len() implies #[trigger] after[i] == taught[i] by {}
    if let DeviceChange::Added(added) = change {
        if decision::has_device(taught, added.id@) {
            let i = choose|i: int| 0 <= i < taught.len() && (#[trigger] taught[i]).id@ == added.id@;
            assert(after[i].id@ == added.id@);
        } else {
            assert(after[taught.len() as int] == added);
        }
    }
    assert forall|j: int| 0 <= j < learned.len() && latest_of_its_id(learned, j) implies after.contains(
        #[trigger] learned[j],
    ) by {
        lemma_what_was_learned_is_known(meter.catalog, learned, j);
        let i = choose|i: int| 0 <= i < taught.len() && taught[i] == learned[j];
        assert(after[i] == learned[j]);
    }
}

/// The charts show the end of what is kept, whole and in order.
pub proof fn lemma_the_charts_show_the_end_of_the_history(meter: Meter, index: int)
    requires
        0 <= index < meter.recent().len(),
    ensures
        meter.recent().len() <= meter.history.len(),
        meter.recent()[index] == meter.history[meter.history.len() - meter.recent().len() + index],
{
    if meter.history.len() > 0 {
        lemma_older_is_a_place(
            meter.history,
            meter.history.last().timestamp.minute_before(),
        );
    }
}

/// The character is no control character: neither below the space nor from
/// delete up to the end of the second control block.
pub open spec fn can_stand_in_a_name(c: char) -> bool {
    0x20 <= c as int <= 0x7e || 0xa0 <= c as int
}

/// A device can be renamed exactly if it is in the catalog and the name, without
/// the space around it, has one to 80 characters, none of them a control
/// character.  A bad name is called out before an unknown device.
pub proof fn lemma_what_can_be_renamed(catalog: Seq<Device>, id: Seq<char>, name: Seq<char>)
    ensures
        ({
            let trimmed = text::trimmed(name);
            let good = 1 <= trimmed.len() <= 80 && forall|i: int|
                0 <= i < trimmed.len() ==> can_stand_in_a_name(#[trigger] trimmed[i]);
            match rename_request(catalog, id, name) {
                Ok(given) => good && mentions(catalog, id) && given == trimmed,
                Err(RenameError::InvalidName) => !good,
                Err(RenameError::NotFound) => good && !mentions(catalog, id),
                Err(_) => false,
            }
        }),
{
    let trimmed = text::trimmed(name);
    assert forall|i: int| 0 <= i < trimmed.len() implies can_stand_in_a_name(#[trigger] trimmed[i])
        == !transport::control(trimmed[i]) by {}
}

/// A report about the link replaces the one before, unless it says nothing; it
/// touches nothing else.
pub proof fn lemma_a_report_replaces_the_one_before(meter: Meter, report: Report)
    ensures
        ({
            let after = meter.after_report(report);
            &&& after == (Meter { transport: after.transport, ..meter })
            &&& report != transport::no_report() ==> after.transport == report
            &&& report == transport::no_report() ==> after.transport == meter.transport
        }),
{
}

/// A receiver that has seen nothing knows its catalog and nothing else.
pub proof fn lemma_what_a_fresh_receiver_knows(state: MeterState, catalog: Seq<Device>)
    requires
        state.fresh(catalog),
    ensures
        state@.catalog == catalog,
        state@.active.len() == 0,
        state@.latest is None,
        state@.last_settled is None,
        state@.received == 0,
        state@.stored == 0,
        state@.last_received_at is None,
        state@.last_change is None,
        state@.history.len() == 0,
        state@.transport == transport::no_report(),
        !state@.persistent,
{
}

/// A reading that is no keepalive is what the method makes of it, given the last
/// such reading, the catalog and the active devices.
pub proof fn lemma_the_method_decides<M: DecisionMethod>(
    meter: Meter,
    method: M,
    reading: MeterReading,
    at: Timestamp,
)
    requires
        !reading.heartbeat,
    ensures
        ({
            let (next, change) = method.decision(
                meter.last_settled,
                reading,
                meter.catalog,
                meter.active,
            );
            &&& meter.decided(method, reading) == (next, change)
            &&& meter.after_reading(method, reading, at) == meter.after_change(
                reading,
                change,
                next.learned(),
                next.profiles(),
                at,
            )
        }),
{
}

/// The charts cover a minute, in at most 600 samples.
pub proof fn lemma_how_much_the_charts_cover()
    ensures
        HISTORY_WINDOW_SECS == 60,
        HISTORY_CAPACITY == 600,
{
}

} // verus!
