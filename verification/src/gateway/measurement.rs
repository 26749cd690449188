//! What the gateway says about a snapshot: the measurement it sends and the
//! line it prints.

use vstd::prelude::*;
use vstd::string::*;

use crate::binary32::Binary32;
use crate::clock::{Moment, Span, NANOS_PER_SEC};
use crate::fixed_point;
use crate::fixed_point::fixed;
use crate::gateway::monitor;
use crate::gateway::monitor::{
    should_record, ActiveThresholds, BaselineReading, SettledMonitor, SETTLING_WINDOW_NANOS,
};
use crate::gateway::registers::Snapshot;
use crate::json;
use crate::json::{Field, Json};
use crate::receiver::encoding;
use crate::receiver::encoding::{marked_json, phase_block};
use crate::receiver::input;
use crate::receiver::input::{MeterReading, PhaseReading, TotalsReading};
use crate::text;
use crate::text::{decimal, join, signed_decimal};
use crate::thresholds::ClientThresholdConfig;

verus! {

/// A value the meter could determine, or nothing.
pub open spec fn determined(value: Binary32) -> Option<Binary32> {
    if value.finite() {
        Some(value)
    } else {
        None
    }
}

/// A value the meter could determine, or `None` for one it could not.
pub fn measured(value: Binary32) -> (result: Option<Binary32>)
    ensures
        result == determined(value),
{
    if value.is_finite() {
        Some(value)
    } else {
        None
    }
}

/// The measured values of one phase, as the receiver is to read them.
pub open spec fn sent_phase(snapshot: Snapshot, phase: int) -> PhaseReading {
    PhaseReading {
        voltage_v: determined(snapshot.voltage[phase]),
        current_a: determined(snapshot.current[phase]),
        real_power_w: determined(snapshot.real_power[phase]),
        apparent_power_va: determined(snapshot.apparent_power[phase]),
        reactive_power_var: determined(snapshot.reactive_power[phase]),
        cos_phi: determined(snapshot.cos_phi[phase]),
        real_energy_consumed_wh: determined(snapshot.real_energy_consumed[phase]),
        thd_voltage_pct: determined(snapshot.thd_voltage[phase]),
        thd_current_pct: determined(snapshot.thd_current[phase]),
    }
}

/// The three-phase sums, as the receiver is to read them.
pub open spec fn sent_totals(snapshot: Snapshot) -> TotalsReading {
    TotalsReading {
        real_power_w: determined(snapshot.real_power_sum3),
        apparent_power_va: determined(snapshot.apparent_power_sum3),
        reactive_power_var: determined(snapshot.reactive_power_sum3),
    }
}

/// A measurement, as the receiver is to read it.
pub open spec fn sent_reading(snapshot: Snapshot, total_power: Binary32, heartbeat: bool) -> MeterReading {
    MeterReading {
        total_power,
        systime: Some(snapshot.systime),
        frequency_hz: Some(determined(snapshot.frequency)),
        l1: Some(sent_phase(snapshot, 0)),
        l2: Some(sent_phase(snapshot, 1)),
        l3: Some(sent_phase(snapshot, 2)),
        totals: Some(sent_totals(snapshot)),
        heartbeat,
    }
}

fn measured_phase(snapshot: &Snapshot, phase: usize) -> (reading: PhaseReading)
    requires
        phase < 3,
    ensures
        reading == sent_phase(*snapshot, phase as int),
{
    PhaseReading {
        voltage_v: measured(snapshot.voltage[phase]),
        current_a: measured(snapshot.current[phase]),
        real_power_w: measured(snapshot.real_power[phase]),
        apparent_power_va: measured(snapshot.apparent_power[phase]),
        reactive_power_var: measured(snapshot.reactive_power[phase]),
        cos_phi: measured(snapshot.cos_phi[phase]),
        real_energy_consumed_wh: measured(snapshot.real_energy_consumed[phase]),
        thd_voltage_pct: measured(snapshot.thd_voltage[phase]),
        thd_current_pct: measured(snapshot.thd_current[phase]),
    }
}

/// The measured values of one phase, as sent to the receiver.
pub fn phase_json(snapshot: &Snapshot, phase: usize) -> (block: Json)
    requires
        phase < 3,
    ensures
        encoding::is_phase_block(block, sent_phase(*snapshot, phase as int)),
{
    phase_block(&measured_phase(snapshot, phase))
}

/// One complete three-phase measurement, as sent to the receiver: every value is
/// there, and one that the meter could not determine is `null`.
///
/// `heartbeat` marks a reading sent only to keep the trend and the link alive.
/// The sums are those the meter measures itself.
pub fn measurement_json(snapshot: &Snapshot, total_power: Binary32, heartbeat: bool) -> (measurement:
    Json)
    ensures
        encoding::writes(
            measurement,
            sent_reading(*snapshot, total_power, heartbeat),
            Field::Present(Json::Bool(heartbeat)),
        ),
        total_power.finite() ==> input::decoded_request(measurement) == Ok::<
            Seq<MeterReading>,
            Seq<char>,
        >(seq![sent_reading(*snapshot, total_power, heartbeat)]),
{
    let reading: MeterReading = MeterReading {
        total_power,
        systime: Some(snapshot.systime),
        frequency_hz: Some(measured(snapshot.frequency)),
        l1: Some(measured_phase(snapshot, 0)),
        l2: Some(measured_phase(snapshot, 1)),
        l3: Some(measured_phase(snapshot, 2)),
        totals: Some(
            TotalsReading {
                real_power_w: measured(snapshot.real_power_sum3),
                apparent_power_va: measured(snapshot.apparent_power_sum3),
                reactive_power_var: measured(snapshot.reactive_power_sum3),
            },
        ),
        heartbeat,
    };
    let measurement: Json = marked_json(&reading, Some(Json::Bool(heartbeat)));
    proof {
        lemma_sent_values_are_finite(*snapshot, total_power, heartbeat);
        if total_power.finite() {
            encoding::lemma_what_is_written_is_read(
                measurement,
                reading,
                Field::Present(Json::Bool(heartbeat)),
            );
        }
    }
    measurement
}

proof fn lemma_finite_block(
    prefix: Seq<char>,
    names: Seq<Seq<char>>,
    values: Seq<Option<Binary32>>,
)
    requires
        forall|i: int| 0 <= i < names.len() ==> input::finite_if_given(#[trigger] values[i]),
    ensures
        input::block_error(prefix, names, values) is None,
    decreases names.len(),
{
    if names.len() > 0 {
        lemma_finite_block(prefix, names.drop_last(), values);
    }
}

proof fn lemma_sent_phase_is_finite(snapshot: Snapshot, phase: int, prefix: Seq<char>)
    ensures
        input::phase_error(prefix, Some(sent_phase(snapshot, phase))) is None,
{
    let values = input::phase_values(sent_phase(snapshot, phase));
    assert(input::finite_if_given(values[0]));
    assert(input::finite_if_given(values[1]));
    assert(input::finite_if_given(values[2]));
    assert(input::finite_if_given(values[3]));
    assert(input::finite_if_given(values[4]));
    assert(input::finite_if_given(values[5]));
    assert(input::finite_if_given(values[6]));
    assert(input::finite_if_given(values[7]));
    assert(input::finite_if_given(values[8]));
    assert(input::phase_names().len() == 9);
    lemma_finite_block(prefix, input::phase_names(), values);
}

proof fn lemma_sent_totals_are_finite(snapshot: Snapshot)
    ensures
        input::totals_error(Some(sent_totals(snapshot))) is None,
{
    let values = input::totals_values(sent_totals(snapshot));
    assert(input::finite_if_given(values[0]));
    assert(input::finite_if_given(values[1]));
    assert(input::finite_if_given(values[2]));
    assert(input::totals_names().len() == 3);
    lemma_finite_block("totals."@, input::totals_names(), values);
}

/// Every value in a measurement is a number or left out, so the receiver never
/// refuses one for its values while the total power is a number.
pub proof fn lemma_sent_values_are_finite(
    snapshot: Snapshot,
    total_power: Binary32,
    heartbeat: bool,
)
    ensures
        total_power.finite() ==> input::value_error(
            sent_reading(snapshot, total_power, heartbeat),
        ) is None,
{
    reveal(input::value_error);
    lemma_sent_phase_is_finite(snapshot, 0, "l1."@);
    lemma_sent_phase_is_finite(snapshot, 1, "l2."@);
    lemma_sent_phase_is_finite(snapshot, 2, "l3."@);
    lemma_sent_totals_are_finite(snapshot);
}

/// A measured value as it is shown.
pub open spec fn shown(value: Binary32, decimals: nat) -> Seq<char> {
    if value.finite() {
        fixed_point::fixed_text(value, decimals)
    } else {
        "n/a"@
    }
}

/// Formats a measured value, or `n/a` for one the meter could not determine.
pub fn show(value: Binary32, decimals: usize) -> (text: String)
    ensures
        text@ == shown(value, decimals as nat),
{
    match measured(value) {
        Some(value) => fixed(value, decimals),
        None => "n/a".to_owned(),
    }
}

/// The part of the summary that is about one phase.
pub open spec fn phase_summary(snapshot: Snapshot, phase: int) -> Seq<char> {
    "L"@ + text::decimal_digits((phase + 1) as nat) + " [U: "@ + shown(snapshot.voltage[phase], 2)
        + "V, I: "@ + shown(snapshot.current[phase], 2) + "A, P: "@ + shown(
        snapshot.real_power[phase],
        2,
    ) + "W, PF: "@ + shown(snapshot.cos_phi[phase], 2) + ", THD_U: "@ + shown(
        snapshot.thd_voltage[phase],
        2,
    ) + "%, THD_I: "@ + shown(snapshot.thd_current[phase], 2) + "%]"@
}

/// The line printed for every recorded reading.
pub open spec fn summary_text(snapshot: Snapshot) -> Seq<char> {
    "Time: "@ + text::signed_digits(snapshot.systime as int) + " | Freq: "@ + shown(
        snapshot.frequency,
        2,
    ) + "Hz | Sum3 [P: "@ + shown(snapshot.real_power_sum3, 2) + "W, S: "@ + shown(
        snapshot.apparent_power_sum3,
        2,
    ) + "VA, Q: "@ + shown(snapshot.reactive_power_sum3, 2) + "var] | "@ + text::joined(
        Seq::new(3, |phase: int| phase_summary(snapshot, phase)),
        " | "@,
    )
}

fn summarize_phase(snapshot: &Snapshot, phase: usize) -> (line: String)
    requires
        phase < 3,
    ensures
        line@ == phase_summary(*snapshot, phase as int),
{
    let mut line: String = "L".to_owned();
    line.append(decimal((phase + 1) as u64).as_str());
    line.append(" [U: ");
    line.append(show(snapshot.voltage[phase], 2).as_str());
    line.append("V, I: ");
    line.append(show(snapshot.current[phase], 2).as_str());
    line.append("A, P: ");
    line.append(show(snapshot.real_power[phase], 2).as_str());
    line.append("W, PF: ");
    line.append(show(snapshot.cos_phi[phase], 2).as_str());
    line.append(", THD_U: ");
    line.append(show(snapshot.thd_voltage[phase], 2).as_str());
    line.append("%, THD_I: ");
    line.append(show(snapshot.thd_current[phase], 2).as_str());
    line.append("%]");
    line
}

/// The one-line summary of a reading: three-phase sums, then phases.
pub fn summary(snapshot: &Snapshot) -> (line: String)
    ensures
        line@ == summary_text(*snapshot),
{
    let phases: Vec<String> = vec![
        summarize_phase(snapshot, 0),
        summarize_phase(snapshot, 1),
        summarize_phase(snapshot, 2),
    ];
    assert(text::texts(phases@) =~= Seq::new(3, |phase: int| phase_summary(*snapshot, phase)));
    let mut line: String = "Time: ".to_owned();
    line.append(signed_decimal(snapshot.systime as i64).as_str());
    line.append(" | Freq: ");
    line.append(show(snapshot.frequency, 2).as_str());
    line.append("Hz | Sum3 [P: ");
    line.append(show(snapshot.real_power_sum3, 2).as_str());
    line.append("W, S: ");
    line.append(show(snapshot.apparent_power_sum3, 2).as_str());
    line.append("VA, Q: ");
    line.append(show(snapshot.reactive_power_sum3, 2).as_str());
    line.append("var] | ");
    line.append(join(&phases, " | ").as_str());
    line
}

/// What became of a snapshot.
pub enum Acquired {
    /// The meter reported no three-phase real power: the reading is skipped.
    NoPower,
    /// Nothing worth sending.
    Quiet,
    /// The reading is to be queued, for a settled change or as a keepalive.
    Record { changed: bool, measurement: Json },
}

/// The acquisition side of the gateway: which snapshots are queued.
pub struct Acquisition {
    pub monitor: SettledMonitor,
    pub thresholds: ActiveThresholds,
    pub heartbeat: Option<Span>,
    pub last_recorded: Option<Moment>,
}

impl Acquisition {
    pub fn new(heartbeat: Option<Span>) -> (acquisition: Acquisition)
        ensures
            acquisition.monitor == (SettledMonitor {
                settling_window: Span { nanos: SETTLING_WINDOW_NANOS },
                settling_enabled: true,
                baseline: None,
                candidate: None,
            }),
            acquisition.thresholds == monitor::default_thresholds(),
            acquisition.heartbeat == heartbeat,
            acquisition.last_recorded is None,
    {
        Acquisition {
            monitor: SettledMonitor::new(Span { nanos: SETTLING_WINDOW_NANOS }),
            thresholds: ActiveThresholds::default(),
            heartbeat,
            last_recorded: None,
        }
    }

    /// Applies an adjustment that the receiver pushed.
    pub fn configure(&mut self, config: &ClientThresholdConfig)
        ensures
            final(self).thresholds == old(self).thresholds.adjusted_by(*config),
            config.settling_window_secs is None ==> final(self).monitor == old(self).monitor,
            config.settling_window_secs matches Some(window) ==> {
                &&& final(self).monitor.settling_enabled == (window is Some)
                &&& final(self).monitor.candidate is None
                &&& final(self).monitor.baseline == old(self).monitor.baseline
                &&& final(self).monitor.settling_window.nanos == match window {
                    Some(secs) => (secs * NANOS_PER_SEC) as u128,
                    None => old(self).monitor.settling_window.nanos,
                }
            },
            final(self).heartbeat == old(self).heartbeat,
            final(self).last_recorded == old(self).last_recorded,
    {
        self.thresholds.apply_config(config);
        if let Some(window) = config.settling_window_secs {
            self.monitor.update_settling(window);
        }
    }

    /// The snapshot is queued.
    pub open spec fn records(&self, snapshot: Snapshot, now: Moment) -> bool {
        snapshot.real_power_sum3.finite() && (self.monitor.after(
            monitor::baseline_of(snapshot),
            now,
            self.thresholds,
        ).1 || monitor::heartbeat_due(self.heartbeat, self.last_recorded, now))
    }

    /// Takes a snapshot read at a moment, and says what becomes of it.
    pub fn take(&mut self, snapshot: &Snapshot, now: Moment) -> (acquired: Acquired)
        ensures
            (acquired is NoPower) == !snapshot.real_power_sum3.finite(),
            acquired is NoPower ==> *final(self) == *old(self),
            (acquired is Record) == old(self).records(*snapshot, now),
            !(acquired is NoPower) ==> final(self).monitor == old(self).monitor.after(
                monitor::baseline_of(*snapshot),
                now,
                old(self).thresholds,
            ).0,
            acquired matches Acquired::Record { changed, measurement } ==> {
                &&& changed == old(self).monitor.after(
                    monitor::baseline_of(*snapshot),
                    now,
                    old(self).thresholds,
                ).1
                &&& encoding::writes(
                    measurement,
                    sent_reading(*snapshot, snapshot.real_power_sum3, !changed),
                    Field::Present(Json::Bool(!changed)),
                )
                &&& input::decoded_request(measurement) == Ok::<Seq<MeterReading>, Seq<char>>(
                    seq![sent_reading(*snapshot, snapshot.real_power_sum3, !changed)],
                )
            },
            final(self).last_recorded == if acquired is Record {
                Some(now)
            } else {
                old(self).last_recorded
            },
            final(self).thresholds == old(self).thresholds,
            final(self).heartbeat == old(self).heartbeat,
    {
        let total_power: Binary32 = match measured(snapshot.real_power_sum3) {
            Some(total_power) => total_power,
            None => return Acquired::NoPower,
        };
        let current: BaselineReading = BaselineReading::from_snapshot(snapshot);
        let changed: bool = self.monitor.process_reading(current, now, &self.thresholds);
        if should_record(changed, self.heartbeat, self.last_recorded, now) {
            self.last_recorded = Some(now);
            Acquired::Record {
                changed,
                measurement: measurement_json(snapshot, total_power, !changed),
            }
        } else {
            Acquired::Quiet
        }
    }
}

/// A value as it was measured, and nothing where it is no number.
pub open spec fn is_measured(told: Option<Binary32>, value: Binary32) -> bool {
    &&& value.finite() ==> told == Some(value)
    &&& !value.finite() ==> told is None
}

/// A block tells the values of one phase of a snapshot.
pub open spec fn tells_phase(block: PhaseReading, snapshot: Snapshot, phase: int) -> bool {
    &&& is_measured(block.voltage_v, snapshot.voltage[phase])
    &&& is_measured(block.current_a, snapshot.current[phase])
    &&& is_measured(block.real_power_w, snapshot.real_power[phase])
    &&& is_measured(block.apparent_power_va, snapshot.apparent_power[phase])
    &&& is_measured(block.reactive_power_var, snapshot.reactive_power[phase])
    &&& is_measured(block.cos_phi, snapshot.cos_phi[phase])
    &&& is_measured(block.real_energy_consumed_wh, snapshot.real_energy_consumed[phase])
    &&& is_measured(block.thd_voltage_pct, snapshot.thd_voltage[phase])
    &&& is_measured(block.thd_current_pct, snapshot.thd_current[phase])
}

/// What the receiver is told of a snapshot is what the meter read: the first
/// phase under `l1`, the second under `l2` and the third under `l3`, each value
/// as it is, and nothing in place of one that is no number.
#[verifier::rlimit(40)]
pub proof fn lemma_each_phase_is_sent_as_it_was_read(
    snapshot: Snapshot,
    total_power: Binary32,
    heartbeat: bool,
)
    ensures
        ({
            let told = sent_reading(snapshot, total_power, heartbeat);
            &&& told.l1 is Some && tells_phase(told.l1->0, snapshot, 0)
            &&& told.l2 is Some && tells_phase(told.l2->0, snapshot, 1)
            &&& told.l3 is Some && tells_phase(told.l3->0, snapshot, 2)
            &&& told.total_power == total_power
            &&& told.systime == Some(snapshot.systime)
            &&& told.frequency_hz is Some && is_measured(told.frequency_hz->0, snapshot.frequency)
            &&& told.totals is Some
            &&& is_measured(told.totals->0.real_power_w, snapshot.real_power_sum3)
            &&& is_measured(told.totals->0.apparent_power_va, snapshot.apparent_power_sum3)
            &&& is_measured(told.totals->0.reactive_power_var, snapshot.reactive_power_sum3)
            &&& told.heartbeat == heartbeat
        }),
{
}

/// A number as JSON has it: `null` where it is none.
pub open spec fn number_or_null(value: Binary32) -> Field {
    if value.finite() {
        Field::Present(Json::Decimal(value))
    } else {
        Field::Present(Json::Null)
    }
}

/// A block of a measurement holds the values of one phase of a snapshot under
/// their names.
pub open spec fn holds_phase_of(block: Json, snapshot: Snapshot, phase: int) -> bool {
    &&& block is Object
    &&& block->Object_0@.len() == 9
    &&& json::member(block->Object_0@, "voltage_v"@) == number_or_null(snapshot.voltage[phase])
    &&& json::member(block->Object_0@, "current_a"@) == number_or_null(snapshot.current[phase])
    &&& json::member(block->Object_0@, "real_power_w"@) == number_or_null(snapshot.real_power[phase])
    &&& json::member(block->Object_0@, "apparent_power_va"@) == number_or_null(snapshot.apparent_power[phase])
    &&& json::member(block->Object_0@, "reactive_power_var"@) == number_or_null(snapshot.reactive_power[phase])
    &&& json::member(block->Object_0@, "cos_phi"@) == number_or_null(snapshot.cos_phi[phase])
    &&& json::member(block->Object_0@, "real_energy_consumed_wh"@) == number_or_null(snapshot.real_energy_consumed[phase])
    &&& json::member(block->Object_0@, "thd_voltage_pct"@) == number_or_null(snapshot.thd_voltage[phase])
    &&& json::member(block->Object_0@, "thd_current_pct"@) == number_or_null(snapshot.thd_current[phase])
}

/// The block that is sent of a phase holds the values of that phase.
#[verifier::rlimit(40)]
pub proof fn lemma_block_of_a_phase(block: Json, snapshot: Snapshot, phase: int)
    requires
        encoding::is_phase_block(block, sent_phase(snapshot, phase)),
    ensures
        holds_phase_of(block, snapshot, phase),
{
    let names = input::phase_names();
    let members = block->Object_0@;
    assert(json::member(members, names[0]) == number_or_null(snapshot.voltage[phase]));
    assert(json::member(members, names[1]) == number_or_null(snapshot.current[phase]));
    assert(json::member(members, names[2]) == number_or_null(snapshot.real_power[phase]));
    assert(json::member(members, names[3]) == number_or_null(snapshot.apparent_power[phase]));
    assert(json::member(members, names[4]) == number_or_null(snapshot.reactive_power[phase]));
    assert(json::member(members, names[5]) == number_or_null(snapshot.cos_phi[phase]));
    assert(json::member(members, names[6]) == number_or_null(snapshot.real_energy_consumed[phase]));
    assert(json::member(members, names[7]) == number_or_null(snapshot.thd_voltage[phase]));
    assert(json::member(members, names[8]) == number_or_null(snapshot.thd_current[phase]));
}

/// A measurement, as it goes over the wire: the blocks `l1`, `l2` and `l3` hold
/// the three phases of the snapshot in this order, every value under its own
/// name.
#[verifier::rlimit(40)]
pub proof fn lemma_each_phase_is_written_under_its_name(
    measurement: Json,
    snapshot: Snapshot,
    total_power: Binary32,
    heartbeat: bool,
)
    requires
        encoding::writes(
            measurement,
            sent_reading(snapshot, total_power, heartbeat),
            Field::Present(Json::Bool(heartbeat)),
        ),
    ensures
        measurement is Object,
        ({
            let members = measurement->Object_0@;
            &&& members.len() == 8
            &&& json::member(members, "total_power"@) == number_or_null(total_power)
            &&& json::member(members, "systime"@) == Field::Present(
                Json::Integer(snapshot.systime as i128),
            )
            &&& json::member(members, "frequency_hz"@) == number_or_null(snapshot.frequency)
            &&& json::member(members, "heartbeat"@) == Field::Present(Json::Bool(heartbeat))
            &&& json::member(members, "l1"@) matches Field::Present(block) && holds_phase_of(
                block,
                snapshot,
                0,
            )
            &&& json::member(members, "l2"@) matches Field::Present(block) && holds_phase_of(
                block,
                snapshot,
                1,
            )
            &&& json::member(members, "l3"@) matches Field::Present(block) && holds_phase_of(
                block,
                snapshot,
                2,
            )
            &&& json::member(members, "totals"@) matches Field::Present(block) && block is Object
                && block->Object_0@.len() == 3 && json::member(
                block->Object_0@,
                "real_power_w"@,
            ) == number_or_null(snapshot.real_power_sum3) && json::member(
                block->Object_0@,
                "apparent_power_va"@,
            ) == number_or_null(snapshot.apparent_power_sum3) && json::member(
                block->Object_0@,
                "reactive_power_var"@,
            ) == number_or_null(snapshot.reactive_power_sum3)
        }),
{
    let members = measurement->Object_0@;
    lemma_block_of_a_phase(json::member(members, "l1"@)->Present_0, snapshot, 0);
    lemma_block_of_a_phase(json::member(members, "l2"@)->Present_0, snapshot, 1);
    lemma_block_of_a_phase(json::member(members, "l3"@)->Present_0, snapshot, 2);
    let totals = json::member(members, "totals"@)->Present_0;
    let names = input::totals_names();
    assert(json::member(totals->Object_0@, names[0]) == number_or_null(snapshot.real_power_sum3));
    assert(json::member(totals->Object_0@, names[1]) == number_or_null(
        snapshot.apparent_power_sum3,
    ));
    assert(json::member(totals->Object_0@, names[2]) == number_or_null(
        snapshot.reactive_power_sum3,
    ));
}

impl Acquisition {
    /// A snapshot is queued exactly if the meter knew the three-phase power, and
    /// either the reading is a settled change or the heartbeat is owed.
    pub proof fn lemma_what_is_queued(&self, snapshot: Snapshot, now: Moment)
        ensures
            ({
                let changed = self.monitor.after(
                    monitor::baseline_of(snapshot),
                    now,
                    self.thresholds,
                ).1;
                let owed = self.heartbeat is Some && (self.last_recorded is None
                    || now.elapsed_since(self.last_recorded->0) >= self.heartbeat->0.nanos);
                self.records(snapshot, now) <==> snapshot.real_power_sum3.finite() && (changed
                    || owed)
            }),
    {
    }
}

/// A value is shown by its decimals, and as `n/a` where the meter could not
/// determine it.
pub proof fn lemma_how_a_value_is_shown(value: Binary32, decimals: nat)
    ensures
        value.finite() ==> shown(value, decimals) == fixed_point::fixed_text(value, decimals),
        !value.finite() ==> shown(value, decimals) == "n/a"@,
{
}

/// The line of a phase tells the values of that phase alone, under its name.
pub open spec fn is_line_of_phase(line: Seq<char>, name: Seq<char>, snapshot: Snapshot, phase: int) -> bool {
    line == name + " [U: "@ + shown(snapshot.voltage[phase], 2) + "V, I: "@ + shown(
        snapshot.current[phase],
        2,
    ) + "A, P: "@ + shown(snapshot.real_power[phase], 2) + "W, PF: "@ + shown(
        snapshot.cos_phi[phase],
        2,
    ) + ", THD_U: "@ + shown(snapshot.thd_voltage[phase], 2) + "%, THD_I: "@ + shown(
        snapshot.thd_current[phase],
        2,
    ) + "%]"@
}

/// The summary goes through the phases in their order, each under its name, after
/// the time, the frequency and the sums.
#[verifier::rlimit(40)]
pub proof fn lemma_the_summary_goes_phase_by_phase(snapshot: Snapshot)
    ensures
        exists|l1: Seq<char>, l2: Seq<char>, l3: Seq<char>|
            is_line_of_phase(l1, "L1"@, snapshot, 0) && is_line_of_phase(l2, "L2"@, snapshot, 1)
                && is_line_of_phase(l3, "L3"@, snapshot, 2) && summary_text(snapshot) == "Time: "@
                + text::signed_digits(snapshot.systime as int) + " | Freq: "@ + shown(
                snapshot.frequency,
                2,
            ) + "Hz | Sum3 [P: "@ + shown(snapshot.real_power_sum3, 2) + "W, S: "@ + shown(
                snapshot.apparent_power_sum3,
                2,
            ) + "VA, Q: "@ + shown(snapshot.reactive_power_sum3, 2) + "var] | "@ + (
            #[trigger] (l1 + " | "@ + l2 + " | "@ + l3)),
{
    reveal_strlit("L");
    reveal_strlit("L1");
    reveal_strlit("L2");
    reveal_strlit("L3");
    assert("L"@ + text::decimal_digits(1) =~= "L1"@);
    assert("L"@ + text::decimal_digits(2) =~= "L2"@);
    assert("L"@ + text::decimal_digits(3) =~= "L3"@);
    let l1 = phase_summary(snapshot, 0);
    let l2 = phase_summary(snapshot, 1);
    let l3 = phase_summary(snapshot, 2);
    let lines = Seq::new(3, |phase: int| phase_summary(snapshot, phase));
    assert(lines.drop_last() =~= seq![l1, l2]);
    assert(seq![l1, l2].drop_last() =~= seq![l1]);
    reveal_with_fuel(text::joined, 4);
    assert(text::joined(lines, " | "@) == l1 + " | "@ + l2 + " | "@ + l3);
    assert(is_line_of_phase(l1, "L1"@, snapshot, 0));
    assert(is_line_of_phase(l2, "L2"@, snapshot, 1));
    assert(is_line_of_phase(l3, "L3"@, snapshot, 2));
}

} // verus!
