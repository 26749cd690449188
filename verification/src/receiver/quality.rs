//! Power-quality limits and the violations a reading breaches.
//!
//! The limits follow EN 50160, the European standard for the voltage
//! characteristics of public distribution networks.

use vstd::prelude::*;
use vstd::string::*;

use crate::binary32::Binary32;
use crate::fixed_point;
use crate::fixed_point::fixed;
use crate::receiver::input::{MeterReading, PhaseReading};

verus! {

/// Nominal phase-to-neutral voltage of the low-voltage network, 230 V, as an
/// encoding; the values below are encodings too.
pub const NOMINAL_VOLTAGE_V: u32 = 0x4366_0000;

/// Nominal grid frequency, 50 Hz.
pub const NOMINAL_FREQUENCY_HZ: u32 = 0x4248_0000;

/// The band the voltage of a connected phase has to stay inside: 10 % either
/// side of nominal, 207 V to 253 V.
pub const VOLTAGE_MIN_V: u32 = 0x434f_0000;

pub const VOLTAGE_MAX_V: u32 = 0x437d_0000;

/// The frequency band: 1 % either side of nominal, 49.5 Hz to 50.5 Hz.
pub const FREQUENCY_MIN_HZ: u32 = 0x4246_0000;

pub const FREQUENCY_MAX_HZ: u32 = 0x424a_0000;

/// The cap on the total harmonic distortion of the supply voltage, 8 %.
pub const THD_VOLTAGE_MAX_PCT: u32 = 0x4100_0000;

/// Below this current, 10 mA, a phase counts as unloaded and its voltage is not
/// judged: an unconnected phase reads 0 V, which is no undervoltage.
pub const CONNECTED_PHASE_CURRENT_A: u32 = 0x3c23_d70a;

/// Current distortion is only judged above this current, 1 A: the ratio is taken
/// against a fundamental that approaches zero when a phase is idle.
pub const THD_CURRENT_RELEVANT_A: u32 = 0x3f80_0000;

/// The distortion above which a loaded phase is called out, 8 %.
pub const THD_CURRENT_MAX_PCT: u32 = 0x4100_0000;

/// How severely a reading departs from the limits.
#[derive(Clone, Copy, Debug, PartialEq, Eq, Structural)]
pub enum Severity {
    /// Outside the limit: a power-quality event.
    Violation,
    /// Worth watching.
    Warning,
}

/// One quantity that left its limit.
#[derive(Debug, PartialEq, Eq)]
pub struct Violation {
    /// The measured quantity, e.g. `voltage_v`.
    pub quantity: &'static str,
    /// `L1`, `L2`, `L3`, or `-` for a quantity that is not per phase.
    pub phase: &'static str,
    pub value: Binary32,
    pub limit: Binary32,
    pub severity: Severity,
    /// A sentence naming what happened, ready to display.
    pub message: String,
}

/// A violation as plain texts and values.
pub struct Breach {
    pub quantity: Seq<char>,
    pub phase: Seq<char>,
    pub value: Binary32,
    pub limit: Binary32,
    pub severity: Severity,
    pub message: Seq<char>,
}

impl View for Violation {
    type V = Breach;

    open spec fn view(&self) -> Breach {
        Breach {
            quantity: self.quantity@,
            phase: self.phase@,
            value: self.value,
            limit: self.limit,
            severity: self.severity,
            message: self.message@,
        }
    }
}

/// The limits, published so that a view draws the same bands that readings are
/// judged against.
#[derive(Clone, Copy, Debug, PartialEq, Eq, Structural)]
pub struct Limits {
    pub nominal_voltage_v: Binary32,
    pub voltage_min_v: Binary32,
    pub voltage_max_v: Binary32,
    pub nominal_frequency_hz: Binary32,
    pub frequency_min_hz: Binary32,
    pub frequency_max_hz: Binary32,
    pub thd_voltage_max_pct: Binary32,
    pub thd_current_max_pct: Binary32,
    pub thd_current_relevant_a: Binary32,
}

/// The published limits.
pub open spec fn published_limits() -> Limits {
    Limits {
        nominal_voltage_v: Binary32 { bits: NOMINAL_VOLTAGE_V },
        voltage_min_v: Binary32 { bits: VOLTAGE_MIN_V },
        voltage_max_v: Binary32 { bits: VOLTAGE_MAX_V },
        nominal_frequency_hz: Binary32 { bits: NOMINAL_FREQUENCY_HZ },
        frequency_min_hz: Binary32 { bits: FREQUENCY_MIN_HZ },
        frequency_max_hz: Binary32 { bits: FREQUENCY_MAX_HZ },
        thd_voltage_max_pct: Binary32 { bits: THD_VOLTAGE_MAX_PCT },
        thd_current_max_pct: Binary32 { bits: THD_CURRENT_MAX_PCT },
        thd_current_relevant_a: Binary32 { bits: THD_CURRENT_RELEVANT_A },
    }
}

impl Limits {
    pub fn en50160() -> (limits: Limits)
        ensures
            limits == published_limits(),
    {
        Limits {
            nominal_voltage_v: Binary32 { bits: NOMINAL_VOLTAGE_V },
            voltage_min_v: Binary32 { bits: VOLTAGE_MIN_V },
            voltage_max_v: Binary32 { bits: VOLTAGE_MAX_V },
            nominal_frequency_hz: Binary32 { bits: NOMINAL_FREQUENCY_HZ },
            frequency_min_hz: Binary32 { bits: FREQUENCY_MIN_HZ },
            frequency_max_hz: Binary32 { bits: FREQUENCY_MAX_HZ },
            thd_voltage_max_pct: Binary32 { bits: THD_VOLTAGE_MAX_PCT },
            thd_current_max_pct: Binary32 { bits: THD_CURRENT_MAX_PCT },
            thd_current_relevant_a: Binary32 { bits: THD_CURRENT_RELEVANT_A },
        }
    }
}

/// The phase draws at least this much current, either way.
pub open spec fn draws(phase: PhaseReading, current: u32) -> bool {
    match phase.current_a {
        Some(drawn) => (Binary32 { bits: current }).at_most(drawn.absolute_value()),
        None => false,
    }
}

/// The phase draws more than this much current, either way.
pub open spec fn draws_more(phase: PhaseReading, current: u32) -> bool {
    match phase.current_a {
        Some(drawn) => (Binary32 { bits: current }).below(drawn.absolute_value()),
        None => false,
    }
}

fn draws_more_than(phase: &PhaseReading, current: u32) -> (more: bool)
    ensures
        more == draws_more(*phase, current),
{
    match phase.current_a {
        Some(drawn) => (Binary32 { bits: current }).lt(drawn.abs()),
        None => false,
    }
}

fn draws_at_least(phase: &PhaseReading, current: u32) -> (enough: bool)
    ensures
        enough == draws(*phase, current),
{
    match phase.current_a {
        Some(drawn) => (Binary32 { bits: current }).le(drawn.abs()),
        None => false,
    }
}

/// Whether a phase carries enough current to have a supply worth judging.
pub fn is_connected(phase: &PhaseReading) -> (connected: bool)
    ensures
        connected == draws(*phase, CONNECTED_PHASE_CURRENT_A),
{
    draws_at_least(phase, CONNECTED_PHASE_CURRENT_A)
}

/// The limit of a band that a value is outside of, if it is a number at all.
pub open spec fn band_limit(value: Binary32, low: u32, high: u32) -> Option<Binary32> {
    if !value.finite() {
        None
    } else if value.below(Binary32 { bits: low }) {
        Some(Binary32 { bits: low })
    } else if (Binary32 { bits: high }).below(value) {
        Some(Binary32 { bits: high })
    } else {
        None
    }
}

fn outside_band(value: Binary32, low: u32, high: u32) -> (limit: Option<Binary32>)
    ensures
        limit == band_limit(value, low, high),
{
    if !value.is_finite() {
        None
    } else if value.lt(Binary32 { bits: low }) {
        Some(Binary32 { bits: low })
    } else if (Binary32 { bits: high }).lt(value) {
        Some(Binary32 { bits: high })
    } else {
        None
    }
}

/// A number above a cap.
pub open spec fn above_cap(value: Binary32, cap: u32) -> bool {
    value.finite() && (Binary32 { bits: cap }).below(value)
}

fn exceeds_cap(value: Binary32, cap: u32) -> (above: bool)
    ensures
        above == above_cap(value, cap),
{
    value.is_finite() && (Binary32 { bits: cap }).lt(value)
}

/// The breach of the frequency band, if there is one.
pub open spec fn frequency_breach(frequency: Option<Binary32>) -> Seq<Breach> {
    match frequency {
        Some(value) => match band_limit(value, FREQUENCY_MIN_HZ, FREQUENCY_MAX_HZ) {
            Some(limit) => seq![
                Breach {
                    quantity: "frequency_hz"@,
                    phase: "-"@,
                    value,
                    limit,
                    severity: Severity::Violation,
                    message: "Grid frequency "@ + fixed_point::fixed_text(value, 2)
                        + " Hz is outside 49.5–50.5 Hz"@,
                },
            ],
            None => Seq::empty(),
        },
        None => Seq::empty(),
    }
}

/// The breach of the voltage band by a connected phase, if there is one.
pub open spec fn voltage_breach(name: Seq<char>, phase: PhaseReading) -> Seq<Breach> {
    match phase.voltage_v {
        Some(value) => match band_limit(value, VOLTAGE_MIN_V, VOLTAGE_MAX_V) {
            Some(limit) => if draws(phase, CONNECTED_PHASE_CURRENT_A) {
                seq![
                    Breach {
                        quantity: "voltage_v"@,
                        phase: name,
                        value,
                        limit,
                        severity: Severity::Violation,
                        message: name + " voltage "@ + fixed_point::fixed_text(value, 1)
                            + " V is outside 207–253 V"@,
                    },
                ]
            } else {
                Seq::empty()
            },
            None => Seq::empty(),
        },
        None => Seq::empty(),
    }
}

/// The breach of the cap on voltage distortion, if there is one.
pub open spec fn voltage_distortion_breach(name: Seq<char>, phase: PhaseReading) -> Seq<Breach> {
    match phase.thd_voltage_pct {
        Some(value) => if above_cap(value, THD_VOLTAGE_MAX_PCT) {
            seq![
                Breach {
                    quantity: "thd_voltage_pct"@,
                    phase: name,
                    value,
                    limit: Binary32 { bits: THD_VOLTAGE_MAX_PCT },
                    severity: Severity::Violation,
                    message: name + " voltage distortion "@ + fixed_point::fixed_text(value, 1)
                        + " % exceeds 8 %"@,
                },
            ]
        } else {
            Seq::empty()
        },
        None => Seq::empty(),
    }
}

/// The current distortion of a loaded phase that is worth watching, if there is
/// any.
pub open spec fn current_distortion_breach(name: Seq<char>, phase: PhaseReading) -> Seq<Breach> {
    match phase.thd_current_pct {
        Some(value) => if draws_more(phase, THD_CURRENT_RELEVANT_A) && above_cap(
            value,
            THD_CURRENT_MAX_PCT,
        ) {
            seq![
                Breach {
                    quantity: "thd_current_pct"@,
                    phase: name,
                    value,
                    limit: Binary32 { bits: THD_CURRENT_MAX_PCT },
                    severity: Severity::Warning,
                    message: name + " current distortion "@ + fixed_point::fixed_text(value, 1)
                        + " % exceeds 8 %"@,
                },
            ]
        } else {
            Seq::empty()
        },
        None => Seq::empty(),
    }
}

/// Everything about one phase that breaches a limit.
pub open spec fn phase_breaches(name: Seq<char>, phase: Option<PhaseReading>) -> Seq<Breach> {
    match phase {
        Some(phase) => voltage_breach(name, phase) + voltage_distortion_breach(name, phase)
            + current_distortion_breach(name, phase),
        None => Seq::empty(),
    }
}

/// Every limit that a reading breaches, in the order of measurement.
pub open spec fn breaches(reading: MeterReading) -> Seq<Breach> {
    frequency_breach(reading.grid_frequency()) + phase_breaches("L1"@, reading.l1) + phase_breaches(
        "L2"@,
        reading.l2,
    ) + phase_breaches("L3"@, reading.l3)
}

/// Violations as plain texts and values.
pub open spec fn breach_views(found: Seq<Violation>) -> Seq<Breach> {
    found.map_values(|violation: Violation| violation@)
}

fn sentence(start: &str, subject: &str, value: &str, end: &str) -> (message: String)
    ensures
        message@ == start@ + subject@ + value@ + end@,
{
    let mut message: String = start.to_owned();
    message.append(subject);
    message.append(value);
    message.append(end);
    message
}

fn judge_frequency(found: &mut Vec<Violation>, frequency: Option<Binary32>)
    ensures
        breach_views(final(found)@) == breach_views(old(found)@) + frequency_breach(frequency),
{
    let ghost before = found@;
    if let Some(value) = frequency {
        if let Some(limit) = outside_band(value, FREQUENCY_MIN_HZ, FREQUENCY_MAX_HZ) {
            let message: String = sentence(
                "Grid frequency ",
                "",
                fixed(value, 2).as_str(),
                " Hz is outside 49.5–50.5 Hz",
            );
            proof {
                reveal_strlit("");
                assert("Grid frequency "@ + ""@ =~= "Grid frequency "@);
            }
            let violation: Violation = Violation {
                quantity: "frequency_hz",
                phase: "-",
                value,
                limit,
                severity: Severity::Violation,
                message,
            };
            found.push(violation);
            assert(violation@ == frequency_breach(frequency)[0]);
        }
    }
    assert(breach_views(found@) =~= breach_views(before) + frequency_breach(frequency));
}

fn judge_voltage(found: &mut Vec<Violation>, name: &'static str, phase: &PhaseReading)
    ensures
        breach_views(final(found)@) == breach_views(old(found)@) + voltage_breach(name@, *phase),
{
    let ghost before = found@;
    if let Some(value) = phase.voltage_v {
        if let Some(limit) = outside_band(value, VOLTAGE_MIN_V, VOLTAGE_MAX_V) {
            // A phase with nothing drawing on it has no supply to judge.
            if is_connected(phase) {
                let message: String = sentence(
                    name,
                    " voltage ",
                    fixed(value, 1).as_str(),
                    " V is outside 207–253 V",
                );
                let violation: Violation = Violation {
                    quantity: "voltage_v",
                    phase: name,
                    value,
                    limit,
                    severity: Severity::Violation,
                    message,
                };
                found.push(violation);
                assert(violation@ == voltage_breach(name@, *phase)[0]);
            }
        }
    }
    assert(breach_views(found@) =~= breach_views(before) + voltage_breach(name@, *phase));
}

fn judge_voltage_distortion(found: &mut Vec<Violation>, name: &'static str, phase: &PhaseReading)
    ensures
        breach_views(final(found)@) == breach_views(old(found)@) + voltage_distortion_breach(
            name@,
            *phase,
        ),
{
    let ghost before = found@;
    if let Some(value) = phase.thd_voltage_pct {
        if exceeds_cap(value, THD_VOLTAGE_MAX_PCT) {
            let message: String = sentence(
                name,
                " voltage distortion ",
                fixed(value, 1).as_str(),
                " % exceeds 8 %",
            );
            let violation: Violation = Violation {
                quantity: "thd_voltage_pct",
                phase: name,
                value,
                limit: Binary32 { bits: THD_VOLTAGE_MAX_PCT },
                severity: Severity::Violation,
                message,
            };
            found.push(violation);
            assert(violation@ == voltage_distortion_breach(name@, *phase)[0]);
        }
    }
    assert(breach_views(found@) =~= breach_views(before) + voltage_distortion_breach(
        name@,
        *phase,
    ));
}

fn judge_current_distortion(found: &mut Vec<Violation>, name: &'static str, phase: &PhaseReading)
    ensures
        breach_views(final(found)@) == breach_views(old(found)@) + current_distortion_breach(
            name@,
            *phase,
        ),
{
    let ghost before = found@;
    if let Some(value) = phase.thd_current_pct {
        // Only a phase drawing real current has a meaningful current distortion.
        if draws_more_than(phase, THD_CURRENT_RELEVANT_A) && exceeds_cap(
            value,
            THD_CURRENT_MAX_PCT,
        ) {
            let message: String = sentence(
                name,
                " current distortion ",
                fixed(value, 1).as_str(),
                " % exceeds 8 %",
            );
            let violation: Violation = Violation {
                quantity: "thd_current_pct",
                phase: name,
                value,
                limit: Binary32 { bits: THD_CURRENT_MAX_PCT },
                severity: Severity::Warning,
                message,
            };
            found.push(violation);
            assert(violation@ == current_distortion_breach(name@, *phase)[0]);
        }
    }
    assert(breach_views(found@) =~= breach_views(before) + current_distortion_breach(
        name@,
        *phase,
    ));
}

fn judge_phase(found: &mut Vec<Violation>, name: &'static str, phase: Option<PhaseReading>)
    ensures
        breach_views(final(found)@) == breach_views(old(found)@) + phase_breaches(name@, phase),
{
    let ghost before = breach_views(found@);
    if let Some(phase) = phase {
        judge_voltage(found, name, &phase);
        judge_voltage_distortion(found, name, &phase);
        judge_current_distortion(found, name, &phase);
    }
    assert(breach_views(found@) =~= before + phase_breaches(name@, phase));
}

/// Every limit the reading breaches, in the order of measurement.
///
/// A value the meter reported as unavailable is never a violation: an unknown
/// value is not a measured excursion.
pub fn violations(reading: &MeterReading) -> (found: Vec<Violation>)
    ensures
        breach_views(found@) == breaches(*reading),
{
    let mut found: Vec<Violation> = Vec::new();
    assert(breach_views(found@) =~= Seq::<Breach>::empty());
    judge_frequency(&mut found, reading.frequency());
    judge_phase(&mut found, "L1", reading.l1);
    judge_phase(&mut found, "L2", reading.l2);
    judge_phase(&mut found, "L3", reading.l3);
    assert(breach_views(found@) =~= breaches(*reading));
    found
}

/// A phase with nothing drawing on it is never judged by its voltage, whatever
/// it reads.
pub proof fn lemma_unloaded_phase_has_no_voltage_event(name: Seq<char>, phase: PhaseReading)
    requires
        !draws(phase, CONNECTED_PHASE_CURRENT_A),
    ensures
        voltage_breach(name, phase) == Seq::<Breach>::empty(),
        current_distortion_breach(name, phase) == Seq::<Breach>::empty(),
{
    if draws_more(phase, THD_CURRENT_RELEVANT_A) {
        assert(draws(phase, CONNECTED_PHASE_CURRENT_A));
    }
}

/// Current distortion is judged above 1 A alone: at 1 A and below, the phase is
/// never called out for it, however large it is.
pub proof fn lemma_small_currents_are_not_judged(name: Seq<char>, phase: PhaseReading)
    requires
        phase.current_a matches Some(drawn) ==> drawn.absolute_value().at_most(
            Binary32 { bits: THD_CURRENT_RELEVANT_A },
        ),
    ensures
        current_distortion_breach(name, phase) == Seq::<Breach>::empty(),
{
}

/// A value that is absent or no number never breaches a limit.
pub proof fn lemma_unknown_values_are_no_violations(name: Seq<char>, phase: PhaseReading)
    ensures
        phase.voltage_v is None ==> voltage_breach(name, phase) == Seq::<Breach>::empty(),
        phase.thd_voltage_pct is None ==> voltage_distortion_breach(name, phase) == Seq::<
            Breach,
        >::empty(),
        phase.thd_current_pct is None ==> current_distortion_breach(name, phase) == Seq::<
            Breach,
        >::empty(),
        phase.voltage_v matches Some(value) && !value.finite() ==> voltage_breach(name, phase)
            == Seq::<Breach>::empty(),
        phase.thd_voltage_pct matches Some(value) && !value.finite()
            ==> voltage_distortion_breach(name, phase) == Seq::<Breach>::empty(),
        phase.thd_current_pct matches Some(value) && !value.finite()
            ==> current_distortion_breach(name, phase) == Seq::<Breach>::empty(),
        frequency_breach(None) == Seq::<Breach>::empty(),
{
}

/// Current distortion is only ever a warning; every other breach is a
/// violation.
pub proof fn lemma_only_current_distortion_is_a_warning(name: Seq<char>, phase: PhaseReading)
    ensures
        forall|i: int|
            0 <= i < voltage_breach(name, phase).len() ==> (#[trigger] voltage_breach(
                name,
                phase,
            )[i]).severity == Severity::Violation,
        forall|i: int|
            0 <= i < voltage_distortion_breach(name, phase).len() ==> (
            #[trigger] voltage_distortion_breach(name, phase)[i]).severity == Severity::Violation,
        forall|i: int|
            0 <= i < current_distortion_breach(name, phase).len() ==> (
            #[trigger] current_distortion_breach(name, phase)[i]).severity == Severity::Warning,
{
}

/// The reading says this of the phase with this name.
pub open spec fn reads(reading: MeterReading, name: Seq<char>, phase: PhaseReading) -> bool {
    ||| name == "L1"@ && reading.l1 == Some(phase)
    ||| name == "L2"@ && reading.l2 == Some(phase)
    ||| name == "L3"@ && reading.l3 == Some(phase)
}

/// The phase draws at least 10 mA, and its voltage is a number outside 207 V to
/// 253 V.
pub open spec fn voltage_is_out(phase: PhaseReading, value: Binary32) -> bool {
    &&& phase.voltage_v == Some(value)
    &&& value.finite()
    &&& value.below(Binary32 { bits: 0x434f_0000 }) || (Binary32 { bits: 0x437d_0000 }).below(value)
    &&& phase.current_a is Some
    &&& (Binary32 { bits: 0x3c23_d70a }).at_most(phase.current_a->0.absolute_value())
}

/// The distortion of the phase's voltage is a number above 8 %.
pub open spec fn voltage_is_distorted(phase: PhaseReading, value: Binary32) -> bool {
    &&& phase.thd_voltage_pct == Some(value)
    &&& value.finite()
    &&& (Binary32 { bits: 0x4100_0000 }).below(value)
}

/// The phase draws more than 1 A, and the distortion of its current is a number
/// above 8 %.
pub open spec fn current_is_distorted(phase: PhaseReading, value: Binary32) -> bool {
    &&& phase.thd_current_pct == Some(value)
    &&& value.finite()
    &&& (Binary32 { bits: 0x4100_0000 }).below(value)
    &&& phase.current_a is Some
    &&& (Binary32 { bits: 0x3f80_0000 }).below(phase.current_a->0.absolute_value())
}

/// The grid frequency is a number outside 49.5 Hz to 50.5 Hz.
pub open spec fn frequency_is_out(reading: MeterReading, value: Binary32) -> bool {
    &&& reading.frequency_hz == Some(Some(value))
    &&& value.finite()
    &&& value.below(Binary32 { bits: 0x4246_0000 }) || (Binary32 { bits: 0x424a_0000 }).below(value)
}

proof fn lemma_part_is_contained(before: Seq<Breach>, part: Seq<Breach>, after: Seq<Breach>)
    ensures
        forall|i: int| 0 <= i < part.len() ==> (before + part + after).contains(#[trigger] part[i]),
{
    assert forall|i: int| 0 <= i < part.len() implies (before + part + after).contains(
        #[trigger] part[i],
    ) by {
        assert((before + part + after)[before.len() + i] == part[i]);
    }
}

proof fn lemma_phase_is_contained(reading: MeterReading, name: Seq<char>, phase: PhaseReading)
    requires
        reads(reading, name, phase),
    ensures
        forall|i: int|
            0 <= i < phase_breaches(name, Some(phase)).len() ==> breaches(reading).contains(
                #[trigger] phase_breaches(name, Some(phase))[i],
            ),
{
    let frequency = frequency_breach(reading.grid_frequency());
    let l1 = phase_breaches("L1"@, reading.l1);
    let l2 = phase_breaches("L2"@, reading.l2);
    let l3 = phase_breaches("L3"@, reading.l3);
    lemma_part_is_contained(frequency, l1, l2 + l3);
    lemma_part_is_contained(frequency + l1, l2, l3);
    lemma_part_is_contained(frequency + l1 + l2, l3, Seq::empty());
    assert(frequency + l1 + (l2 + l3) =~= breaches(reading));
    assert(frequency + l1 + l2 + l3 + Seq::<Breach>::empty() =~= breaches(reading));
}

/// Each of the three phases is judged: a loaded phase whose voltage is out of
/// its band, a distorted voltage and a loaded phase with a distorted current are
/// all in the list, under the phase's name, with the value and the limit that it
/// passed.
#[verifier::rlimit(40)]
pub proof fn lemma_every_phase_is_judged(
    reading: MeterReading,
    name: Seq<char>,
    phase: PhaseReading,
    value: Binary32,
)
    requires
        reads(reading, name, phase),
    ensures
        voltage_is_out(phase, value) ==> breaches(reading).contains(
            Breach {
                quantity: "voltage_v"@,
                phase: name,
                value,
                limit: Binary32 {
                    bits: if value.below(Binary32 { bits: 0x434f_0000 }) {
                        0x434f_0000
                    } else {
                        0x437d_0000
                    },
                },
                severity: Severity::Violation,
                message: name + " voltage "@ + fixed_point::fixed_text(value, 1)
                    + " V is outside 207–253 V"@,
            },
        ),
        voltage_is_distorted(phase, value) ==> breaches(reading).contains(
            Breach {
                quantity: "thd_voltage_pct"@,
                phase: name,
                value,
                limit: Binary32 { bits: 0x4100_0000 },
                severity: Severity::Violation,
                message: name + " voltage distortion "@ + fixed_point::fixed_text(value, 1)
                    + " % exceeds 8 %"@,
            },
        ),
        current_is_distorted(phase, value) ==> breaches(reading).contains(
            Breach {
                quantity: "thd_current_pct"@,
                phase: name,
                value,
                limit: Binary32 { bits: 0x4100_0000 },
                severity: Severity::Warning,
                message: name + " current distortion "@ + fixed_point::fixed_text(value, 1)
                    + " % exceeds 8 %"@,
            },
        ),
{
    let own = phase_breaches(name, Some(phase));
    lemma_phase_is_contained(reading, name, phase);
    let voltage = voltage_breach(name, phase);
    let distortion = voltage_distortion_breach(name, phase);
    if voltage_is_out(phase, value) {
        assert(own[0] == voltage[0]);
    }
    if voltage_is_distorted(phase, value) {
        assert(own[voltage.len() as int] == distortion[0]);
    }
    if current_is_distorted(phase, value) {
        assert(own[(voltage.len() + distortion.len()) as int] == current_distortion_breach(
            name,
            phase,
        )[0]);
    }
}

/// The frequency of the grid is judged too, once and for no phase.
pub proof fn lemma_the_frequency_is_judged(reading: MeterReading, value: Binary32)
    requires
        frequency_is_out(reading, value),
    ensures
        breaches(reading).contains(
            Breach {
                quantity: "frequency_hz"@,
                phase: "-"@,
                value,
                limit: Binary32 {
                    bits: if value.below(Binary32 { bits: 0x4246_0000 }) {
                        0x4246_0000
                    } else {
                        0x424a_0000
                    },
                },
                severity: Severity::Violation,
                message: "Grid frequency "@ + fixed_point::fixed_text(value, 2)
                    + " Hz is outside 49.5–50.5 Hz"@,
            },
        ),
{
    assert(breaches(reading)[0] == frequency_breach(reading.grid_frequency())[0]);
}

/// Something the reading says is outside the limit that the breach names.
pub open spec fn justified(reading: MeterReading, breach: Breach) -> bool {
    ||| breach.quantity == "frequency_hz"@ && breach.phase == "-"@ && frequency_is_out(
        reading,
        breach.value,
    )
    ||| exists|phase: PhaseReading| #[trigger]
        reads(reading, breach.phase, phase) && {
            ||| breach.quantity == "voltage_v"@ && voltage_is_out(phase, breach.value)
            ||| breach.quantity == "thd_voltage_pct"@ && voltage_is_distorted(phase, breach.value)
            ||| breach.quantity == "thd_current_pct"@ && current_is_distorted(phase, breach.value)
        }
}

/// How many limits a phase is outside of.
pub open spec fn limits_passed(phase: Option<PhaseReading>) -> nat {
    match phase {
        None => 0,
        Some(phase) => (if phase.voltage_v is Some && voltage_is_out(phase, phase.voltage_v->0) {
            1nat
        } else {
            0nat
        }) + (if phase.thd_voltage_pct is Some && voltage_is_distorted(
            phase,
            phase.thd_voltage_pct->0,
        ) {
            1nat
        } else {
            0nat
        }) + (if phase.thd_current_pct is Some && current_is_distorted(
            phase,
            phase.thd_current_pct->0,
        ) {
            1nat
        } else {
            0nat
        }),
    }
}

#[verifier::rlimit(40)]
proof fn lemma_phase_breaches_are_justified(
    reading: MeterReading,
    name: Seq<char>,
    phase: Option<PhaseReading>,
)
    requires
        phase matches Some(phase) ==> reads(reading, name, phase),
    ensures
        phase_breaches(name, phase).len() == limits_passed(phase),
        forall|i: int|
            0 <= i < phase_breaches(name, phase).len() ==> justified(
                reading,
                #[trigger] phase_breaches(name, phase)[i],
            ),
{
    if let Some(phase) = phase {
        let voltage = voltage_breach(name, phase);
        let distortion = voltage_distortion_breach(name, phase);
        let current = current_distortion_breach(name, phase);
        let all = phase_breaches(name, Some(phase));
        assert forall|i: int| 0 <= i < all.len() implies justified(reading, #[trigger] all[i]) by {
            if i < voltage.len() {
                assert(all[i] == voltage[0]);
            } else if i < voltage.len() + distortion.len() {
                assert(all[i] == distortion[0]);
            } else {
                assert(all[i] == current[0]);
            }
            assert(reads(reading, all[i].phase, phase));
        }
    }
}

/// Nothing else is in the list: every entry names a value that is outside its
/// limit, and there are as many entries as limits that were passed.
#[verifier::rlimit(40)]
pub proof fn lemma_every_breach_is_justified(reading: MeterReading)
    ensures
        forall|i: int|
            0 <= i < breaches(reading).len() ==> justified(
                reading,
                #[trigger] breaches(reading)[i],
            ),
        breaches(reading).len() == (if reading.frequency_hz matches Some(Some(value))
            && frequency_is_out(reading, value) {
            1nat
        } else {
            0nat
        }) + limits_passed(reading.l1) + limits_passed(reading.l2) + limits_passed(reading.l3),
{
    let frequency = frequency_breach(reading.grid_frequency());
    let l1 = phase_breaches("L1"@, reading.l1);
    let l2 = phase_breaches("L2"@, reading.l2);
    let l3 = phase_breaches("L3"@, reading.l3);
    lemma_phase_breaches_are_justified(reading, "L1"@, reading.l1);
    lemma_phase_breaches_are_justified(reading, "L2"@, reading.l2);
    lemma_phase_breaches_are_justified(reading, "L3"@, reading.l3);
    let all = breaches(reading);
    assert forall|i: int| 0 <= i < all.len() implies justified(reading, #[trigger] all[i]) by {
        if i < frequency.len() {
            assert(all[i] == frequency[0]);
        } else if i < frequency.len() + l1.len() {
            assert(all[i] == l1[i - frequency.len()]);
        } else if i < frequency.len() + l1.len() + l2.len() {
            assert(all[i] == l2[i - frequency.len() - l1.len()]);
        } else {
            assert(all[i] == l3[i - frequency.len() - l1.len() - l2.len()]);
        }
    }
}

/// The bands that are published are those that readings are judged by: 207 V to
/// 253 V around 230 V, 49.5 Hz to 50.5 Hz around 50 Hz, 8 % of distortion, and
/// 1 A for a current to be judged.
pub proof fn lemma_the_published_limits()
    ensures
        ({
            let limits = published_limits();
            &&& limits.nominal_voltage_v.bits == 0x4366_0000
            &&& limits.voltage_min_v.bits == 0x434f_0000
            &&& limits.voltage_max_v.bits == 0x437d_0000
            &&& limits.nominal_frequency_hz.bits == 0x4248_0000
            &&& limits.frequency_min_hz.bits == 0x4246_0000
            &&& limits.frequency_max_hz.bits == 0x424a_0000
            &&& limits.thd_voltage_max_pct.bits == 0x4100_0000
            &&& limits.thd_current_max_pct.bits == 0x4100_0000
            &&& limits.thd_current_relevant_a.bits == 0x3f80_0000
        }),
{
}

/// Where an entry stands in the list: the grid first, then the phases.
pub open spec fn rank(breach: Breach) -> int {
    if breach.phase == "-"@ {
        0
    } else if breach.phase == "L1"@ {
        1
    } else if breach.phase == "L2"@ {
        2
    } else {
        3
    }
}

proof fn lemma_ranks(name: Seq<char>, phase: Option<PhaseReading>)
    ensures
        forall|i: int|
            0 <= i < phase_breaches(name, phase).len() ==> (#[trigger] phase_breaches(
                name,
                phase,
            )[i]).phase == name,
{
}

/// The list goes by the order of measurement: what is wrong with the grid comes
/// first, then what is wrong with L1, L2 and L3.
pub proof fn lemma_breaches_come_in_order(reading: MeterReading, i: int, j: int)
    requires
        0 <= i < j < breaches(reading).len(),
    ensures
        rank(breaches(reading)[i]) <= rank(breaches(reading)[j]),
{
    reveal_strlit("-");
    reveal_strlit("L1");
    reveal_strlit("L2");
    reveal_strlit("L3");
    assert("L1"@[1] != "L2"@[1] && "L1"@[1] != "L3"@[1] && "L2"@[1] != "L3"@[1]);
    assert("-"@.len() == 1 && "L1"@.len() == 2 && "L2"@.len() == 2 && "L3"@.len() == 2);
    let frequency = frequency_breach(reading.grid_frequency());
    let l1 = phase_breaches("L1"@, reading.l1);
    let l2 = phase_breaches("L2"@, reading.l2);
    let l3 = phase_breaches("L3"@, reading.l3);
    lemma_ranks("L1"@, reading.l1);
    lemma_ranks("L2"@, reading.l2);
    lemma_ranks("L3"@, reading.l3);
    lemma_rank_of(frequency, l1, l2, l3, i);
    lemma_rank_of(frequency, l1, l2, l3, j);
}

proof fn lemma_rank_of(
    frequency: Seq<Breach>,
    l1: Seq<Breach>,
    l2: Seq<Breach>,
    l3: Seq<Breach>,
    i: int,
)
    requires
        0 <= i < (frequency + l1 + l2 + l3).len(),
        forall|k: int| 0 <= k < frequency.len() ==> (#[trigger] frequency[k]).phase == "-"@,
        forall|k: int| 0 <= k < l1.len() ==> (#[trigger] l1[k]).phase == "L1"@,
        forall|k: int| 0 <= k < l2.len() ==> (#[trigger] l2[k]).phase == "L2"@,
        forall|k: int| 0 <= k < l3.len() ==> (#[trigger] l3[k]).phase == "L3"@,
        "L1"@ != "-"@ && "L2"@ != "-"@ && "L3"@ != "-"@ && "L1"@ != "L2"@ && "L1"@ != "L3"@
            && "L2"@ != "L3"@,
    ensures
        rank((frequency + l1 + l2 + l3)[i]) == if i < frequency.len() {
            0int
        } else if i < frequency.len() + l1.len() {
            1int
        } else if i < frequency.len() + l1.len() + l2.len() {
            2int
        } else {
            3int
        },
{
    let all = frequency + l1 + l2 + l3;
    if i < frequency.len() {
        assert(all[i] == frequency[i]);
    } else if i < frequency.len() + l1.len() {
        assert(all[i] == l1[i - frequency.len()]);
    } else if i < frequency.len() + l1.len() + l2.len() {
        assert(all[i] == l2[i - frequency.len() - l1.len()]);
    } else {
        assert(all[i] == l3[i - frequency.len() - l1.len() - l2.len()]);
    }
}

/// A violation is what its texts and values say.
pub proof fn lemma_what_a_violation_says(found: Seq<Violation>, at: int)
    requires
        0 <= at < found.len(),
    ensures
        breach_views(found).len() == found.len(),
        breach_views(found)[at].quantity == found[at].quantity@,
        breach_views(found)[at].phase == found[at].phase@,
        breach_views(found)[at].value == found[at].value,
        breach_views(found)[at].limit == found[at].limit,
        breach_views(found)[at].severity == found[at].severity,
        breach_views(found)[at].message == found[at].message@,
{
}

/// A phase is connected exactly if at least 10 mA are drawn from it, either way.
pub proof fn lemma_what_counts_as_connected(phase: PhaseReading)
    ensures
        draws(phase, CONNECTED_PHASE_CURRENT_A) <==> phase.current_a is Some && (Binary32 {
            bits: 0x3c23_d70a,
        }).at_most(phase.current_a->0.absolute_value()),
{
}

} // verus!
