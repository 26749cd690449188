//! Which readings are worth sending.
//!
//! A reading is recorded when it differs from the last recorded level by more
//! than the noise of the installation and has stayed there for the settling
//! window, or when nothing was recorded for a while.

use vstd::prelude::*;

use crate::binary32::Binary32;
use crate::clock::{Moment, Span, NANOS_PER_SEC};
use crate::gateway::registers::{Phases, Snapshot};
use crate::thresholds::ClientThresholdConfig;

verus! {

/// Absolute changes that count as noise, as encodings: 0.2 Hz, 1.5 V, 0.06 A,
/// 4 W, 8 VA, 3 var, a power factor of 0.08, and distortions of 1 % and 15 %.
pub const THRESHOLD_FREQUENCY_HZ: u32 = 0x3e4c_cccd;

pub const THRESHOLD_VOLTAGE_V: u32 = 0x3fc0_0000;

pub const THRESHOLD_CURRENT_A: u32 = 0x3d75_c28f;

pub const THRESHOLD_REAL_POWER_W: u32 = 0x4080_0000;

pub const THRESHOLD_APPARENT_POWER_VA: u32 = 0x4100_0000;

pub const THRESHOLD_REACTIVE_POWER_VAR: u32 = 0x4040_0000;

pub const THRESHOLD_COS_PHI: u32 = 0x3da3_d70a;

pub const THRESHOLD_THD_VOLTAGE_PCT: u32 = 0x3f80_0000;

pub const THRESHOLD_THD_CURRENT_PCT: u32 = 0x4170_0000;

/// A three-phase sum carries the noise of all three phases: 12 W, 24 VA and
/// 9 var.
pub const THRESHOLD_REAL_POWER_SUM_W: u32 = 0x4140_0000;

pub const THRESHOLD_APPARENT_POWER_SUM_VA: u32 = 0x41c0_0000;

pub const THRESHOLD_REACTIVE_POWER_SUM_VAR: u32 = 0x4110_0000;

/// How long a changed level must stay stable before it becomes the new
/// baseline.
pub const SETTLING_WINDOW_NANOS: u128 = 2 * NANOS_PER_SEC;

/// The thresholds in force.
#[derive(Clone, Copy, Debug, PartialEq, Eq, Structural)]
pub struct ActiveThresholds {
    pub frequency_hz: Binary32,
    pub frequency_enabled: bool,
    pub voltage_v: Binary32,
    pub voltage_enabled: bool,
    pub current_a: Binary32,
    pub real_power_w: Binary32,
    pub apparent_power_va: Binary32,
    pub reactive_power_var: Binary32,
    pub cos_phi: Binary32,
    pub thd_voltage_pct: Binary32,
    pub thd_voltage_enabled: bool,
    pub thd_current_pct: Binary32,
    pub thd_current_enabled: bool,
}

/// The thresholds of a gateway that was told nothing else.
pub open spec fn default_thresholds() -> ActiveThresholds {
    ActiveThresholds {
        frequency_hz: Binary32 { bits: THRESHOLD_FREQUENCY_HZ },
        frequency_enabled: true,
        voltage_v: Binary32 { bits: THRESHOLD_VOLTAGE_V },
        voltage_enabled: true,
        current_a: Binary32 { bits: THRESHOLD_CURRENT_A },
        real_power_w: Binary32 { bits: THRESHOLD_REAL_POWER_W },
        apparent_power_va: Binary32 { bits: THRESHOLD_APPARENT_POWER_VA },
        reactive_power_var: Binary32 { bits: THRESHOLD_REACTIVE_POWER_VAR },
        cos_phi: Binary32 { bits: THRESHOLD_COS_PHI },
        thd_voltage_pct: Binary32 { bits: THRESHOLD_THD_VOLTAGE_PCT },
        thd_voltage_enabled: true,
        thd_current_pct: Binary32 { bits: THRESHOLD_THD_CURRENT_PCT },
        thd_current_enabled: true,
    }
}

impl Default for ActiveThresholds {
    fn default() -> (thresholds: ActiveThresholds)
        ensures
            thresholds == default_thresholds(),
    {
        ActiveThresholds {
            frequency_hz: Binary32 { bits: THRESHOLD_FREQUENCY_HZ },
            frequency_enabled: true,
            voltage_v: Binary32 { bits: THRESHOLD_VOLTAGE_V },
            voltage_enabled: true,
            current_a: Binary32 { bits: THRESHOLD_CURRENT_A },
            real_power_w: Binary32 { bits: THRESHOLD_REAL_POWER_W },
            apparent_power_va: Binary32 { bits: THRESHOLD_APPARENT_POWER_VA },
            reactive_power_var: Binary32 { bits: THRESHOLD_REACTIVE_POWER_VAR },
            cos_phi: Binary32 { bits: THRESHOLD_COS_PHI },
            thd_voltage_pct: Binary32 { bits: THRESHOLD_THD_VOLTAGE_PCT },
            thd_voltage_enabled: true,
            thd_current_pct: Binary32 { bits: THRESHOLD_THD_CURRENT_PCT },
            thd_current_enabled: true,
        }
    }
}

/// What a setting becomes under an adjustment that may leave it out.
pub open spec fn adjusted<T>(current: T, adjustment: Option<T>) -> T {
    match adjustment {
        Some(value) => value,
        None => current,
    }
}

impl ActiveThresholds {
    /// The thresholds after an adjustment.
    pub open spec fn adjusted_by(self, config: ClientThresholdConfig) -> ActiveThresholds {
        ActiveThresholds {
            voltage_enabled: adjusted(self.voltage_enabled, config.voltage_enabled),
            voltage_v: adjusted(self.voltage_v, config.voltage_step_v),
            frequency_enabled: adjusted(self.frequency_enabled, config.frequency_enabled),
            frequency_hz: adjusted(self.frequency_hz, config.frequency_step_hz),
            thd_voltage_enabled: adjusted(self.thd_voltage_enabled, config.thd_voltage_enabled),
            thd_voltage_pct: adjusted(self.thd_voltage_pct, config.thd_voltage_step_pct),
            thd_current_enabled: adjusted(self.thd_current_enabled, config.thd_current_enabled),
            thd_current_pct: adjusted(self.thd_current_pct, config.thd_current_step_pct),
            ..self
        }
    }

    /// Applies an adjustment pushed by the receiver.  Only what it names is
    /// changed.
    pub fn apply_config(&mut self, config: &ClientThresholdConfig)
        ensures
            *final(self) == old(self).adjusted_by(*config),
    {
        if let Some(enabled) = config.voltage_enabled {
            self.voltage_enabled = enabled;
        }
        if let Some(step) = config.voltage_step_v {
            self.voltage_v = step;
        }
        if let Some(enabled) = config.frequency_enabled {
            self.frequency_enabled = enabled;
        }
        if let Some(step) = config.frequency_step_hz {
            self.frequency_hz = step;
        }
        if let Some(enabled) = config.thd_voltage_enabled {
            self.thd_voltage_enabled = enabled;
        }
        if let Some(step) = config.thd_voltage_step_pct {
            self.thd_voltage_pct = step;
        }
        if let Some(enabled) = config.thd_current_enabled {
            self.thd_current_enabled = enabled;
        }
        if let Some(step) = config.thd_current_step_pct {
            self.thd_current_pct = step;
        }
    }
}

/// The values whose movement makes a reading worth sending.
///
/// The energy counters are left out: they only ever climb, so every reading
/// would look like a change.
#[derive(Clone, Copy, Debug)]
pub struct BaselineReading {
    pub frequency: Binary32,
    pub voltage: Phases,
    pub current: Phases,
    pub real_power: Phases,
    pub real_power_sum3: Binary32,
    pub apparent_power_sum3: Binary32,
    pub reactive_power_sum3: Binary32,
    pub cos_phi: Phases,
    pub thd_voltage: Phases,
    pub thd_current: Phases,
}

/// The value moved by more than the threshold.
pub open spec fn moved(old: Binary32, new: Binary32, threshold: Binary32) -> bool {
    threshold.below(new.difference(old).absolute_value())
}

/// The value of some phase moved by more than the threshold.
pub open spec fn moved_in_a_phase(old: Phases, new: Phases, threshold: Binary32) -> bool {
    ||| moved(old[0], new[0], threshold)
    ||| moved(old[1], new[1], threshold)
    ||| moved(old[2], new[2], threshold)
}

/// Whether a value moved far enough to count as a change.  A value that the
/// meter could not determine never counts as one.
pub fn exceeds(old: Binary32, new: Binary32, threshold: Binary32) -> (changed: bool)
    ensures
        changed == moved(old, new, threshold),
{
    threshold.lt(new.minus(old).abs())
}

/// Whether any single phase of a quantity moved far enough to count as a
/// change.
pub fn exceeds_any_phase(old: Phases, new: Phases, threshold: Binary32) -> (changed: bool)
    ensures
        changed == moved_in_a_phase(old, new, threshold),
{
    exceeds(old[0], new[0], threshold) || exceeds(old[1], new[1], threshold) || exceeds(
        old[2],
        new[2],
        threshold,
    )
}

/// The part of a snapshot that counts for changes.
pub open spec fn baseline_of(snapshot: Snapshot) -> BaselineReading {
    BaselineReading {
        frequency: snapshot.frequency,
        voltage: snapshot.voltage,
        current: snapshot.current,
        real_power: snapshot.real_power,
        real_power_sum3: snapshot.real_power_sum3,
        apparent_power_sum3: snapshot.apparent_power_sum3,
        reactive_power_sum3: snapshot.reactive_power_sum3,
        cos_phi: snapshot.cos_phi,
        thd_voltage: snapshot.thd_voltage,
        thd_current: snapshot.thd_current,
    }
}

impl BaselineReading {
    pub fn from_snapshot(snapshot: &Snapshot) -> (reading: BaselineReading)
        ensures
            reading == baseline_of(*snapshot),
    {
        BaselineReading {
            frequency: snapshot.frequency,
            voltage: snapshot.voltage,
            current: snapshot.current,
            real_power: snapshot.real_power,
            real_power_sum3: snapshot.real_power_sum3,
            apparent_power_sum3: snapshot.apparent_power_sum3,
            reactive_power_sum3: snapshot.reactive_power_sum3,
            cos_phi: snapshot.cos_phi,
            thd_voltage: snapshot.thd_voltage,
            thd_current: snapshot.thd_current,
        }
    }

    /// Some watched value of `new` lies outside the noise around this reading.
    pub open spec fn differs(self, new: BaselineReading, thresholds: ActiveThresholds) -> bool {
        ||| thresholds.frequency_enabled && moved(
            self.frequency,
            new.frequency,
            thresholds.frequency_hz,
        )
        ||| moved(
            self.real_power_sum3,
            new.real_power_sum3,
            Binary32 { bits: THRESHOLD_REAL_POWER_SUM_W },
        )
        ||| moved(
            self.apparent_power_sum3,
            new.apparent_power_sum3,
            Binary32 { bits: THRESHOLD_APPARENT_POWER_SUM_VA },
        )
        ||| moved(
            self.reactive_power_sum3,
            new.reactive_power_sum3,
            Binary32 { bits: THRESHOLD_REACTIVE_POWER_SUM_VAR },
        )
        ||| thresholds.voltage_enabled && moved_in_a_phase(
            self.voltage,
            new.voltage,
            thresholds.voltage_v,
        )
        ||| moved_in_a_phase(self.current, new.current, thresholds.current_a)
        ||| moved_in_a_phase(self.real_power, new.real_power, thresholds.real_power_w)
        ||| moved_in_a_phase(self.cos_phi, new.cos_phi, thresholds.cos_phi)
        ||| thresholds.thd_voltage_enabled && moved_in_a_phase(
            self.thd_voltage,
            new.thd_voltage,
            thresholds.thd_voltage_pct,
        )
        ||| thresholds.thd_current_enabled && moved_in_a_phase(
            self.thd_current,
            new.thd_current,
            thresholds.thd_current_pct,
        )
    }

    /// Whether a later reading lies outside the noise around this one.
    pub fn exceeds_threshold(&self, new: &BaselineReading, thresholds: &ActiveThresholds) -> (changed:
        bool)
        ensures
            changed == self.differs(*new, *thresholds),
    {
        (thresholds.frequency_enabled && exceeds(
            self.frequency,
            new.frequency,
            thresholds.frequency_hz,
        )) || exceeds(
            self.real_power_sum3,
            new.real_power_sum3,
            Binary32 { bits: THRESHOLD_REAL_POWER_SUM_W },
        ) || exceeds(
            self.apparent_power_sum3,
            new.apparent_power_sum3,
            Binary32 { bits: THRESHOLD_APPARENT_POWER_SUM_VA },
        ) || exceeds(
            self.reactive_power_sum3,
            new.reactive_power_sum3,
            Binary32 { bits: THRESHOLD_REACTIVE_POWER_SUM_VAR },
        ) || (thresholds.voltage_enabled && exceeds_any_phase(
            self.voltage,
            new.voltage,
            thresholds.voltage_v,
        )) || exceeds_any_phase(self.current, new.current, thresholds.current_a)
            || exceeds_any_phase(self.real_power, new.real_power, thresholds.real_power_w)
            || exceeds_any_phase(self.cos_phi, new.cos_phi, thresholds.cos_phi) || (
        thresholds.thd_voltage_enabled && exceeds_any_phase(
            self.thd_voltage,
            new.thd_voltage,
            thresholds.thd_voltage_pct,
        )) || (thresholds.thd_current_enabled && exceeds_any_phase(
            self.thd_current,
            new.thd_current,
            thresholds.thd_current_pct,
        ))
    }
}

/// A level that differs from the baseline and may become the next one.
#[derive(Clone, Copy, Debug)]
pub struct SettlingCandidate {
    pub reading: BaselineReading,
    pub first_seen: Moment,
}

/// Waits for a changed level to settle before it counts as a change.
#[derive(Clone, Copy, Debug)]
pub struct SettledMonitor {
    pub settling_window: Span,
    pub settling_enabled: bool,
    pub baseline: Option<BaselineReading>,
    pub candidate: Option<SettlingCandidate>,
}

impl SettledMonitor {
    pub fn new(settling_window: Span) -> (monitor: SettledMonitor)
        ensures
            monitor == (SettledMonitor {
                settling_window,
                settling_enabled: true,
                baseline: None,
                candidate: None,
            }),
    {
        SettledMonitor { settling_window, settling_enabled: true, baseline: None, candidate: None }
    }

    /// Whether a reading has left the baseline but has not settled yet.
    pub fn is_settling(&self) -> (settling: bool)
        ensures
            settling == (self.candidate is Some),
    {
        self.candidate.is_some()
    }

    /// Changes the settling window, or switches settling off.  A level that was
    /// settling starts over.
    pub fn update_settling(&mut self, secs: Option<u64>)
        ensures
            final(self).settling_enabled == (secs is Some),
            final(self).settling_window.nanos == match secs {
                Some(secs) => (secs * NANOS_PER_SEC) as u128,
                None => old(self).settling_window.nanos,
            },
            final(self).candidate is None,
            final(self).baseline == old(self).baseline,
    {
        match secs {
            None => {
                self.settling_enabled = false;
            },
            Some(secs) => {
                self.settling_enabled = true;
                self.settling_window = Span::from_secs(secs);
            },
        }
        self.candidate = None;
    }

    /// The level in question has been stable for the whole window.
    pub open spec fn has_settled(
        self,
        current: BaselineReading,
        now: Moment,
        thresholds: ActiveThresholds,
    ) -> bool {
        self.candidate matches Some(candidate) && !candidate.reading.differs(current, thresholds)
            && now.elapsed_since(candidate.first_seen) >= self.settling_window.nanos
    }

    /// The level in question goes on.
    pub open spec fn goes_on(self, current: BaselineReading, thresholds: ActiveThresholds) -> bool {
        self.candidate matches Some(candidate) && !candidate.reading.differs(current, thresholds)
    }

    /// The monitor after a reading, and whether the reading is to be recorded.
    pub open spec fn after(
        self,
        current: BaselineReading,
        now: Moment,
        thresholds: ActiveThresholds,
    ) -> (SettledMonitor, bool) {
        match self.baseline {
            None => (SettledMonitor { baseline: Some(current), ..self }, true),
            Some(base) => if !base.differs(current, thresholds) {
                (SettledMonitor { candidate: None, ..self }, false)
            } else if !self.settling_enabled {
                (SettledMonitor { baseline: Some(current), ..self }, true)
            } else if self.has_settled(current, now, thresholds) {
                (SettledMonitor { baseline: Some(current), candidate: None, ..self }, true)
            } else if self.goes_on(current, thresholds) {
                (self, false)
            } else {
                (
                    SettledMonitor {
                        candidate: Some(SettlingCandidate { reading: current, first_seen: now }),
                        ..self
                    },
                    false,
                )
            },
        }
    }

    /// Takes a reading, and says whether it is to be recorded as the new
    /// baseline.
    pub fn process_reading(
        &mut self,
        current: BaselineReading,
        now: Moment,
        thresholds: &ActiveThresholds,
    ) -> (recorded: bool)
        ensures
            (*final(self), recorded) == old(self).after(current, now, *thresholds),
    {
        let base: BaselineReading = match self.baseline {
            Some(base) => base,
            None => {
                self.baseline = Some(current);
                return true;
            },
        };
        if !base.exceeds_threshold(&current, thresholds) {
            self.candidate = None;
            return false;
        }
        if !self.settling_enabled {
            self.baseline = Some(current);
            return true;
        }
        if let Some(candidate) = self.candidate {
            if !candidate.reading.exceeds_threshold(&current, thresholds) {
                if now.since(candidate.first_seen).nanos >= self.settling_window.nanos {
                    self.baseline = Some(current);
                    self.candidate = None;
                    return true;
                }
                return false;
            }
        }
        self.candidate = Some(SettlingCandidate { reading: current, first_seen: now });
        false
    }
}

/// The heartbeat asks for a reading now.
pub open spec fn heartbeat_due(
    heartbeat: Option<Span>,
    last_recorded: Option<Moment>,
    now: Moment,
) -> bool {
    heartbeat matches Some(interval) && match last_recorded {
        Some(last) => now.elapsed_since(last) >= interval.nanos,
        None => true,
    }
}

/// Whether a reading is worth recording and sending: a settled change always
/// is, and so is the occasional reading while nothing changes, because silence
/// cannot be told from a gateway that has fallen over.
pub fn should_record(
    changed: bool,
    heartbeat: Option<Span>,
    last_recorded: Option<Moment>,
    now: Moment,
) -> (record: bool)
    ensures
        record == (changed || heartbeat_due(heartbeat, last_recorded, now)),
{
    if changed {
        return true;
    }
    match heartbeat {
        Some(interval) => match last_recorded {
            Some(last) => now.since(last).nanos >= interval.nanos,
            None => true,
        },
        None => false,
    }
}

/// A comparison with a value that the meter could not determine is never a
/// change.
pub proof fn lemma_unknown_values_never_change(old: Binary32, new: Binary32, threshold: Binary32)
    requires
        old.nan() || new.nan(),
    ensures
        !moved(old, new, threshold),
{
    assert(old.opposite().nan() == old.nan());
}

/// A value that stayed where it was has not changed, whatever the threshold.
pub proof fn lemma_same_value_is_no_change(value: Binary32, threshold: Binary32)
    requires
        !threshold.negative(),
    ensures
        !moved(value, value, threshold),
{
    assert(value.opposite().magnitude() == value.magnitude());
    assert(value.opposite().negative() != value.negative());
    if value.finite() {
        assert(value.units() + value.opposite().units() == 0);
    }
}

/// Thresholds that a reading cannot fall short of.
pub open spec fn nonnegative(thresholds: ActiveThresholds) -> bool {
    &&& !thresholds.frequency_hz.negative()
    &&& !thresholds.voltage_v.negative()
    &&& !thresholds.current_a.negative()
    &&& !thresholds.real_power_w.negative()
    &&& !thresholds.cos_phi.negative()
    &&& !thresholds.thd_voltage_pct.negative()
    &&& !thresholds.thd_current_pct.negative()
}

/// An installation where nothing moves produces no change, even where the meter
/// cannot determine every value.
pub proof fn lemma_steady_reading_is_quiet(reading: BaselineReading, thresholds: ActiveThresholds)
    requires
        nonnegative(thresholds),
    ensures
        !reading.differs(reading, thresholds),
{
    lemma_same_value_is_no_change(reading.frequency, thresholds.frequency_hz);
    lemma_same_value_is_no_change(
        reading.real_power_sum3,
        Binary32 { bits: THRESHOLD_REAL_POWER_SUM_W },
    );
    lemma_same_value_is_no_change(
        reading.apparent_power_sum3,
        Binary32 { bits: THRESHOLD_APPARENT_POWER_SUM_VA },
    );
    lemma_same_value_is_no_change(
        reading.reactive_power_sum3,
        Binary32 { bits: THRESHOLD_REACTIVE_POWER_SUM_VAR },
    );
    assert forall|phase: int| 0 <= phase < 3 implies !moved(
        #[trigger] reading.voltage[phase],
        reading.voltage[phase],
        thresholds.voltage_v,
    ) by {
        lemma_same_value_is_no_change(reading.voltage[phase], thresholds.voltage_v);
    }
    assert forall|phase: int| 0 <= phase < 3 implies !moved(
        #[trigger] reading.current[phase],
        reading.current[phase],
        thresholds.current_a,
    ) by {
        lemma_same_value_is_no_change(reading.current[phase], thresholds.current_a);
    }
    assert forall|phase: int| 0 <= phase < 3 implies !moved(
        #[trigger] reading.real_power[phase],
        reading.real_power[phase],
        thresholds.real_power_w,
    ) by {
        lemma_same_value_is_no_change(reading.real_power[phase], thresholds.real_power_w);
    }
    assert forall|phase: int| 0 <= phase < 3 implies !moved(
        #[trigger] reading.cos_phi[phase],
        reading.cos_phi[phase],
        thresholds.cos_phi,
    ) by {
        lemma_same_value_is_no_change(reading.cos_phi[phase], thresholds.cos_phi);
    }
    assert forall|phase: int| 0 <= phase < 3 implies !moved(
        #[trigger] reading.thd_voltage[phase],
        reading.thd_voltage[phase],
        thresholds.thd_voltage_pct,
    ) by {
        lemma_same_value_is_no_change(reading.thd_voltage[phase], thresholds.thd_voltage_pct);
    }
    assert forall|phase: int| 0 <= phase < 3 implies !moved(
        #[trigger] reading.thd_current[phase],
        reading.thd_current[phase],
        thresholds.thd_current_pct,
    ) by {
        lemma_same_value_is_no_change(reading.thd_current[phase], thresholds.thd_current_pct);
    }
}

/// What counts as noise unless the gateway is told otherwise: 0.2 Hz, 1.5 V,
/// 0.06 A, 4 W, a power factor of 0.08, and distortions of 1 % and 15 %, with
/// nothing switched off.
pub proof fn lemma_default_noise()
    ensures
        ({
            let thresholds = default_thresholds();
            &&& thresholds.frequency_hz.bits == 0x3e4c_cccd && thresholds.frequency_enabled
            &&& thresholds.voltage_v.bits == 0x3fc0_0000 && thresholds.voltage_enabled
            &&& thresholds.current_a.bits == 0x3d75_c28f
            &&& thresholds.real_power_w.bits == 0x4080_0000
            &&& thresholds.apparent_power_va.bits == 0x4100_0000
            &&& thresholds.reactive_power_var.bits == 0x4040_0000
            &&& thresholds.cos_phi.bits == 0x3da3_d70a
            &&& thresholds.thd_voltage_pct.bits == 0x3f80_0000 && thresholds.thd_voltage_enabled
            &&& thresholds.thd_current_pct.bits == 0x4170_0000 && thresholds.thd_current_enabled
        }),
{
}

/// The two values differ by more than a limit.
pub open spec fn apart(a: Binary32, b: Binary32, limit: Binary32) -> bool {
    limit.below(b.difference(a).absolute_value())
}

/// Every phase counts for itself: a quantity that moved by more than its
/// threshold on any one of the three phases makes the reading a change, unless
/// the quantity is switched off.
#[verifier::rlimit(40)]
pub proof fn lemma_a_move_on_any_phase_is_a_change(
    base: BaselineReading,
    new: BaselineReading,
    thresholds: ActiveThresholds,
    phase: int,
)
    requires
        0 <= phase < 3,
    ensures
        thresholds.voltage_enabled && apart(
            base.voltage[phase],
            new.voltage[phase],
            thresholds.voltage_v,
        ) ==> base.differs(new, thresholds),
        apart(base.current[phase], new.current[phase], thresholds.current_a) ==> base.differs(
            new,
            thresholds,
        ),
        apart(base.real_power[phase], new.real_power[phase], thresholds.real_power_w)
            ==> base.differs(new, thresholds),
        apart(base.cos_phi[phase], new.cos_phi[phase], thresholds.cos_phi) ==> base.differs(
            new,
            thresholds,
        ),
        thresholds.thd_voltage_enabled && apart(
            base.thd_voltage[phase],
            new.thd_voltage[phase],
            thresholds.thd_voltage_pct,
        ) ==> base.differs(new, thresholds),
        thresholds.thd_current_enabled && apart(
            base.thd_current[phase],
            new.thd_current[phase],
            thresholds.thd_current_pct,
        ) ==> base.differs(new, thresholds),
{
    assert(phase == 0 || phase == 1 || phase == 2);
}

/// The frequency and the three-phase sums count once: 12 W, 24 VA and 9 var are
/// the noise of the sums, whatever the thresholds in force.
pub proof fn lemma_a_move_of_a_sum_is_a_change(
    base: BaselineReading,
    new: BaselineReading,
    thresholds: ActiveThresholds,
)
    ensures
        thresholds.frequency_enabled && apart(
            base.frequency,
            new.frequency,
            thresholds.frequency_hz,
        ) ==> base.differs(new, thresholds),
        apart(base.real_power_sum3, new.real_power_sum3, Binary32 { bits: 0x4140_0000 })
            ==> base.differs(new, thresholds),
        apart(base.apparent_power_sum3, new.apparent_power_sum3, Binary32 { bits: 0x41c0_0000 })
            ==> base.differs(new, thresholds),
        apart(base.reactive_power_sum3, new.reactive_power_sum3, Binary32 { bits: 0x4110_0000 })
            ==> base.differs(new, thresholds),
{
}

/// A reading none of whose watched values moved by more than its threshold is
/// no change, whatever the values that are switched off did.
#[verifier::rlimit(40)]
pub proof fn lemma_a_change_is_a_move_of_something_watched(
    base: BaselineReading,
    new: BaselineReading,
    thresholds: ActiveThresholds,
)
    requires
        thresholds.frequency_enabled ==> !apart(
            base.frequency,
            new.frequency,
            thresholds.frequency_hz,
        ),
        !apart(base.real_power_sum3, new.real_power_sum3, Binary32 { bits: 0x4140_0000 }),
        !apart(base.apparent_power_sum3, new.apparent_power_sum3, Binary32 { bits: 0x41c0_0000 }),
        !apart(base.reactive_power_sum3, new.reactive_power_sum3, Binary32 { bits: 0x4110_0000 }),
        thresholds.voltage_enabled ==> forall|phase: int|
            0 <= phase < 3 ==> !apart(
                #[trigger] base.voltage[phase],
                new.voltage[phase],
                thresholds.voltage_v,
            ),
        forall|phase: int|
            0 <= phase < 3 ==> !apart(
                #[trigger] base.current[phase],
                new.current[phase],
                thresholds.current_a,
            ),
        forall|phase: int|
            0 <= phase < 3 ==> !apart(
                #[trigger] base.real_power[phase],
                new.real_power[phase],
                thresholds.real_power_w,
            ),
        forall|phase: int|
            0 <= phase < 3 ==> !apart(
                #[trigger] base.cos_phi[phase],
                new.cos_phi[phase],
                thresholds.cos_phi,
            ),
        thresholds.thd_voltage_enabled ==> forall|phase: int|
            0 <= phase < 3 ==> !apart(
                #[trigger] base.thd_voltage[phase],
                new.thd_voltage[phase],
                thresholds.thd_voltage_pct,
            ),
        thresholds.thd_current_enabled ==> forall|phase: int|
            0 <= phase < 3 ==> !apart(
                #[trigger] base.thd_current[phase],
                new.thd_current[phase],
                thresholds.thd_current_pct,
            ),
    ensures
        !base.differs(new, thresholds),
{
}

/// What a snapshot is judged by is what the meter read, phase for phase.
pub proof fn lemma_a_baseline_keeps_the_phases(snapshot: Snapshot, phase: int)
    requires
        0 <= phase < 3,
    ensures
        ({
            let reading = baseline_of(snapshot);
            &&& reading.voltage[phase] == snapshot.voltage[phase]
            &&& reading.current[phase] == snapshot.current[phase]
            &&& reading.real_power[phase] == snapshot.real_power[phase]
            &&& reading.cos_phi[phase] == snapshot.cos_phi[phase]
            &&& reading.thd_voltage[phase] == snapshot.thd_voltage[phase]
            &&& reading.thd_current[phase] == snapshot.thd_current[phase]
            &&& reading.frequency == snapshot.frequency
            &&& reading.real_power_sum3 == snapshot.real_power_sum3
            &&& reading.apparent_power_sum3 == snapshot.apparent_power_sum3
            &&& reading.reactive_power_sum3 == snapshot.reactive_power_sum3
        }),
{
}

/// An adjustment changes what it names and nothing else.
pub proof fn lemma_an_adjustment_changes_what_it_names(
    thresholds: ActiveThresholds,
    config: ClientThresholdConfig,
)
    ensures
        ({
            let after = thresholds.adjusted_by(config);
            &&& after.voltage_v == if config.voltage_step_v is Some {
                config.voltage_step_v->0
            } else {
                thresholds.voltage_v
            }
            &&& after.frequency_hz == if config.frequency_step_hz is Some {
                config.frequency_step_hz->0
            } else {
                thresholds.frequency_hz
            }
            &&& after.thd_voltage_pct == if config.thd_voltage_step_pct is Some {
                config.thd_voltage_step_pct->0
            } else {
                thresholds.thd_voltage_pct
            }
            &&& after.thd_current_pct == if config.thd_current_step_pct is Some {
                config.thd_current_step_pct->0
            } else {
                thresholds.thd_current_pct
            }
            &&& after.voltage_enabled == if config.voltage_enabled is Some {
                config.voltage_enabled->0
            } else {
                thresholds.voltage_enabled
            }
            &&& after.frequency_enabled == if config.frequency_enabled is Some {
                config.frequency_enabled->0
            } else {
                thresholds.frequency_enabled
            }
            &&& after.thd_voltage_enabled == if config.thd_voltage_enabled is Some {
                config.thd_voltage_enabled->0
            } else {
                thresholds.thd_voltage_enabled
            }
            &&& after.thd_current_enabled == if config.thd_current_enabled is Some {
                config.thd_current_enabled->0
            } else {
                thresholds.thd_current_enabled
            }
            &&& after.current_a == thresholds.current_a
            &&& after.real_power_w == thresholds.real_power_w
            &&& after.apparent_power_va == thresholds.apparent_power_va
            &&& after.reactive_power_var == thresholds.reactive_power_var
            &&& after.cos_phi == thresholds.cos_phi
        }),
{
}

/// The baseline is always the reading recorded last: a recorded reading becomes
/// the baseline, and one that is not recorded leaves it alone.
pub proof fn lemma_the_baseline_is_what_was_recorded(
    monitor: SettledMonitor,
    current: BaselineReading,
    now: Moment,
    thresholds: ActiveThresholds,
)
    ensures
        ({
            let (next, recorded) = monitor.after(current, now, thresholds);
            &&& recorded ==> next.baseline == Some(current)
            &&& !recorded ==> next.baseline == monitor.baseline
            &&& next.settling_window == monitor.settling_window
            &&& next.settling_enabled == monitor.settling_enabled
            &&& monitor.baseline is None ==> recorded
            &&& recorded && monitor.baseline is Some ==> monitor.baseline->0.differs(
                current,
                thresholds,
            )
            &&& monitor.baseline is Some && !monitor.settling_enabled ==> (recorded
                <==> monitor.baseline->0.differs(current, thresholds))
        }),
{
}

/// A heartbeat is owed once the interval has passed since the last record, and
/// at once where nothing was recorded yet; without a heartbeat none ever is.
pub proof fn lemma_a_heartbeat_is_owed_after_its_interval(interval: Span, last: Moment, now: Moment)
    requires
        last.nanos <= now.nanos,
    ensures
        heartbeat_due(Some(interval), Some(last), now) <==> now.nanos >= last.nanos
            + interval.nanos,
        heartbeat_due(Some(interval), None, now),
        !heartbeat_due(None, Some(last), now),
        !heartbeat_due(None, None, now),
{
}

/// The monitor after several readings.
pub open spec fn after_all(
    monitor: SettledMonitor,
    readings: Seq<(BaselineReading, Moment)>,
    thresholds: ActiveThresholds,
) -> SettledMonitor
    decreases readings.len(),
{
    if readings.len() == 0 {
        monitor
    } else {
        after_all(monitor, readings.drop_last(), thresholds).after(
            readings.last().0,
            readings.last().1,
            thresholds,
        ).0
    }
}

/// Whether the reading at a place of the series is recorded.
pub open spec fn recorded_at(
    monitor: SettledMonitor,
    readings: Seq<(BaselineReading, Moment)>,
    thresholds: ActiveThresholds,
    index: int,
) -> bool {
    after_all(monitor, readings.take(index), thresholds).after(
        readings[index].0,
        readings[index].1,
        thresholds,
    ).1
}

/// However the level moves, nothing is recorded, and the baseline stays, before
/// a whole settling window has passed since the level first left the baseline.
pub proof fn lemma_transients_are_not_recorded(
    monitor: SettledMonitor,
    readings: Seq<(BaselineReading, Moment)>,
    thresholds: ActiveThresholds,
    start: Moment,
    index: int,
)
    requires
        monitor.baseline is Some,
        monitor.candidate is None,
        monitor.settling_enabled,
        forall|i: int|
            0 <= i < readings.len() ==> start.nanos <= (#[trigger] readings[i]).1.nanos < start.nanos
                + monitor.settling_window.nanos,
        0 <= index < readings.len(),
    ensures
        !recorded_at(monitor, readings, thresholds, index),
        after_all(monitor, readings, thresholds).baseline == monitor.baseline,
{
    lemma_transient_state(monitor, readings.take(index), thresholds, start);
    lemma_transient_state(monitor, readings, thresholds, start);
}

proof fn lemma_transient_state(
    monitor: SettledMonitor,
    readings: Seq<(BaselineReading, Moment)>,
    thresholds: ActiveThresholds,
    start: Moment,
)
    requires
        monitor.baseline is Some,
        monitor.candidate is None,
        monitor.settling_enabled,
        forall|i: int|
            0 <= i < readings.len() ==> start.nanos <= (#[trigger] readings[i]).1.nanos < start.nanos
                + monitor.settling_window.nanos,
    ensures
        ({
            let state = after_all(monitor, readings, thresholds);
            &&& state.baseline == monitor.baseline
            &&& state.settling_enabled
            &&& state.settling_window == monitor.settling_window
            &&& state.candidate matches Some(candidate) ==> candidate.first_seen.nanos
                >= start.nanos
        }),
    decreases readings.len(),
{
    if readings.len() > 0 {
        let earlier = readings.drop_last();
        assert forall|i: int| 0 <= i < earlier.len() implies start.nanos <= (
        #[trigger] earlier[i]).1.nanos < start.nanos + monitor.settling_window.nanos by {
            assert(earlier[i] == readings[i]);
        }
        lemma_transient_state(monitor, earlier, thresholds, start);
        assert(readings[readings.len() - 1] == readings.last());
    }
}

/// A level that left the baseline and stays is recorded with the first reading
/// that comes a whole window after the level was first seen, and with none
/// before.
#[verifier::rlimit(40)]
pub proof fn lemma_a_level_is_recorded_when_its_window_ends(
    monitor: SettledMonitor,
    readings: Seq<(BaselineReading, Moment)>,
    thresholds: ActiveThresholds,
    index: int,
)
    requires
        monitor.settling_enabled,
        monitor.baseline is Some,
        monitor.candidate is None,
        0 < index < readings.len(),
        forall|i: int|
            0 <= i <= index ==> monitor.baseline->0.differs(
                (#[trigger] readings[i]).0,
                thresholds,
            ),
        forall|i: int|
            0 < i <= index ==> !readings[0].0.differs((#[trigger] readings[i]).0, thresholds),
        forall|i: int|
            0 < i < index ==> readings[0].1.nanos <= (#[trigger] readings[i]).1.nanos
                < readings[0].1.nanos + monitor.settling_window.nanos,
        readings[0].1.nanos <= readings[index].1.nanos,
    ensures
        recorded_at(monitor, readings, thresholds, index) <==> readings[index].1.nanos
            >= readings[0].1.nanos + monitor.settling_window.nanos,
{
    lemma_a_level_goes_on(monitor, readings.take(index), thresholds);
}

#[verifier::rlimit(40)]
proof fn lemma_a_level_goes_on(
    monitor: SettledMonitor,
    readings: Seq<(BaselineReading, Moment)>,
    thresholds: ActiveThresholds,
)
    requires
        monitor.settling_enabled,
        monitor.baseline is Some,
        monitor.candidate is None,
        readings.len() > 0,
        forall|i: int|
            0 <= i < readings.len() ==> monitor.baseline->0.differs(
                (#[trigger] readings[i]).0,
                thresholds,
            ),
        forall|i: int|
            0 < i < readings.len() ==> !readings[0].0.differs(
                (#[trigger] readings[i]).0,
                thresholds,
            ),
        forall|i: int|
            0 < i < readings.len() ==> readings[0].1.nanos <= (#[trigger] readings[i]).1.nanos
                < readings[0].1.nanos + monitor.settling_window.nanos,
    ensures
        after_all(monitor, readings, thresholds) == (SettledMonitor {
            candidate: Some(
                SettlingCandidate { reading: readings[0].0, first_seen: readings[0].1 },
            ),
            ..monitor
        }),
    decreases readings.len(),
{
    let earlier = readings.drop_last();
    assert(readings.last() == readings[readings.len() - 1]);
    if earlier.len() == 0 {
        assert(after_all(monitor, earlier, thresholds) == monitor);
    } else {
        assert(forall|i: int| 0 <= i < earlier.len() ==> earlier[i] == #[trigger] readings[i]);
        lemma_a_level_goes_on(monitor, earlier, thresholds);
    }
}

/// A level that has stayed for the whole window is recorded, and is the
/// baseline from there on.
pub proof fn lemma_settled_change_is_recorded(
    monitor: SettledMonitor,
    current: BaselineReading,
    now: Moment,
    thresholds: ActiveThresholds,
)
    requires
        monitor.baseline matches Some(base) && base.differs(current, thresholds),
        monitor.settling_enabled,
        monitor.has_settled(current, now, thresholds),
    ensures
        monitor.after(current, now, thresholds).1,
        monitor.after(current, now, thresholds).0.baseline == Some(current),
        monitor.after(current, now, thresholds).0.candidate is None,
{
}

/// A reading back at the baseline ends what was settling; one at yet another
/// level starts a window of its own; one at the level that was settling leaves
/// its window running.
#[verifier::rlimit(40)]
pub proof fn lemma_each_level_has_its_own_window(
    monitor: SettledMonitor,
    current: BaselineReading,
    now: Moment,
    thresholds: ActiveThresholds,
)
    requires
        monitor.baseline is Some,
        monitor.settling_enabled,
    ensures
        ({
            let (next, recorded) = monitor.after(current, now, thresholds);
            let left = monitor.baseline->0.differs(current, thresholds);
            let same = monitor.candidate is Some && !monitor.candidate->0.reading.differs(
                current,
                thresholds,
            );
            let over = same && now.elapsed_since(monitor.candidate->0.first_seen)
                >= monitor.settling_window.nanos;
            &&& !left ==> next.candidate is None && !recorded
            &&& left && !same ==> !recorded && next.candidate == Some(
                SettlingCandidate { reading: current, first_seen: now },
            )
            &&& left && same && !over ==> !recorded && next.candidate == monitor.candidate
            &&& left && over ==> recorded && next.candidate is None
        }),
{
}

/// A level has to stay for two seconds unless the gateway is told otherwise.
pub proof fn lemma_default_window()
    ensures
        SETTLING_WINDOW_NANOS == 2_000_000_000,
{
}

} // verus!
