//! Decoding and validation of what a gateway sends.

use vstd::prelude::*;
use vstd::string::*;

use crate::binary32::Binary32;
use crate::json;
use crate::json::{as_number, find_either, source_of, Field, Found, Json, Shape, Source};
use crate::text;
use crate::text::{decimal, same_text};

verus! {

/// The measured values of one phase.  A value the meter could not determine is
/// absent.
#[derive(Clone, Copy, Debug, PartialEq, Eq, Structural)]
pub struct PhaseReading {
    pub voltage_v: Option<Binary32>,
    pub current_a: Option<Binary32>,
    pub real_power_w: Option<Binary32>,
    pub apparent_power_va: Option<Binary32>,
    pub reactive_power_var: Option<Binary32>,
    pub cos_phi: Option<Binary32>,
    pub real_energy_consumed_wh: Option<Binary32>,
    pub thd_voltage_pct: Option<Binary32>,
    pub thd_current_pct: Option<Binary32>,
}

/// The three-phase sums that the meter measures itself.
#[derive(Clone, Copy, Debug, PartialEq, Eq, Structural)]
pub struct TotalsReading {
    pub real_power_w: Option<Binary32>,
    pub apparent_power_va: Option<Binary32>,
    pub reactive_power_var: Option<Binary32>,
}

/// One reading.  Everything but the total power may be left out by a sender
/// that does not know it.
#[derive(Clone, Copy, Debug, PartialEq, Eq, Structural)]
pub struct MeterReading {
    /// Signed: a site that exports more than it draws reports a negative total.
    pub total_power: Binary32,
    pub systime: Option<i32>,
    /// Left out, unavailable, or a number: `None`, `Some(None)`, or the number.
    pub frequency_hz: Option<Option<Binary32>>,
    pub l1: Option<PhaseReading>,
    pub l2: Option<PhaseReading>,
    pub l3: Option<PhaseReading>,
    pub totals: Option<TotalsReading>,
    /// Marks a reading sent to keep the trend alive rather than for a settled
    /// change.
    pub heartbeat: bool,
}

/// Values that a reading written as a list has places for.
pub const READING_PLACES: usize = 8;

impl MeterReading {
    /// The grid frequency, where it is known.
    pub open spec fn grid_frequency(self) -> Option<Binary32> {
        match self.frequency_hz {
            Some(frequency) => frequency,
            None => None,
        }
    }

    /// The grid frequency, where it is known.
    pub fn frequency(&self) -> (frequency: Option<Binary32>)
        ensures
            frequency == self.grid_frequency(),
    {
        match self.frequency_hz {
            Some(frequency) => frequency,
            None => None,
        }
    }
}

/// A reading that carries nothing but the total power.
pub open spec fn power_only(total_power: Binary32) -> MeterReading {
    MeterReading {
        total_power,
        systime: None,
        frequency_hz: None,
        l1: None,
        l2: None,
        l3: None,
        totals: None,
        heartbeat: false,
    }
}

impl From<Binary32> for MeterReading {
    fn from(total_power: Binary32) -> (reading: MeterReading) {
        MeterReading {
            total_power,
            systime: None,
            frequency_hz: None,
            l1: None,
            l2: None,
            l3: None,
            totals: None,
            heartbeat: false,
        }
    }
}

impl vstd::std_specs::convert::FromSpecImpl<Binary32> for MeterReading {
    open spec fn obeys_from_spec() -> bool {
        true
    }

    open spec fn from_spec(total_power: Binary32) -> MeterReading {
        power_only(total_power)
    }
}

/// The members that a phase block has to have.
pub open spec fn phase_names() -> Seq<Seq<char>> {
    seq![
        "voltage_v"@,
        "current_a"@,
        "real_power_w"@,
        "apparent_power_va"@,
        "reactive_power_var"@,
        "cos_phi"@,
        "real_energy_consumed_wh"@,
        "thd_voltage_pct"@,
        "thd_current_pct"@,
    ]
}

/// The members that the block of sums has to have.
pub open spec fn totals_names() -> Seq<Seq<char>> {
    seq!["real_power_w"@, "apparent_power_va"@, "reactive_power_var"@]
}

/// What is said of a value that is not finite.
pub open spec fn not_finite(name: Seq<char>) -> Seq<char> {
    name + " must be finite"@
}

/// A measured value: a number, or `null` for one the meter could not determine.
/// Like everything read below, it is `None` where it is malformed.
pub open spec fn measured_value(value: Json) -> Option<Option<Binary32>> {
    match value {
        Json::Null => Some(None),
        _ => match json::number(value) {
            Some(number) => Some(Some(number)),
            None => None,
        },
    }
}

/// A measured value that a block has to have.
pub open spec fn block_value(shape: Shape, name: Seq<char>, place: int) -> Option<
    Option<Binary32>,
> {
    match shape.at(name, place) {
        Field::Present(value) => measured_value(value),
        _ => None,
    }
}

/// The measured values of a block in order.
pub open spec fn block_values(shape: Shape, names: Seq<Seq<char>>) -> Option<Seq<Option<Binary32>>>
    decreases names.len(),
{
    if names.len() == 0 {
        Some(Seq::empty())
    } else {
        match (
            block_values(shape, names.drop_last()),
            block_value(shape, names.last(), names.len() - 1),
        ) {
            (Some(values), Some(value)) => Some(values.push(value)),
            _ => None,
        }
    }
}

/// A block of measured values: an object with all of the names, or a list with a
/// value for each of them.
pub open spec fn block(value: Json, names: Seq<Seq<char>>) -> Option<Seq<Option<Binary32>>> {
    match json::shape_of(value) {
        Some(shape) => if shape.fits(names.len()) {
            block_values(shape, names)
        } else {
            None
        },
        None => None,
    }
}

pub open spec fn phase_from(values: Seq<Option<Binary32>>) -> PhaseReading {
    PhaseReading {
        voltage_v: values[0],
        current_a: values[1],
        real_power_w: values[2],
        apparent_power_va: values[3],
        reactive_power_var: values[4],
        cos_phi: values[5],
        real_energy_consumed_wh: values[6],
        thd_voltage_pct: values[7],
        thd_current_pct: values[8],
    }
}

pub open spec fn totals_from(values: Seq<Option<Binary32>>) -> TotalsReading {
    TotalsReading {
        real_power_w: values[0],
        apparent_power_va: values[1],
        reactive_power_var: values[2],
    }
}

/// A phase block, if there is one.
pub open spec fn phase_field(field: Field) -> Option<Option<PhaseReading>> {
    match field {
        Field::Absent => Some(None),
        Field::Repeated => None,
        Field::Present(value) => match block(value, phase_names()) {
            Some(values) => Some(Some(phase_from(values))),
            None => None,
        },
    }
}

/// The block of sums, if there is one.
pub open spec fn totals_field(field: Field) -> Option<Option<TotalsReading>> {
    match field {
        Field::Absent => Some(None),
        Field::Repeated => None,
        Field::Present(value) => match block(value, totals_names()) {
            Some(values) => Some(Some(totals_from(values))),
            None => None,
        },
    }
}

/// The total power, under its own name or one of the older ones.
pub open spec fn power_field(shape: Shape) -> Option<Binary32> {
    let field = json::either(
        json::either(shape.at("total_power"@, 0), shape.named("power"@)),
        json::either(shape.named("power_watts"@), shape.named("power_l1_n"@)),
    );
    match field {
        Field::Present(value) => json::number(value),
        _ => None,
    }
}

/// The meter's clock, if it is given: an integer of 32 bits.
pub open spec fn systime_field(field: Field) -> Option<Option<i32>> {
    match field {
        Field::Absent => Some(None),
        Field::Present(Json::Integer(number)) => if i32::MIN <= number <= i32::MAX {
            Some(Some(number as i32))
        } else {
            None
        },
        _ => None,
    }
}

/// The grid frequency, if it is given.
pub open spec fn frequency_field(field: Field) -> Option<Option<Option<Binary32>>> {
    match field {
        Field::Absent => Some(None),
        Field::Repeated => None,
        Field::Present(value) => match measured_value(value) {
            Some(frequency) => Some(Some(frequency)),
            None => None,
        },
    }
}

/// Whether the reading is a keepalive; it is not unless it says so.
pub open spec fn heartbeat_field(field: Field) -> Option<bool> {
    match field {
        Field::Absent => Some(false),
        Field::Present(Json::Bool(heartbeat)) => Some(heartbeat),
        _ => None,
    }
}

/// A reading before its values are looked at, if none of its members is missing,
/// malformed or there twice.  Members with other names are ignored.
#[verifier::opaque]
pub open spec fn typed_reading(shape: Shape) -> Option<MeterReading> {
    let power = power_field(shape);
    let systime = systime_field(shape.at("systime"@, 1));
    let frequency = frequency_field(shape.at("frequency_hz"@, 2));
    let l1 = phase_field(shape.at("l1"@, 3));
    let l2 = phase_field(shape.at("l2"@, 4));
    let l3 = phase_field(shape.at("l3"@, 5));
    let totals = totals_field(shape.at("totals"@, 6));
    let heartbeat = heartbeat_field(shape.at("heartbeat"@, 7));
    if shape.fits(READING_PLACES as nat) && power is Some && systime is Some && frequency is Some
        && l1 is Some && l2 is Some && l3 is Some && totals is Some && heartbeat is Some {
        Some(
            MeterReading {
                total_power: power->0,
                systime: systime->0,
                frequency_hz: frequency->0,
                l1: l1->0,
                l2: l2->0,
                l3: l3->0,
                totals: totals->0,
                heartbeat: heartbeat->0,
            },
        )
    } else {
        None
    }
}

/// The values of a phase block in order.
pub open spec fn phase_values(phase: PhaseReading) -> Seq<Option<Binary32>> {
    seq![
        phase.voltage_v,
        phase.current_a,
        phase.real_power_w,
        phase.apparent_power_va,
        phase.reactive_power_var,
        phase.cos_phi,
        phase.real_energy_consumed_wh,
        phase.thd_voltage_pct,
        phase.thd_current_pct,
    ]
}

/// The values of the block of sums in order.
pub open spec fn totals_values(totals: TotalsReading) -> Seq<Option<Binary32>> {
    seq![totals.real_power_w, totals.apparent_power_va, totals.reactive_power_var]
}

/// A value that is given is a finite number.
pub open spec fn finite_if_given(value: Option<Binary32>) -> bool {
    match value {
        Some(number) => number.finite(),
        None => true,
    }
}

/// The first value of a block that is not a finite number, if there is one.
pub open spec fn block_error(
    prefix: Seq<char>,
    names: Seq<Seq<char>>,
    values: Seq<Option<Binary32>>,
) -> Option<Seq<char>>
    decreases names.len(),
{
    if names.len() == 0 {
        None
    } else {
        match block_error(prefix, names.drop_last(), values) {
            Some(error) => Some(error),
            None => if finite_if_given(values[names.len() - 1]) {
                None
            } else {
                Some(not_finite(prefix + names.last()))
            },
        }
    }
}

pub open spec fn phase_error(prefix: Seq<char>, phase: Option<PhaseReading>) -> Option<Seq<char>> {
    match phase {
        Some(phase) => block_error(prefix, phase_names(), phase_values(phase)),
        None => None,
    }
}

pub open spec fn totals_error(totals: Option<TotalsReading>) -> Option<Seq<char>> {
    match totals {
        Some(totals) => block_error("totals."@, totals_names(), totals_values(totals)),
        None => None,
    }
}

/// The first of several errors, if there is any.
pub open spec fn first_of(first: Option<Seq<char>>, second: Option<Seq<char>>) -> Option<
    Seq<char>,
> {
    match first {
        Some(error) => Some(error),
        None => second,
    }
}

/// What is wrong with the values of a reading, if anything: each of them has to
/// be a finite number.
#[verifier::opaque]
pub open spec fn value_error(reading: MeterReading) -> Option<Seq<char>> {
    if !reading.total_power.finite() {
        Some("total power must be a finite number"@)
    } else if !finite_if_given(reading.grid_frequency()) {
        Some(not_finite("frequency_hz"@))
    } else {
        first_of(
            phase_error("l1."@, reading.l1),
            first_of(
                phase_error("l2."@, reading.l2),
                first_of(phase_error("l3."@, reading.l3), totals_error(reading.totals)),
            ),
        )
    }
}

/// The number that a legacy message spells out, if it spells out one.  The outer
/// `None` means that this is no legacy message: a string and nothing else.
pub open spec fn legacy_message(shape: Shape) -> Option<Option<Binary32>> {
    match shape {
        Shape::Members(members) => if members.len() == 1 && members[0].0@ == "message"@ {
            message_number(members[0].1)
        } else {
            None
        },
        Shape::Places(values) => if values.len() == 1 {
            message_number(values[0])
        } else {
            None
        },
    }
}

/// The number that a string spells out, if this is one.
pub open spec fn message_number(value: Json) -> Option<Option<Binary32>> {
    match value {
        Json::Text { text, number } => Some(number),
        _ => None,
    }
}

/// What a value of a request stands for.
pub enum Incoming {
    Reading(MeterReading),
    /// A legacy message, and the number it spells out, if it spells out one.
    Message(Option<Binary32>),
}

/// What a value stands for, if it stands for one reading.
pub open spec fn incoming(value: Json) -> Option<Incoming> {
    match json::shape_of(value) {
        Some(shape) => match typed_reading(shape) {
            Some(reading) => Some(Incoming::Reading(reading)),
            None => match legacy_message(shape) {
                Some(number) => Some(Incoming::Message(number)),
                None => None,
            },
        },
        None => None,
    }
}

/// What values stand for, if every one of them stands for a reading.
pub open spec fn all_incoming(values: Seq<Json>) -> Option<Seq<Incoming>>
    decreases values.len(),
{
    if values.len() == 0 {
        Some(Seq::empty())
    } else {
        match (all_incoming(values.drop_last()), incoming(values.last())) {
            (Some(earlier), Some(last)) => Some(earlier.push(last)),
            _ => None,
        }
    }
}

/// What a request stands for: one reading, or a batch of them.
pub open spec fn incoming_request(body: Json) -> Option<Seq<Incoming>> {
    match incoming(body) {
        Some(single) => Some(seq![single]),
        None => match body {
            Json::List(values) => all_incoming(values@),
            _ => None,
        },
    }
}

/// The reading, if its values can be accepted, or what is wrong with them.
pub open spec fn accepted(incoming: Incoming) -> Result<MeterReading, Seq<char>> {
    match incoming {
        Incoming::Message(None) => Err("message must contain a power value in watts"@),
        Incoming::Message(Some(total_power)) => match value_error(power_only(total_power)) {
            Some(error) => Err(error),
            None => Ok(power_only(total_power)),
        },
        Incoming::Reading(reading) => match value_error(reading) {
            Some(error) => Err(error),
            None => Ok(reading),
        },
    }
}

/// An error with the place of the reading it is about, counted from one.
pub open spec fn placed(index: int, error: Seq<char>) -> Seq<char> {
    "reading "@ + text::decimal_digits((index + 1) as nat) + ": "@ + error
}

/// The readings of a batch in order, or the first error with its place.
pub open spec fn accepted_batch(batch: Seq<Incoming>) -> Result<Seq<MeterReading>, Seq<char>>
    decreases batch.len(),
{
    if batch.len() == 0 {
        Ok(Seq::empty())
    } else {
        match accepted_batch(batch.drop_last()) {
            Err(error) => Err(error),
            Ok(readings) => match accepted(batch.last()) {
                Err(error) => Err(placed(batch.len() - 1, error)),
                Ok(reading) => Ok(readings.push(reading)),
            },
        }
    }
}

/// What is said of a request that stands for no readings.
pub const NO_READINGS: &'static str =
    "invalid meter-reading JSON: data did not match any variant of untagged enum IncomingReadings";

/// The readings of a request.  It has to stand for readings as a whole before
/// the values of any of them are looked at.
pub open spec fn decoded_request(body: Json) -> Result<Seq<MeterReading>, Seq<char>> {
    match incoming_request(body) {
        None => Err(NO_READINGS@),
        Some(batch) => if batch.len() == 0 {
            Err("measurement batch must not be empty"@)
        } else {
            accepted_batch(batch)
        },
    }
}

/// A reading with values that can be accepted is decoded as it is written.
pub proof fn lemma_a_single_reading_is_decoded(body: Json, reading: MeterReading)
    requires
        json::shape_of(body) matches Some(shape) && typed_reading(shape) == Some(reading),
        value_error(reading) is None,
    ensures
        decoded_request(body) == Ok::<Seq<MeterReading>, Seq<char>>(seq![reading]),
{
    let batch = seq![Incoming::Reading(reading)];
    reveal_with_fuel(accepted_batch, 2);
    assert(batch.drop_last() =~= Seq::<Incoming>::empty());
    assert(Seq::<MeterReading>::empty().push(reading) =~= seq![reading]);
}

fn read_measured(value: &Json) -> (result: Option<Option<Binary32>>)
    ensures
        result == measured_value(*value),
{
    match value {
        Json::Null => Some(None),
        _ => match as_number(value) {
            Some(number) => Some(Some(number)),
            None => None,
        },
    }
}

fn read_block_value(source: Source<'_>, name: &str, place: usize) -> (result: Option<
    Option<Binary32>,
>)
    ensures
        result == block_value(source.shape(), name@, place as int),
{
    match source.find(name, place) {
        Found::Present(value) => read_measured(value),
        _ => None,
    }
}

/// The texts of a list of names.
pub open spec fn name_texts(names: Seq<&'static str>) -> Seq<Seq<char>> {
    names.map_values(|name: &'static str| name@)
}

fn list_phase_names() -> (names: Vec<&'static str>)
    ensures
        name_texts(names@) == phase_names(),
{
    let names: Vec<&'static str> = vec![
        "voltage_v",
        "current_a",
        "real_power_w",
        "apparent_power_va",
        "reactive_power_var",
        "cos_phi",
        "real_energy_consumed_wh",
        "thd_voltage_pct",
        "thd_current_pct",
    ];
    assert(name_texts(names@) =~= phase_names());
    names
}

fn list_totals_names() -> (names: Vec<&'static str>)
    ensures
        name_texts(names@) == totals_names(),
{
    let names: Vec<&'static str> = vec!["real_power_w", "apparent_power_va", "reactive_power_var"];
    assert(name_texts(names@) =~= totals_names());
    names
}

/// A block that fails early fails.
proof fn lemma_block_failure_stays(shape: Shape, names: Seq<Seq<char>>, count: int)
    requires
        0 <= count <= names.len(),
        block_values(shape, names.take(count)) is None,
    ensures
        block_values(shape, names) is None,
    decreases names.len(),
{
    if count == names.len() {
        assert(names.take(count) =~= names);
    } else {
        assert(names.drop_last().take(count) =~= names.take(count));
        lemma_block_failure_stays(shape, names.drop_last(), count);
    }
}

fn read_block_values(source: Source<'_>, names: &Vec<&'static str>) -> (result: Option<
    Vec<Option<Binary32>>,
>)
    ensures
        match result {
            Some(values) => block_values(source.shape(), name_texts(names@)) == Some(values@)
                && values@.len() == names@.len(),
            None => block_values(source.shape(), name_texts(names@)) is None,
        },
{
    let mut values: Vec<Option<Binary32>> = Vec::new();
    let mut at: usize = 0;
    let ghost all = name_texts(names@);
    assert(all.take(0) =~= Seq::<Seq<char>>::empty());
    while at < names.len()
        invariant
            at <= names@.len(),
            all == name_texts(names@),
            values@.len() == at,
            block_values(source.shape(), all.take(at as int)) == Some(values@),
        decreases names@.len() - at,
    {
        assert(all.take(at + 1).drop_last() =~= all.take(at as int));
        assert(all.take(at + 1).last() == names@[at as int]@);
        match read_block_value(source, names[at], at) {
            Some(value) => {
                values.push(value);
            },
            None => {
                proof {
                    lemma_block_failure_stays(source.shape(), all, at + 1);
                }
                return None;
            },
        }
        at = at + 1;
    }
    assert(all.take(at as int) =~= all);
    Some(values)
}

fn read_block(value: &Json, names: &Vec<&'static str>) -> (result: Option<Vec<Option<Binary32>>>)
    ensures
        match result {
            Some(values) => block(*value, name_texts(names@)) == Some(values@) && values@.len()
                == names@.len(),
            None => block(*value, name_texts(names@)) is None,
        },
{
    assert(name_texts(names@).len() == names@.len());
    match source_of(value) {
        Some(source) => {
            if source.has_place(names.len()) {
                read_block_values(source, names)
            } else {
                None
            }
        },
        None => None,
    }
}

fn read_phase(found: Found<'_>) -> (result: Option<Option<PhaseReading>>)
    ensures
        result == phase_field(found.field()),
{
    match found {
        Found::Absent => Some(None),
        Found::Repeated => None,
        Found::Present(value) => match read_block(value, &list_phase_names()) {
            Some(values) => Some(
                Some(
                    PhaseReading {
                        voltage_v: values[0],
                        current_a: values[1],
                        real_power_w: values[2],
                        apparent_power_va: values[3],
                        reactive_power_var: values[4],
                        cos_phi: values[5],
                        real_energy_consumed_wh: values[6],
                        thd_voltage_pct: values[7],
                        thd_current_pct: values[8],
                    },
                ),
            ),
            None => None,
        },
    }
}

fn read_totals(found: Found<'_>) -> (result: Option<Option<TotalsReading>>)
    ensures
        result == totals_field(found.field()),
{
    match found {
        Found::Absent => Some(None),
        Found::Repeated => None,
        Found::Present(value) => match read_block(value, &list_totals_names()) {
            Some(values) => Some(
                Some(
                    TotalsReading {
                        real_power_w: values[0],
                        apparent_power_va: values[1],
                        reactive_power_var: values[2],
                    },
                ),
            ),
            None => None,
        },
    }
}

fn read_power(source: Source<'_>) -> (result: Option<Binary32>)
    ensures
        result == power_field(source.shape()),
{
    let current = find_either(source.find("total_power", 0), source.find_named("power"));
    let older = find_either(source.find_named("power_watts"), source.find_named("power_l1_n"));
    match find_either(current, older) {
        Found::Present(value) => as_number(value),
        _ => None,
    }
}

fn read_systime(found: Found<'_>) -> (result: Option<Option<i32>>)
    ensures
        result == systime_field(found.field()),
{
    match found {
        Found::Absent => Some(None),
        Found::Present(Json::Integer(number)) => {
            if i32::MIN as i128 <= *number && *number <= i32::MAX as i128 {
                Some(Some(*number as i32))
            } else {
                None
            }
        },
        _ => None,
    }
}

fn read_frequency(found: Found<'_>) -> (result: Option<Option<Option<Binary32>>>)
    ensures
        result == frequency_field(found.field()),
{
    match found {
        Found::Absent => Some(None),
        Found::Repeated => None,
        Found::Present(value) => match read_measured(value) {
            Some(frequency) => Some(Some(frequency)),
            None => None,
        },
    }
}

fn read_heartbeat(found: Found<'_>) -> (result: Option<bool>)
    ensures
        result == heartbeat_field(found.field()),
{
    match found {
        Found::Absent => Some(false),
        Found::Present(Json::Bool(heartbeat)) => Some(*heartbeat),
        _ => None,
    }
}

/// Reads the members of a reading, without looking at its values.
pub fn decode_typed(source: Source<'_>) -> (result: Option<MeterReading>)
    ensures
        result == typed_reading(source.shape()),
{
    reveal(typed_reading);
    if !source.has_place(READING_PLACES) {
        return None;
    }
    let power: Option<Binary32> = read_power(source);
    let systime: Option<Option<i32>> = read_systime(source.find("systime", 1));
    let frequency: Option<Option<Option<Binary32>>> = read_frequency(
        source.find("frequency_hz", 2),
    );
    let l1: Option<Option<PhaseReading>> = read_phase(source.find("l1", 3));
    let l2: Option<Option<PhaseReading>> = read_phase(source.find("l2", 4));
    let l3: Option<Option<PhaseReading>> = read_phase(source.find("l3", 5));
    let totals: Option<Option<TotalsReading>> = read_totals(source.find("totals", 6));
    let heartbeat: Option<bool> = read_heartbeat(source.find("heartbeat", 7));
    match (power, systime, frequency, heartbeat) {
        (Some(total_power), Some(systime), Some(frequency_hz), Some(heartbeat)) => match (
            l1,
            l2,
            l3,
            totals,
        ) {
            (Some(l1), Some(l2), Some(l3), Some(totals)) => Some(
                MeterReading { total_power, systime, frequency_hz, l1, l2, l3, totals, heartbeat },
            ),
            _ => None,
        },
        _ => None,
    }
}

fn is_finite_if_given(value: Option<Binary32>) -> (finite: bool)
    ensures
        finite == finite_if_given(value),
{
    match value {
        Some(number) => number.is_finite(),
        None => true,
    }
}

/// An executable optional error agrees with a described one.
pub open spec fn same_error(error: Option<String>, described: Option<Seq<char>>) -> bool {
    match error {
        Some(error) => described == Some(error@),
        None => described is None,
    }
}

proof fn lemma_first_error_stays(
    prefix: Seq<char>,
    names: Seq<Seq<char>>,
    values: Seq<Option<Binary32>>,
    count: int,
)
    requires
        0 <= count <= names.len(),
        block_error(prefix, names.take(count), values) is Some,
    ensures
        block_error(prefix, names, values) == block_error(prefix, names.take(count), values),
    decreases names.len(),
{
    if count == names.len() {
        assert(names.take(count) =~= names);
    } else {
        assert(names.drop_last().take(count) =~= names.take(count));
        lemma_first_error_stays(prefix, names.drop_last(), values, count);
    }
}

fn check_block(prefix: &str, names: &Vec<&'static str>, values: &Vec<Option<Binary32>>) -> (error:
    Option<String>)
    requires
        names@.len() == values@.len(),
    ensures
        same_error(error, block_error(prefix@, name_texts(names@), values@)),
{
    let mut at: usize = 0;
    let ghost all = name_texts(names@);
    assert(all.take(0) =~= Seq::<Seq<char>>::empty());
    while at < names.len()
        invariant
            at <= names@.len(),
            names@.len() == values@.len(),
            all == name_texts(names@),
            block_error(prefix@, all.take(at as int), values@) is None,
        decreases names@.len() - at,
    {
        assert(all.take(at + 1).drop_last() =~= all.take(at as int));
        assert(all.take(at + 1).last() == names@[at as int]@);
        if !is_finite_if_given(values[at]) {
            let mut name: String = prefix.to_owned();
            name.append(names[at]);
            proof {
                lemma_first_error_stays(prefix@, all, values@, at + 1);
            }
            name.append(" must be finite");
            return Some(name);
        }
        at = at + 1;
    }
    assert(all.take(at as int) =~= all);
    None
}

fn check_phase(prefix: &str, phase: Option<PhaseReading>) -> (error: Option<String>)
    ensures
        same_error(error, phase_error(prefix@, phase)),
{
    match phase {
        Some(phase) => {
            let values: Vec<Option<Binary32>> = vec![
                phase.voltage_v,
                phase.current_a,
                phase.real_power_w,
                phase.apparent_power_va,
                phase.reactive_power_var,
                phase.cos_phi,
                phase.real_energy_consumed_wh,
                phase.thd_voltage_pct,
                phase.thd_current_pct,
            ];
            assert(values@ =~= phase_values(phase));
            let names: Vec<&'static str> = list_phase_names();
            assert(name_texts(names@).len() == names@.len());
            check_block(prefix, &names, &values)
        },
        None => None,
    }
}

fn check_totals(totals: Option<TotalsReading>) -> (error: Option<String>)
    ensures
        same_error(error, totals_error(totals)),
{
    match totals {
        Some(totals) => {
            let values: Vec<Option<Binary32>> = vec![
                totals.real_power_w,
                totals.apparent_power_va,
                totals.reactive_power_var,
            ];
            assert(values@ =~= totals_values(totals));
            let names: Vec<&'static str> = list_totals_names();
            assert(name_texts(names@).len() == names@.len());
            check_block("totals.", &names, &values)
        },
        None => None,
    }
}

impl MeterReading {
    /// Checks that every value of the reading is a finite number.
    pub fn validate(&self) -> (result: Result<(), String>)
        ensures
            match result {
                Ok(_) => value_error(*self) is None,
                Err(error) => value_error(*self) == Some(error@),
            },
    {
        reveal(value_error);
        if !self.total_power.is_finite() {
            return Err("total power must be a finite number".to_owned());
        }
        if !is_finite_if_given(self.frequency()) {
            let mut error: String = "frequency_hz".to_owned();
            error.append(" must be finite");
            return Err(error);
        }
        if let Some(error) = check_phase("l1.", self.l1) {
            return Err(error);
        }
        if let Some(error) = check_phase("l2.", self.l2) {
            return Err(error);
        }
        if let Some(error) = check_phase("l3.", self.l3) {
            return Err(error);
        }
        if let Some(error) = check_totals(self.totals) {
            return Err(error);
        }
        Ok(())
    }
}

fn read_legacy(source: Source<'_>) -> (message: Option<Option<Binary32>>)
    ensures
        message == legacy_message(source.shape()),
{
    let value: &Json = match source {
        Source::Members(members) => {
            if members.len() != 1 || !same_text(members[0].0.as_str(), "message") {
                return None;
            }
            &members[0].1
        },
        Source::Places(values) => {
            if values.len() != 1 {
                return None;
            }
            &values[0]
        },
    };
    match value {
        Json::Text { text: _, number } => Some(*number),
        _ => None,
    }
}

fn read_incoming(value: &Json) -> (result: Option<Incoming>)
    ensures
        result == incoming(*value),
{
    match source_of(value) {
        Some(source) => match decode_typed(source) {
            Some(reading) => Some(Incoming::Reading(reading)),
            None => match read_legacy(source) {
                Some(number) => Some(Incoming::Message(number)),
                None => None,
            },
        },
        None => None,
    }
}

/// A list that fails early fails.
proof fn lemma_failure_stays(values: Seq<Json>, count: int)
    requires
        0 <= count <= values.len(),
        all_incoming(values.take(count)) is None,
    ensures
        all_incoming(values) is None,
    decreases values.len(),
{
    if count == values.len() {
        assert(values.take(count) =~= values);
    } else {
        assert(values.drop_last().take(count) =~= values.take(count));
        lemma_failure_stays(values.drop_last(), count);
    }
}

fn read_all_incoming(values: &Vec<Json>) -> (result: Option<Vec<Incoming>>)
    ensures
        match result {
            Some(batch) => all_incoming(values@) == Some(batch@),
            None => all_incoming(values@) is None,
        },
{
    let mut batch: Vec<Incoming> = Vec::new();
    let mut at: usize = 0;
    assert(values@.take(0) =~= Seq::<Json>::empty());
    while at < values.len()
        invariant
            at <= values@.len(),
            all_incoming(values@.take(at as int)) == Some(batch@),
        decreases values@.len() - at,
    {
        assert(values@.take(at + 1).drop_last() =~= values@.take(at as int));
        match read_incoming(&values[at]) {
            Some(one) => {
                batch.push(one);
            },
            None => {
                proof {
                    lemma_failure_stays(values@, at + 1);
                }
                return None;
            },
        }
        at = at + 1;
    }
    assert(values@.take(at as int) =~= values@);
    Some(batch)
}

fn read_request(body: &Json) -> (result: Option<Vec<Incoming>>)
    ensures
        match result {
            Some(batch) => incoming_request(*body) == Some(batch@),
            None => incoming_request(*body) is None,
        },
{
    match read_incoming(body) {
        Some(single) => {
            let batch: Vec<Incoming> = vec![single];
            assert(batch@ =~= seq![single]);
            Some(batch)
        },
        None => match body {
            Json::List(values) => read_all_incoming(values),
            _ => None,
        },
    }
}

fn accept(incoming: &Incoming) -> (result: Result<MeterReading, String>)
    ensures
        match result {
            Ok(reading) => accepted(*incoming) == Ok::<MeterReading, Seq<char>>(reading),
            Err(error) => accepted(*incoming) == Err::<MeterReading, Seq<char>>(error@),
        },
{
    let reading: MeterReading = match incoming {
        Incoming::Message(number) => match number {
            Some(total_power) => MeterReading::from(*total_power),
            None => return Err("message must contain a power value in watts".to_owned()),
        },
        Incoming::Reading(reading) => *reading,
    };
    match reading.validate() {
        Ok(_) => Ok(reading),
        Err(error) => Err(error),
    }
}

fn place_error(index: usize, error: &str) -> (text: String)
    requires
        index < usize::MAX,
    ensures
        text@ == placed(index as int, error@),
{
    let mut text: String = "reading ".to_owned();
    text.append(decimal((index + 1) as u64).as_str());
    text.append(": ");
    text.append(error);
    text
}

/// After an error nothing that follows is looked at.
proof fn lemma_batch_error_stays(batch: Seq<Incoming>, count: int, error: Seq<char>)
    requires
        0 <= count <= batch.len(),
        accepted_batch(batch.take(count)) == Err::<Seq<MeterReading>, Seq<char>>(error),
    ensures
        accepted_batch(batch) == Err::<Seq<MeterReading>, Seq<char>>(error),
    decreases batch.len(),
{
    if count == batch.len() {
        assert(batch.take(count) =~= batch);
    } else {
        assert(batch.drop_last().take(count) =~= batch.take(count));
        lemma_batch_error_stays(batch.drop_last(), count, error);
    }
}

/// Decoded readings agree with described ones.
pub open spec fn batch_agrees(
    result: Result<Vec<MeterReading>, String>,
    described: Result<Seq<MeterReading>, Seq<char>>,
) -> bool {
    match result {
        Ok(readings) => described == Ok::<Seq<MeterReading>, Seq<char>>(readings@),
        Err(error) => described == Err::<Seq<MeterReading>, Seq<char>>(error@),
    }
}

fn accept_batch(batch: &Vec<Incoming>) -> (result: Result<Vec<MeterReading>, String>)
    ensures
        batch_agrees(result, accepted_batch(batch@)),
{
    let mut readings: Vec<MeterReading> = Vec::new();
    let mut at: usize = 0;
    assert(batch@.take(0) =~= Seq::<Incoming>::empty());
    while at < batch.len()
        invariant
            at <= batch@.len(),
            accepted_batch(batch@.take(at as int)) == Ok::<Seq<MeterReading>, Seq<char>>(
                readings@,
            ),
        decreases batch@.len() - at,
    {
        assert(batch@.take(at + 1).drop_last() =~= batch@.take(at as int));
        match accept(&batch[at]) {
            Ok(reading) => {
                readings.push(reading);
            },
            Err(error) => {
                let text: String = place_error(at, error.as_str());
                proof {
                    lemma_batch_error_stays(batch@, at + 1, text@);
                }
                return Err(text);
            },
        }
        at = at + 1;
    }
    assert(batch@.take(at as int) =~= batch@);
    Ok(readings)
}

/// Converts a request into validated readings in transmission order, or rejects
/// all of it.
pub trait ReadingDecoder {
    /// What a request decodes to.
    spec fn readings(&self, body: Json) -> Result<Seq<MeterReading>, Seq<char>>;

    fn decode_readings(&self, body: &Json) -> (result: Result<Vec<MeterReading>, String>)
        ensures
            batch_agrees(result, self.readings(*body)),
    ;
}

/// Decodes the gateway's measurement objects and arrays, plus the legacy power
/// payloads.  A structure may also be written as a list of its values in order.
pub struct JsonReadingDecoder;

impl ReadingDecoder for JsonReadingDecoder {
    open spec fn readings(&self, body: Json) -> Result<Seq<MeterReading>, Seq<char>> {
        decoded_request(body)
    }

    fn decode_readings(&self, body: &Json) -> (result: Result<Vec<MeterReading>, String>) {
        match read_request(body) {
            Some(batch) => {
                if batch.len() == 0 {
                    return Err("measurement batch must not be empty".to_owned());
                }
                accept_batch(&batch)
            },
            None => Err(NO_READINGS.to_owned()),
        }
    }
}

/// A member stands for a measured value: a number for the number, `null` for one
/// that the meter could not determine.
pub open spec fn stands_for(field: Field, value: Option<Binary32>) -> bool {
    match field {
        Field::Present(Json::Null) => value is None,
        Field::Present(Json::Decimal(number)) => value == Some(number),
        Field::Present(Json::Integer(number)) => -0x8000_0000_0000_0000 <= number
            <= 0xffff_ffff_ffff_ffff && value == Some(Binary32::nearest_integer(number as int)),
        _ => false,
    }
}

/// A member stands for the measured values of a phase: it is left out where they
/// are, and has every one of them under its name, or at its place in a list.
pub open spec fn stands_for_phase(field: Field, phase: Option<PhaseReading>) -> bool {
    match (field, phase) {
        (Field::Absent, None) => true,
        (Field::Present(block), Some(phase)) => {
            &&& json::shape_of(block) is Some
            &&& json::shape_of(block)->0.fits(9)
            &&& {
                let shape = json::shape_of(block)->0;
                &&& stands_for(shape.at("voltage_v"@, 0), phase.voltage_v)
                &&& stands_for(shape.at("current_a"@, 1), phase.current_a)
                &&& stands_for(shape.at("real_power_w"@, 2), phase.real_power_w)
                &&& stands_for(shape.at("apparent_power_va"@, 3), phase.apparent_power_va)
                &&& stands_for(shape.at("reactive_power_var"@, 4), phase.reactive_power_var)
                &&& stands_for(shape.at("cos_phi"@, 5), phase.cos_phi)
                &&& stands_for(
                    shape.at("real_energy_consumed_wh"@, 6),
                    phase.real_energy_consumed_wh,
                )
                &&& stands_for(shape.at("thd_voltage_pct"@, 7), phase.thd_voltage_pct)
                &&& stands_for(shape.at("thd_current_pct"@, 8), phase.thd_current_pct)
            }
        },
        _ => false,
    }
}

/// A member stands for the three-phase sums.
pub open spec fn stands_for_totals(field: Field, totals: Option<TotalsReading>) -> bool {
    match (field, totals) {
        (Field::Absent, None) => true,
        (Field::Present(block), Some(totals)) => {
            &&& json::shape_of(block) is Some
            &&& json::shape_of(block)->0.fits(3)
            &&& {
                let shape = json::shape_of(block)->0;
                &&& stands_for(shape.at("real_power_w"@, 0), totals.real_power_w)
                &&& stands_for(shape.at("apparent_power_va"@, 1), totals.apparent_power_va)
                &&& stands_for(shape.at("reactive_power_var"@, 2), totals.reactive_power_var)
            }
        },
        _ => false,
    }
}

/// A structure stands for a reading, member by member.
pub open spec fn stands_for_reading(shape: Shape, reading: MeterReading) -> bool {
    let power = shape.at("total_power"@, 0);
    let older = seq![
        shape.named("power"@),
        shape.named("power_watts"@),
        shape.named("power_l1_n"@),
    ];
    &&& shape.fits(8)
    &&& {
        ||| stands_for(power, Some(reading.total_power)) && older[0] is Absent && older[1] is Absent
            && older[2] is Absent
        ||| power is Absent && stands_for(older[0], Some(reading.total_power)) && older[1] is Absent
            && older[2] is Absent
        ||| power is Absent && older[0] is Absent && stands_for(
            older[1],
            Some(reading.total_power),
        ) && older[2] is Absent
        ||| power is Absent && older[0] is Absent && older[1] is Absent && stands_for(
            older[2],
            Some(reading.total_power),
        )
    }
    &&& match shape.at("systime"@, 1) {
        Field::Absent => reading.systime is None,
        Field::Present(Json::Integer(number)) => reading.systime is Some && reading.systime->0
            == number,
        _ => false,
    }
    &&& match shape.at("frequency_hz"@, 2) {
        Field::Absent => reading.frequency_hz is None,
        given => reading.frequency_hz is Some && stands_for(given, reading.frequency_hz->0),
    }
    &&& stands_for_phase(shape.at("l1"@, 3), reading.l1)
    &&& stands_for_phase(shape.at("l2"@, 4), reading.l2)
    &&& stands_for_phase(shape.at("l3"@, 5), reading.l3)
    &&& stands_for_totals(shape.at("totals"@, 6), reading.totals)
    &&& match shape.at("heartbeat"@, 7) {
        Field::Absent => !reading.heartbeat,
        Field::Present(Json::Bool(heartbeat)) => reading.heartbeat == heartbeat,
        _ => false,
    }
}

#[verifier::rlimit(40)]
proof fn lemma_block_goes_by_places(
    shape: Shape,
    names: Seq<Seq<char>>,
    values: Seq<Option<Binary32>>,
)
    ensures
        block_values(shape, names) == Some(values) <==> values.len() == names.len() && forall|
            i: int,
        |
            0 <= i < names.len() ==> stands_for(shape.at(#[trigger] names[i], i), values[i]),
    decreases names.len(),
{
    if names.len() == 0 {
        assert(values.len() == 0 ==> values =~= Seq::empty());
    } else {
        let fewer = names.drop_last();
        let last = names.len() - 1;
        assert(names.last() == names[last]);
        if values.len() == names.len() {
            let before = values.drop_last();
            lemma_block_goes_by_places(shape, fewer, before);
            assert(before.push(values.last()) =~= values);
            if block_values(shape, names) == Some(values) {
                let earlier = block_values(shape, fewer)->0;
                let value = block_value(shape, names[last], last)->0;
                assert(earlier.push(value).drop_last() =~= earlier);
                assert(earlier.push(value).last() == value);
                assert(before == earlier);
                assert forall|i: int| 0 <= i < names.len() implies stands_for(
                    shape.at(#[trigger] names[i], i),
                    values[i],
                ) by {
                    if i < last {
                        assert(fewer[i] == names[i]);
                        assert(before[i] == values[i]);
                    }
                }
            }
            if forall|i: int|
                0 <= i < names.len() ==> stands_for(shape.at(#[trigger] names[i], i), values[i]) {
                assert forall|i: int| 0 <= i < fewer.len() implies stands_for(
                    shape.at(#[trigger] fewer[i], i),
                    before[i],
                ) by {
                    assert(fewer[i] == names[i]);
                }
                assert(stands_for(shape.at(names[last], last), values[last]));
            }
        } else if block_values(shape, names) == Some(values) {
            let earlier = block_values(shape, fewer)->0;
            lemma_block_goes_by_places(shape, fewer, earlier);
            assert(false);
        }
    }
}

#[verifier::rlimit(40)]
proof fn lemma_phase_goes_by_names(field: Field, phase: Option<PhaseReading>)
    ensures
        phase_field(field) == Some(phase) <==> stands_for_phase(field, phase),
{
    if let Field::Present(value) = field {
        if json::shape_of(value) is Some {
            let shape = json::shape_of(value)->0;
            let names = phase_names();
            if let Some(phase) = phase {
                let values = phase_values(phase);
                lemma_block_goes_by_places(shape, names, values);
                assert(phase_from(values) == phase);
                if stands_for_phase(field, Some(phase)) {
                    assert forall|i: int| 0 <= i < names.len() implies stands_for(
                        shape.at(#[trigger] names[i], i),
                        values[i],
                    ) by {
                        assert(i == 0 || i == 1 || i == 2 || i == 3 || i == 4 || i == 5 || i == 6 || i
                            == 7 || i == 8);
                    }
                }
                if phase_field(field) == Some(Some(phase)) {
                    let found = block_values(shape, names)->0;
                    lemma_block_goes_by_places(shape, names, found);
                    assert(phase_from(found) == phase);
                    assert(stands_for(shape.at(names[0], 0), found[0]));
                    assert(stands_for(shape.at(names[1], 1), found[1]));
                    assert(stands_for(shape.at(names[2], 2), found[2]));
                    assert(stands_for(shape.at(names[3], 3), found[3]));
                    assert(stands_for(shape.at(names[4], 4), found[4]));
                    assert(stands_for(shape.at(names[5], 5), found[5]));
                    assert(stands_for(shape.at(names[6], 6), found[6]));
                    assert(stands_for(shape.at(names[7], 7), found[7]));
                    assert(stands_for(shape.at(names[8], 8), found[8]));
                }
            }
        }
    }
}

#[verifier::rlimit(40)]
proof fn lemma_totals_go_by_names(field: Field, totals: Option<TotalsReading>)
    ensures
        totals_field(field) == Some(totals) <==> stands_for_totals(field, totals),
{
    if let Field::Present(value) = field {
        if json::shape_of(value) is Some {
            let shape = json::shape_of(value)->0;
            let names = totals_names();
            if let Some(totals) = totals {
                let values = totals_values(totals);
                lemma_block_goes_by_places(shape, names, values);
                assert(totals_from(values) == totals);
                if stands_for_totals(field, Some(totals)) {
                    assert forall|i: int| 0 <= i < names.len() implies stands_for(
                        shape.at(#[trigger] names[i], i),
                        values[i],
                    ) by {
                        assert(i == 0 || i == 1 || i == 2);
                    }
                }
                if totals_field(field) == Some(Some(totals)) {
                    let found = block_values(shape, names)->0;
                    lemma_block_goes_by_places(shape, names, found);
                    assert(totals_from(found) == totals);
                    assert(stands_for(shape.at(names[0], 0), found[0]));
                    assert(stands_for(shape.at(names[1], 1), found[1]));
                    assert(stands_for(shape.at(names[2], 2), found[2]));
                }
            }
        }
    }
}

/// A structure is read as a reading exactly if each of its members stands for
/// the member of the reading with its name: every phase is read from its own
/// block, and every value of it from its own name.
#[verifier::rlimit(40)]
pub proof fn lemma_members_are_read_by_their_names(shape: Shape, reading: MeterReading)
    ensures
        typed_reading(shape) == Some(reading) <==> stands_for_reading(shape, reading),
{
    reveal(typed_reading);
    lemma_phase_goes_by_names(shape.at("l1"@, 3), reading.l1);
    lemma_phase_goes_by_names(shape.at("l2"@, 4), reading.l2);
    lemma_phase_goes_by_names(shape.at("l3"@, 5), reading.l3);
    lemma_totals_go_by_names(shape.at("totals"@, 6), reading.totals);
    assert(power_field(shape) == Some(reading.total_power) <==> {
        let power = shape.at("total_power"@, 0);
        let older = seq![
            shape.named("power"@),
            shape.named("power_watts"@),
            shape.named("power_l1_n"@),
        ];
        ||| stands_for(power, Some(reading.total_power)) && older[0] is Absent && older[1] is Absent
            && older[2] is Absent
        ||| power is Absent && stands_for(older[0], Some(reading.total_power)) && older[1] is Absent
            && older[2] is Absent
        ||| power is Absent && older[0] is Absent && stands_for(
            older[1],
            Some(reading.total_power),
        ) && older[2] is Absent
        ||| power is Absent && older[0] is Absent && older[1] is Absent && stands_for(
            older[2],
            Some(reading.total_power),
        )
    });
    assert(systime_field(shape.at("systime"@, 1)) == Some(reading.systime) <==> match shape.at(
        "systime"@,
        1,
    ) {
        Field::Absent => reading.systime is None,
        Field::Present(Json::Integer(number)) => reading.systime is Some && reading.systime->0
            == number,
        _ => false,
    });
    assert(frequency_field(shape.at("frequency_hz"@, 2)) == Some(reading.frequency_hz)
        <==> match shape.at("frequency_hz"@, 2) {
        Field::Absent => reading.frequency_hz is None,
        given => reading.frequency_hz is Some && stands_for(given, reading.frequency_hz->0),
    });
    assert(heartbeat_field(shape.at("heartbeat"@, 7)) == Some(reading.heartbeat) <==> match shape.at(
        "heartbeat"@,
        7,
    ) {
        Field::Absent => !reading.heartbeat,
        Field::Present(Json::Bool(heartbeat)) => reading.heartbeat == heartbeat,
        _ => false,
    });
}

/// The value is there and is no finite number.
pub open spec fn bad(value: Option<Binary32>) -> bool {
    value is Some && !value->0.finite()
}

/// A value of the phase, known under this name, is no finite number.
pub open spec fn bad_in_phase(prefix: Seq<char>, phase: Option<PhaseReading>, name: Seq<char>) -> bool {
    phase is Some && {
        let phase = phase->0;
        ||| bad(phase.voltage_v) && name == prefix + "voltage_v"@
        ||| bad(phase.current_a) && name == prefix + "current_a"@
        ||| bad(phase.real_power_w) && name == prefix + "real_power_w"@
        ||| bad(phase.apparent_power_va) && name == prefix + "apparent_power_va"@
        ||| bad(phase.reactive_power_var) && name == prefix + "reactive_power_var"@
        ||| bad(phase.cos_phi) && name == prefix + "cos_phi"@
        ||| bad(phase.real_energy_consumed_wh) && name == prefix + "real_energy_consumed_wh"@
        ||| bad(phase.thd_voltage_pct) && name == prefix + "thd_voltage_pct"@
        ||| bad(phase.thd_current_pct) && name == prefix + "thd_current_pct"@
    }
}

/// A three-phase sum, known under this name, is no finite number.
pub open spec fn bad_in_totals(totals: Option<TotalsReading>, name: Seq<char>) -> bool {
    totals is Some && {
        let totals = totals->0;
        ||| bad(totals.real_power_w) && name == "totals."@ + "real_power_w"@
        ||| bad(totals.apparent_power_va) && name == "totals."@ + "apparent_power_va"@
        ||| bad(totals.reactive_power_var) && name == "totals."@ + "reactive_power_var"@
    }
}

/// A value of the reading next to its total power, known under this name, is no
/// finite number.
pub open spec fn bad_value(reading: MeterReading, name: Seq<char>) -> bool {
    ||| reading.frequency_hz is Some && bad(reading.frequency_hz->0) && name == "frequency_hz"@
    ||| bad_in_phase("l1."@, reading.l1, name)
    ||| bad_in_phase("l2."@, reading.l2, name)
    ||| bad_in_phase("l3."@, reading.l3, name)
    ||| bad_in_totals(reading.totals, name)
}

proof fn lemma_block_error(prefix: Seq<char>, names: Seq<Seq<char>>, values: Seq<Option<Binary32>>)
    ensures
        match block_error(prefix, names, values) {
            None => forall|i: int| 0 <= i < names.len() ==> !bad(#[trigger] values[i]),
            Some(error) => exists|i: int|
                0 <= i < names.len() && bad(#[trigger] values[i]) && error == prefix + names[i]
                    + " must be finite"@ && forall|j: int| 0 <= j < i ==> !bad(#[trigger] values[j]),
        },
    decreases names.len(),
{
    if names.len() > 0 {
        let last = names.len() - 1;
        lemma_block_error(prefix, names.drop_last(), values);
        if block_error(prefix, names.drop_last(), values) is None {
            assert forall|i: int| 0 <= i < last implies !bad(#[trigger] values[i]) by {}
            assert(names.last() == names[last]);
            if bad(values[last]) {
                assert(block_error(prefix, names, values) == Some(
                    prefix + names[last] + " must be finite"@,
                ));
            }
        } else {
            let error = block_error(prefix, names, values)->0;
            let i = choose|i: int|
                0 <= i < last && bad(#[trigger] values[i]) && error == prefix
                    + names.drop_last()[i] + " must be finite"@ && forall|j: int|
                    0 <= j < i ==> !bad(#[trigger] values[j]);
            assert(names.drop_last()[i] == names[i]);
        }
    }
}

#[verifier::rlimit(40)]
proof fn lemma_phase_error(prefix: Seq<char>, phase: Option<PhaseReading>)
    ensures
        match phase_error(prefix, phase) {
            None => forall|name: Seq<char>| !#[trigger] bad_in_phase(prefix, phase, name),
            Some(error) => exists|name: Seq<char>| #[trigger]
                bad_in_phase(prefix, phase, name) && error == name + " must be finite"@,
        },
{
    if let Some(inner) = phase {
        let names = phase_names();
        let values = phase_values(inner);
        lemma_block_error(prefix, names, values);
        match phase_error(prefix, phase) {
            None => {
                assert(!bad(values[0]) && !bad(values[1]) && !bad(values[2]) && !bad(values[3])
                    && !bad(values[4]) && !bad(values[5]) && !bad(values[6]) && !bad(values[7])
                    && !bad(values[8]));
            },
            Some(error) => {
                let i = choose|i: int|
                    0 <= i < names.len() && bad(#[trigger] values[i]) && error == prefix + names[i]
                        + " must be finite"@ && forall|j: int|
                        0 <= j < i ==> !bad(#[trigger] values[j]);
                assert(i == 0 || i == 1 || i == 2 || i == 3 || i == 4 || i == 5 || i == 6 || i == 7
                    || i == 8);
                assert(bad_in_phase(prefix, phase, prefix + names[i]));
            },
        }
    }
}

proof fn lemma_totals_error(totals: Option<TotalsReading>)
    ensures
        match totals_error(totals) {
            None => forall|name: Seq<char>| !#[trigger] bad_in_totals(totals, name),
            Some(error) => exists|name: Seq<char>| #[trigger]
                bad_in_totals(totals, name) && error == name + " must be finite"@,
        },
{
    if let Some(inner) = totals {
        let names = totals_names();
        let values = totals_values(inner);
        lemma_block_error("totals."@, names, values);
        match totals_error(totals) {
            None => {
                assert(!bad(values[0]) && !bad(values[1]) && !bad(values[2]));
            },
            Some(error) => {
                let i = choose|i: int|
                    0 <= i < names.len() && bad(#[trigger] values[i]) && error == "totals."@
                        + names[i] + " must be finite"@ && forall|j: int|
                        0 <= j < i ==> !bad(#[trigger] values[j]);
                assert(i == 0 || i == 1 || i == 2);
                assert(bad_in_totals(totals, "totals."@ + names[i]));
            },
        }
    }
}

/// The values of a reading are refused exactly if one of them is no finite
/// number, on whichever phase it is, and what is said names one that is not.
#[verifier::rlimit(40)]
pub proof fn lemma_a_value_that_is_no_number_is_refused_by_name(reading: MeterReading)
    ensures
        !reading.total_power.finite() ==> value_error(reading) == Some(
            "total power must be a finite number"@,
        ),
        reading.total_power.finite() ==> match value_error(reading) {
            None => forall|name: Seq<char>| !#[trigger] bad_value(reading, name),
            Some(error) => exists|name: Seq<char>| #[trigger]
                bad_value(reading, name) && error == name + " must be finite"@,
        },
{
    reveal(value_error);
    lemma_phase_error("l1."@, reading.l1);
    lemma_phase_error("l2."@, reading.l2);
    lemma_phase_error("l3."@, reading.l3);
    lemma_totals_error(reading.totals);
    if reading.total_power.finite() {
        let error = value_error(reading);
        if bad(reading.grid_frequency()) {
            assert(bad_value(reading, "frequency_hz"@));
        } else if phase_error("l1."@, reading.l1) is Some {
            let name = choose|name: Seq<char>| #[trigger]
                bad_in_phase("l1."@, reading.l1, name) && error->0 == name + " must be finite"@;
            assert(bad_value(reading, name));
        } else if phase_error("l2."@, reading.l2) is Some {
            let name = choose|name: Seq<char>| #[trigger]
                bad_in_phase("l2."@, reading.l2, name) && error->0 == name + " must be finite"@;
            assert(bad_value(reading, name));
        } else if phase_error("l3."@, reading.l3) is Some {
            let name = choose|name: Seq<char>| #[trigger]
                bad_in_phase("l3."@, reading.l3, name) && error->0 == name + " must be finite"@;
            assert(bad_value(reading, name));
        } else if totals_error(reading.totals) is Some {
            let name = choose|name: Seq<char>| #[trigger]
                bad_in_totals(reading.totals, name) && error->0 == name + " must be finite"@;
            assert(bad_value(reading, name));
        }
    }
}

proof fn lemma_all_incoming(values: Seq<Json>)
    ensures
        match all_incoming(values) {
            Some(batch) => batch.len() == values.len() && forall|i: int|
                0 <= i < values.len() ==> incoming(#[trigger] values[i]) == Some(batch[i]),
            None => exists|i: int| 0 <= i < values.len() && incoming(#[trigger] values[i]) is None,
        },
    decreases values.len(),
{
    if values.len() > 0 {
        let fewer = values.drop_last();
        let last = values.len() - 1;
        lemma_all_incoming(fewer);
        assert(forall|i: int| 0 <= i < fewer.len() ==> fewer[i] == #[trigger] values[i]);
        if all_incoming(fewer) is None {
            let i = choose|i: int| 0 <= i < fewer.len() && incoming(#[trigger] fewer[i]) is None;
            assert(incoming(values[i]) is None);
        } else if incoming(values.last()) is None {
            assert(incoming(values[last]) is None);
        }
    }
}

proof fn lemma_accepted_batch(batch: Seq<Incoming>)
    ensures
        match accepted_batch(batch) {
            Ok(readings) => readings.len() == batch.len() && forall|i: int|
                0 <= i < batch.len() ==> accepted(#[trigger] batch[i]) == Ok::<
                    MeterReading,
                    Seq<char>,
                >(readings[i]),
            Err(error) => exists|i: int|
                0 <= i < batch.len() && accepted(#[trigger] batch[i]) is Err && error == "reading "@
                    + text::decimal_digits((i + 1) as nat) + ": "@ + accepted(batch[i])->Err_0
                    && forall|j: int| 0 <= j < i ==> accepted(#[trigger] batch[j]) is Ok,
        },
    decreases batch.len(),
{
    if batch.len() > 0 {
        let fewer = batch.drop_last();
        let last = batch.len() - 1;
        lemma_accepted_batch(fewer);
        assert(forall|i: int| 0 <= i < fewer.len() ==> fewer[i] == #[trigger] batch[i]);
        match accepted_batch(fewer) {
            Err(error) => {
                let i = choose|i: int|
                    0 <= i < fewer.len() && accepted(#[trigger] fewer[i]) is Err && error
                        == "reading "@ + text::decimal_digits((i + 1) as nat) + ": "@ + accepted(
                        fewer[i],
                    )->Err_0 && forall|j: int| 0 <= j < i ==> accepted(#[trigger] fewer[j]) is Ok;
                assert(accepted(batch[i]) is Err);
                assert forall|j: int| 0 <= j < i implies accepted(#[trigger] batch[j]) is Ok by {
                    assert(accepted(fewer[j]) is Ok);
                }
            },
            Ok(readings) => {
                assert forall|j: int| 0 <= j < last implies accepted(#[trigger] batch[j]) is Ok by {
                    assert(accepted(fewer[j]) is Ok);
                }
                if accepted(batch[last]) is Err {
                    assert(batch.last() == batch[last]);
                }
            },
        }
    }
}

/// A list of readings is decoded whole or not at all: every value of it becomes
/// the reading at its place, or the first that is refused is named by its place,
/// counted from one.  Where one of them stands for no reading, none is looked
/// at.
#[verifier::rlimit(40)]
pub proof fn lemma_a_batch_is_decoded_whole_and_in_order(values: Vec<Json>)
    requires
        incoming(Json::List(values)) is None,
    ensures
        match decoded_request(Json::List(values)) {
            Ok(readings) => readings.len() == values@.len() && values@.len() > 0 && forall|i: int|
                0 <= i < values@.len() ==> incoming(#[trigger] values@[i]) is Some && accepted(
                    incoming(values@[i])->0,
                ) == Ok::<MeterReading, Seq<char>>(readings[i]),
            Err(error) => {
                ||| values@.len() == 0 && error == "measurement batch must not be empty"@
                ||| error == NO_READINGS@ && exists|i: int|
                    0 <= i < values@.len() && incoming(#[trigger] values@[i]) is None
                ||| exists|i: int|
                    0 <= i < values@.len() && incoming(#[trigger] values@[i]) is Some && accepted(
                        incoming(values@[i])->0,
                    ) is Err && error == "reading "@ + text::decimal_digits((i + 1) as nat) + ": "@
                        + accepted(incoming(values@[i])->0)->Err_0 && (forall|j: int|
                        0 <= j < i ==> incoming(#[trigger] values@[j]) is Some && accepted(
                            incoming(values@[j])->0,
                        ) is Ok) && (forall|j: int|
                        0 <= j < values@.len() ==> incoming(#[trigger] values@[j]) is Some)
            },
        },
{
    lemma_all_incoming(values@);
    if let Some(batch) = all_incoming(values@) {
        lemma_accepted_batch(batch);
        if batch.len() > 0 {
            match accepted_batch(batch) {
                Ok(readings) => {
                    assert forall|i: int| 0 <= i < values@.len() implies incoming(
                        #[trigger] values@[i],
                    ) is Some && accepted(incoming(values@[i])->0) == Ok::<MeterReading, Seq<char>>(
                        readings[i],
                    ) by {
                        assert(accepted(batch[i]) == Ok::<MeterReading, Seq<char>>(readings[i]));
                    }
                },
                Err(error) => {
                    let i = choose|i: int|
                        0 <= i < batch.len() && accepted(#[trigger] batch[i]) is Err && error
                            == "reading "@ + text::decimal_digits((i + 1) as nat) + ": "@
                            + accepted(batch[i])->Err_0 && forall|j: int|
                            0 <= j < i ==> accepted(#[trigger] batch[j]) is Ok;
                    assert(incoming(values@[i]) == Some(batch[i]));
                    assert forall|j: int| 0 <= j < i implies incoming(#[trigger] values@[j]) is Some
                        && accepted(incoming(values@[j])->0) is Ok by {
                        assert(accepted(batch[j]) is Ok);
                    }
                },
            }
        }
    }
}

/// A value of a request stands for what its members say; where it stands for no
/// such reading, a lone text is an older message with the power in it.
#[verifier::rlimit(40)]
pub proof fn lemma_a_value_stands_for_a_reading_or_a_message(shape: Shape, value: Json)
    requires
        json::shape_of(value) == Some(shape),
    ensures
        match incoming(value) {
            Some(Incoming::Reading(reading)) => stands_for_reading(shape, reading),
            Some(Incoming::Message(number)) => {
                &&& forall|reading: MeterReading| !#[trigger] stands_for_reading(shape, reading)
                &&& match shape {
                    Shape::Members(members) => members.len() == 1 && members[0].0@ == "message"@
                        && members[0].1 is Text && members[0].1->number == number,
                    Shape::Places(values) => values.len() == 1 && values[0] is Text
                        && values[0]->number == number,
                }
            },
            None => forall|reading: MeterReading| !#[trigger] stands_for_reading(shape, reading),
        },
        forall|reading: MeterReading| #[trigger]
            stands_for_reading(shape, reading) ==> incoming(value) == Some(
                Incoming::Reading(reading),
            ),
{
    assert forall|reading: MeterReading| #[trigger]
        stands_for_reading(shape, reading) <==> typed_reading(shape) == Some(reading) by {
        lemma_members_are_read_by_their_names(shape, reading);
    }
    if let Some(reading) = typed_reading(shape) {
        assert(stands_for_reading(shape, reading));
    }
}

/// What is accepted of a request is what it says: a reading as it is, a message
/// as nothing but its power.
pub proof fn lemma_accepted_readings_are_unchanged(reading: MeterReading, power: Binary32)
    ensures
        value_error(reading) is None ==> accepted(Incoming::Reading(reading)) == Ok::<
            MeterReading,
            Seq<char>,
        >(reading),
        value_error(reading) is Some ==> accepted(Incoming::Reading(reading)) == Err::<
            MeterReading,
            Seq<char>,
        >(value_error(reading)->0),
        accepted(Incoming::Message(None)) == Err::<MeterReading, Seq<char>>(
            "message must contain a power value in watts"@,
        ),
        power.finite() ==> accepted(Incoming::Message(Some(power))) == Ok::<
            MeterReading,
            Seq<char>,
        >(
            MeterReading {
                total_power: power,
                systime: None,
                frequency_hz: None,
                l1: None,
                l2: None,
                l3: None,
                totals: None,
                heartbeat: false,
            },
        ),
        !power.finite() ==> accepted(Incoming::Message(Some(power))) is Err,
{
    reveal(value_error);
}

/// A request that is no list is a single reading: it is decoded as this reading
/// alone, or refused as the first, and one that stands for no reading is refused
/// as a whole.
pub proof fn lemma_a_single_reading_is_the_first(body: Json)
    ensures
        incoming(body) matches Some(single) ==> match accepted(single) {
            Ok(reading) => decoded_request(body) == Ok::<Seq<MeterReading>, Seq<char>>(
                seq![reading],
            ),
            Err(error) => decoded_request(body) == Err::<Seq<MeterReading>, Seq<char>>(
                "reading "@ + text::decimal_digits(1) + ": "@ + error,
            ),
        },
        incoming(body) is None && !(body is List) ==> decoded_request(body) == Err::<
            Seq<MeterReading>,
            Seq<char>,
        >(NO_READINGS@),
        json::shape_of(body) is None ==> incoming(body) is None,
{
    if let Some(single) = incoming(body) {
        let batch = seq![single];
        reveal_with_fuel(accepted_batch, 2);
        assert(batch.drop_last() =~= Seq::<Incoming>::empty());
        if let Ok(reading) = accepted(single) {
            assert(Seq::<MeterReading>::empty().push(reading) =~= seq![reading]);
        }
    }
}

/// The decoder reads what the body stands for.
pub proof fn lemma_the_decoder_reads_the_body(decoder: JsonReadingDecoder, body: Json)
    ensures
        decoder.readings(body) == decoded_request(body),
{
}

} // verus!
