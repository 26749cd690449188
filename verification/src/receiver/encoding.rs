//! Readings written out, to be read again.

use vstd::prelude::*;
use vstd::string::*;

use crate::binary32::Binary32;
use crate::json;
use crate::json::{
    no_members, push_member, push_number, push_optional, write_number, write_optional, Field, Json,
    Shape,
};
use crate::receiver::input;
use crate::receiver::input::{MeterReading, PhaseReading, TotalsReading};

verus! {

/// A block with a value under each name, `null` for one that is not known or not
/// finite, and nothing else.
pub open spec fn is_block(
    block: Json,
    names: Seq<Seq<char>>,
    values: Seq<Option<Binary32>>,
) -> bool {
    &&& block is Object
    &&& block->Object_0@.len() == names.len()
    &&& forall|i: int|
        0 <= i < names.len() ==> json::member(block->Object_0@, #[trigger] names[i])
            == Field::Present(json::optional_number(values[i]))
}

/// A phase, written out.
pub open spec fn is_phase_block(block: Json, phase: PhaseReading) -> bool {
    is_block(block, input::phase_names(), input::phase_values(phase))
}

/// The three-phase sums, written out.
pub open spec fn is_totals_block(block: Json, totals: TotalsReading) -> bool {
    is_block(block, input::totals_names(), input::totals_values(totals))
}

/// A block that holds every value it has to have is read as these values.
proof fn lemma_block_is_complete(
    members: Seq<(String, Json)>,
    names: Seq<Seq<char>>,
    values: Seq<Option<Binary32>>,
)
    requires
        names.len() == values.len(),
        forall|i: int|
            0 <= i < names.len() ==> json::member(members, #[trigger] names[i]) == Field::Present(
                json::optional_number(values[i]),
            ),
        forall|i: int| 0 <= i < names.len() ==> input::finite_if_given(#[trigger] values[i]),
    ensures
        input::block_values(Shape::Members(members), names) == Some(values),
    decreases names.len(),
{
    if names.len() > 0 {
        let fewer = names.drop_last();
        assert forall|i: int| 0 <= i < fewer.len() implies json::member(
            members,
            #[trigger] fewer[i],
        ) == Field::Present(json::optional_number(values.drop_last()[i])) by {
            assert(fewer[i] == names[i]);
        }
        assert forall|i: int| 0 <= i < fewer.len() implies input::finite_if_given(
            #[trigger] values.drop_last()[i],
        ) by {
            assert(input::finite_if_given(values[i]));
        }
        lemma_block_is_complete(members, fewer, values.drop_last());
        assert(input::finite_if_given(values[names.len() - 1]));
        assert(names.last() == names[names.len() - 1]);
        assert(values.drop_last().push(values.last()) =~= values);
    } else {
        assert(values =~= Seq::empty());
    }
}

/// The names in a phase block are all different.
proof fn lemma_phase_names()
    ensures
        "voltage_v"@.len() == 9,
        "voltage_v"@[0] == 'v',
        "current_a"@.len() == 9,
        "current_a"@[0] == 'c',
        "real_power_w"@.len() == 12,
        "apparent_power_va"@.len() == 17,
        "reactive_power_var"@.len() == 18,
        "cos_phi"@.len() == 7,
        "real_energy_consumed_wh"@.len() == 23,
        "thd_voltage_pct"@.len() == 15,
        "thd_voltage_pct"@[4] == 'v',
        "thd_current_pct"@.len() == 15,
        "thd_current_pct"@[4] == 'c',
{
    reveal_strlit("voltage_v");
    reveal_strlit("current_a");
    reveal_strlit("real_power_w");
    reveal_strlit("apparent_power_va");
    reveal_strlit("reactive_power_var");
    reveal_strlit("cos_phi");
    reveal_strlit("real_energy_consumed_wh");
    reveal_strlit("thd_voltage_pct");
    reveal_strlit("thd_current_pct");
}

/// The names in a measurement, the older names of the power among them, are all
/// different.
proof fn lemma_reading_names()
    ensures
        "total_power"@.len() == 11,
        "total_power"@[0] == 't',
        "systime"@.len() == 7,
        "frequency_hz"@.len() == 12,
        "l1"@.len() == 2,
        "l1"@[1] == '1',
        "l2"@.len() == 2,
        "l2"@[1] == '2',
        "l3"@.len() == 2,
        "l3"@[1] == '3',
        "totals"@.len() == 6,
        "heartbeat"@.len() == 9,
        "power"@.len() == 5,
        "power_watts"@.len() == 11,
        "power_watts"@[0] == 'p',
        "power_l1_n"@.len() == 10,
{
    reveal_strlit("total_power");
    reveal_strlit("systime");
    reveal_strlit("frequency_hz");
    reveal_strlit("l1");
    reveal_strlit("l2");
    reveal_strlit("l3");
    reveal_strlit("totals");
    reveal_strlit("heartbeat");
    reveal_strlit("power");
    reveal_strlit("power_watts");
    reveal_strlit("power_l1_n");
}

/// The values of one phase, `null` for each that is not known.
pub fn phase_block(phase: &PhaseReading) -> (block: Json)
    ensures
        is_phase_block(block, *phase),
{
    let mut members: Vec<(String, Json)> = no_members();
    proof {
        lemma_phase_names();
    }
    push_number(&mut members, "voltage_v", phase.voltage_v);
    push_number(&mut members, "current_a", phase.current_a);
    push_number(&mut members, "real_power_w", phase.real_power_w);
    push_number(&mut members, "apparent_power_va", phase.apparent_power_va);
    push_number(&mut members, "reactive_power_var", phase.reactive_power_var);
    push_number(&mut members, "cos_phi", phase.cos_phi);
    push_number(&mut members, "real_energy_consumed_wh", phase.real_energy_consumed_wh);
    push_number(&mut members, "thd_voltage_pct", phase.thd_voltage_pct);
    push_number(&mut members, "thd_current_pct", phase.thd_current_pct);
    Json::Object(members)
}

/// The three-phase sums, `null` for each that is not known.
pub fn totals_block(totals: &TotalsReading) -> (block: Json)
    ensures
        is_totals_block(block, *totals),
{
    let mut members: Vec<(String, Json)> = no_members();
    proof {
        lemma_phase_names();
    }
    push_number(&mut members, "real_power_w", totals.real_power_w);
    push_number(&mut members, "apparent_power_va", totals.apparent_power_va);
    push_number(&mut members, "reactive_power_var", totals.reactive_power_var);
    Json::Object(members)
}

/// A block in which nothing is wrong holds finite numbers alone.
proof fn lemma_values_are_finite(
    prefix: Seq<char>,
    names: Seq<Seq<char>>,
    values: Seq<Option<Binary32>>,
    index: int,
)
    requires
        input::block_error(prefix, names, values) is None,
        0 <= index < names.len(),
    ensures
        input::finite_if_given(values[index]),
    decreases names.len(),
{
    if index < names.len() - 1 {
        lemma_values_are_finite(prefix, names.drop_last(), values, index);
    }
}

proof fn lemma_phase_is_read(
    members: Seq<(String, Json)>,
    name: Seq<char>,
    prefix: Seq<char>,
    phase: Option<PhaseReading>,
)
    requires
        holds_phase(members, name, phase),
        input::phase_error(prefix, phase) is None,
    ensures
        input::phase_field(json::member(members, name)) == Some(phase),
{
    if let Some(phase) = phase {
        let block = json::member(members, name)->Present_0;
        let values = input::phase_values(phase);
        assert forall|i: int| 0 <= i < input::phase_names().len() implies input::finite_if_given(
            #[trigger] values[i],
        ) by {
            lemma_values_are_finite(prefix, input::phase_names(), values, i);
        }
        lemma_block_is_complete(
            block->Object_0@,
            input::phase_names(),
            input::phase_values(phase),
        );
        assert(input::phase_from(input::phase_values(phase)) == phase);
    }
}

proof fn lemma_totals_are_read(members: Seq<(String, Json)>, totals: Option<TotalsReading>)
    requires
        holds_totals(members, totals),
        input::totals_error(totals) is None,
    ensures
        input::totals_field(json::member(members, "totals"@)) == Some(totals),
{
    if let Some(totals) = totals {
        let block = json::member(members, "totals"@)->Present_0;
        let values = input::totals_values(totals);
        assert forall|i: int| 0 <= i < input::totals_names().len() implies input::finite_if_given(
            #[trigger] values[i],
        ) by {
            lemma_values_are_finite("totals."@, input::totals_names(), values, i);
        }
        lemma_block_is_complete(
            block->Object_0@,
            input::totals_names(),
            input::totals_values(totals),
        );
        assert(input::totals_from(input::totals_values(totals)) == totals);
    }
}

/// What an object holds under the name of a phase: its block, or nothing.
pub open spec fn holds_phase(
    members: Seq<(String, Json)>,
    name: Seq<char>,
    phase: Option<PhaseReading>,
) -> bool {
    match phase {
        Some(phase) => json::member(members, name) matches Field::Present(block)
            && is_phase_block(block, phase),
        None => json::member(members, name) == Field::Absent,
    }
}

/// What an object holds under the name of the sums: their block, or nothing.
pub open spec fn holds_totals(members: Seq<(String, Json)>, totals: Option<TotalsReading>) -> bool {
    match totals {
        Some(totals) => json::member(members, "totals"@) matches Field::Present(block)
            && is_totals_block(block, totals),
        None => json::member(members, "totals"@) == Field::Absent,
    }
}

fn phase_member(phase: &Option<PhaseReading>) -> (block: Option<Json>)
    ensures
        match *phase {
            Some(phase) => block matches Some(block) && is_phase_block(block, phase),
            None => block is None,
        },
{
    match phase {
        Some(phase) => Some(phase_block(phase)),
        None => None,
    }
}

fn totals_member(totals: &Option<TotalsReading>) -> (block: Option<Json>)
    ensures
        match *totals {
            Some(totals) => block matches Some(block) && is_totals_block(block, totals),
            None => block is None,
        },
{
    match totals {
        Some(totals) => Some(totals_block(totals)),
        None => None,
    }
}

/// One for something that is there.
pub open spec fn one_if(there: bool) -> int {
    if there {
        1
    } else {
        0
    }
}

/// How many members a reading is written with next to its mark: the power, and
/// what else it carries.
pub open spec fn carried(reading: MeterReading) -> int {
    1 + one_if(reading.systime is Some) + one_if(reading.frequency_hz is Some) + one_if(
        reading.l1 is Some,
    ) + one_if(reading.l2 is Some) + one_if(reading.l3 is Some) + one_if(reading.totals is Some)
}

/// The names that a reading is written with.
pub open spec fn reading_names() -> Set<Seq<char>> {
    set![
        "total_power"@,
        "systime"@,
        "frequency_hz"@,
        "l1"@,
        "l2"@,
        "l3"@,
        "totals"@,
        "heartbeat"@,
    ]
}

/// A reading, written out: under each name what the reading carries, nothing
/// where it carries nothing, and no other name.  A value that was unavailable, or
/// is not finite, is `null`; `mark` is what stands under `heartbeat`.
pub open spec fn writes(json: Json, reading: MeterReading, mark: Field) -> bool {
    let members = json->Object_0@;
    &&& json is Object
    &&& members.len() == carried(reading) + one_if(mark is Present)
    &&& json::member(members, "total_power"@) == Field::Present(
        json::written_number(reading.total_power),
    )
    &&& json::member(members, "systime"@) == match reading.systime {
        Some(systime) => Field::Present(Json::Integer(systime as i128)),
        None => Field::Absent,
    }
    &&& json::member(members, "frequency_hz"@) == match reading.frequency_hz {
        Some(frequency) => Field::Present(json::optional_number(frequency)),
        None => Field::Absent,
    }
    &&& holds_phase(members, "l1"@, reading.l1)
    &&& holds_phase(members, "l2"@, reading.l2)
    &&& holds_phase(members, "l3"@, reading.l3)
    &&& holds_totals(members, reading.totals)
    &&& json::member(members, "heartbeat"@) == mark
    &&& forall|name: Seq<char>|
        !reading_names().contains(name) ==> #[trigger] json::member(members, name)
            == Field::Absent
}

/// The mark of a reading that is only marked where it is a keepalive.
pub open spec fn mark_of(reading: MeterReading) -> Field {
    if reading.heartbeat {
        Field::Present(Json::Bool(true))
    } else {
        Field::Absent
    }
}

/// A reading written out, with everything it does not carry left out, and `null`
/// for what was unavailable.  Reading it gives a reading of finite values back.
#[verifier::rlimit(40)]
pub fn reading_json(reading: &MeterReading) -> (json: Json)
    ensures
        writes(json, *reading, mark_of(*reading)),
        input::value_error(*reading) is None ==> input::typed_reading(
            Shape::Members(json->Object_0@),
        ) == Some(*reading),
{
    let heartbeat: Option<Json> = if reading.heartbeat {
        Some(Json::Bool(true))
    } else {
        None
    };
    let json: Json = marked_json(reading, heartbeat);
    proof {
        if input::value_error(*reading) is None {
            lemma_what_is_written_is_read(json, *reading, mark_of(*reading));
        }
    }
    json
}

/// A reading written out under a mark.
#[verifier::rlimit(40)]
pub fn marked_json(reading: &MeterReading, heartbeat: Option<Json>) -> (json: Json)
    ensures
        writes(
            json,
            *reading,
            match heartbeat {
                Some(mark) => Field::Present(mark),
                None => Field::Absent,
            },
        ),
{
    let mut members: Vec<(String, Json)> = no_members();
    proof {
        lemma_reading_names();
    }
    let systime: Option<Json> = match reading.systime {
        Some(systime) => Some(Json::Integer(systime as i128)),
        None => None,
    };
    let frequency: Option<Json> = match reading.frequency_hz {
        Some(frequency) => Some(write_optional(frequency)),
        None => None,
    };
    let l1: Option<Json> = phase_member(&reading.l1);
    let l2: Option<Json> = phase_member(&reading.l2);
    let l3: Option<Json> = phase_member(&reading.l3);
    let totals: Option<Json> = totals_member(&reading.totals);
    push_member(&mut members, "total_power", write_number(reading.total_power));
    push_optional(&mut members, "systime", systime);
    push_optional(&mut members, "frequency_hz", frequency);
    push_optional(&mut members, "l1", l1);
    push_optional(&mut members, "l2", l2);
    push_optional(&mut members, "l3", l3);
    push_optional(&mut members, "totals", totals);
    push_optional(&mut members, "heartbeat", heartbeat);
    Json::Object(members)
}

/// What is written of a reading of finite values is read as the reading.
pub proof fn lemma_what_is_written_is_read(json: Json, reading: MeterReading, mark: Field)
    requires
        writes(json, reading, mark),
        mark == Field::Present(Json::Bool(reading.heartbeat)) || mark == Field::Absent
            && !reading.heartbeat,
        input::value_error(reading) is None,
    ensures
        input::typed_reading(Shape::Members(json->Object_0@)) == Some(reading),
        input::decoded_request(json) == Ok::<Seq<MeterReading>, Seq<char>>(seq![reading]),
{
    reveal(input::typed_reading);
    reveal(input::value_error);
    lemma_reading_names();
    let members = json->Object_0@;
    let shape = Shape::Members(members);
    assert(!reading_names().contains("power"@));
    assert(!reading_names().contains("power_watts"@));
    assert(!reading_names().contains("power_l1_n"@));
    assert(input::power_field(shape) == Some(reading.total_power));
    assert(input::frequency_field(shape.at("frequency_hz"@, 2)) == Some(reading.frequency_hz));
    lemma_phase_is_read(members, "l1"@, "l1."@, reading.l1);
    lemma_phase_is_read(members, "l2"@, "l2."@, reading.l2);
    lemma_phase_is_read(members, "l3"@, "l3."@, reading.l3);
    lemma_totals_are_read(members, reading.totals);
    input::lemma_a_single_reading_is_decoded(json, reading);
}

/// A value as it is written: a number, or `null` for one that is not known or is
/// none.
pub open spec fn value_or_null(value: Option<Binary32>) -> Field {
    if value is Some && value->0.finite() {
        Field::Present(Json::Decimal(value->0))
    } else {
        Field::Present(Json::Null)
    }
}

/// A member holds the values of a phase under their names, and is left out where
/// there are none.
pub open spec fn writes_phase(field: Field, phase: Option<PhaseReading>) -> bool {
    match phase {
        None => field == Field::Absent,
        Some(phase) => field is Present && field->Present_0 is Object && {
            let block = field->Present_0->Object_0@;
            &&& block.len() == 9
            &&& json::member(block, "voltage_v"@) == value_or_null(phase.voltage_v)
            &&& json::member(block, "current_a"@) == value_or_null(phase.current_a)
            &&& json::member(block, "real_power_w"@) == value_or_null(phase.real_power_w)
            &&& json::member(block, "apparent_power_va"@) == value_or_null(phase.apparent_power_va)
            &&& json::member(block, "reactive_power_var"@) == value_or_null(phase.reactive_power_var)
            &&& json::member(block, "cos_phi"@) == value_or_null(phase.cos_phi)
            &&& json::member(block, "real_energy_consumed_wh"@) == value_or_null(phase.real_energy_consumed_wh)
            &&& json::member(block, "thd_voltage_pct"@) == value_or_null(phase.thd_voltage_pct)
            &&& json::member(block, "thd_current_pct"@) == value_or_null(phase.thd_current_pct)
        },
    }
}

proof fn lemma_a_phase_is_written(members: Seq<(String, Json)>, name: Seq<char>, phase: Option<PhaseReading>)
    requires
        holds_phase(members, name, phase),
    ensures
        writes_phase(json::member(members, name), phase),
{
    if let Some(phase) = phase {
        let block = json::member(members, name)->Present_0->Object_0@;
        let names = input::phase_names();
        assert(json::member(block, names[0]) == value_or_null(phase.voltage_v));
        assert(json::member(block, names[1]) == value_or_null(phase.current_a));
        assert(json::member(block, names[2]) == value_or_null(phase.real_power_w));
        assert(json::member(block, names[3]) == value_or_null(phase.apparent_power_va));
        assert(json::member(block, names[4]) == value_or_null(phase.reactive_power_var));
        assert(json::member(block, names[5]) == value_or_null(phase.cos_phi));
        assert(json::member(block, names[6]) == value_or_null(phase.real_energy_consumed_wh));
        assert(json::member(block, names[7]) == value_or_null(phase.thd_voltage_pct));
        assert(json::member(block, names[8]) == value_or_null(phase.thd_current_pct));
    }
}

/// A reading is written member by member: each phase in its own block, every
/// value under its own name, and nothing for what the reading does not carry.
pub proof fn lemma_a_reading_is_written_under_its_names(
    json: Json,
    reading: MeterReading,
    mark: Field,
)
    requires
        writes(json, reading, mark),
    ensures
        json is Object,
        ({
            let members = json->Object_0@;
            &&& json::member(members, "total_power"@) == value_or_null(Some(reading.total_power))
            &&& reading.systime is Some ==> json::member(members, "systime"@) == Field::Present(
                Json::Integer(reading.systime->0 as i128),
            )
            &&& reading.systime is None ==> json::member(members, "systime"@) == Field::Absent
            &&& reading.frequency_hz is Some ==> json::member(members, "frequency_hz"@)
                == value_or_null(reading.frequency_hz->0)
            &&& reading.frequency_hz is None ==> json::member(members, "frequency_hz"@)
                == Field::Absent
            &&& writes_phase(json::member(members, "l1"@), reading.l1)
            &&& writes_phase(json::member(members, "l2"@), reading.l2)
            &&& writes_phase(json::member(members, "l3"@), reading.l3)
            &&& reading.totals is None ==> json::member(members, "totals"@) == Field::Absent
            &&& reading.totals is Some ==> json::member(members, "totals"@) is Present
                && json::member(members, "totals"@)->Present_0 is Object && {
                let block = json::member(members, "totals"@)->Present_0->Object_0@;
                let totals = reading.totals->0;
                &&& block.len() == 3
                &&& json::member(block, "real_power_w"@) == value_or_null(totals.real_power_w)
                &&& json::member(block, "apparent_power_va"@) == value_or_null(
                    totals.apparent_power_va,
                )
                &&& json::member(block, "reactive_power_var"@) == value_or_null(
                    totals.reactive_power_var,
                )
            }
            &&& json::member(members, "heartbeat"@) == mark
        }),
{
    let members = json->Object_0@;
    lemma_a_phase_is_written(members, "l1"@, reading.l1);
    lemma_a_phase_is_written(members, "l2"@, reading.l2);
    lemma_a_phase_is_written(members, "l3"@, reading.l3);
    if let Some(totals) = reading.totals {
        let block = json::member(members, "totals"@)->Present_0->Object_0@;
        let names = input::totals_names();
        assert(json::member(block, names[0]) == value_or_null(totals.real_power_w));
        assert(json::member(block, names[1]) == value_or_null(totals.apparent_power_va));
        assert(json::member(block, names[2]) == value_or_null(totals.reactive_power_var));
    }
}

/// A reading says that it is a keepalive where it is one, and nothing of it
/// otherwise.
pub proof fn lemma_only_keepalives_are_marked(reading: MeterReading)
    ensures
        reading.heartbeat ==> mark_of(reading) == Field::Present(Json::Bool(true)),
        !reading.heartbeat ==> mark_of(reading) == Field::Absent,
{
}

} // verus!
