//! The change thresholds of the gateway, and the configuration by which the
//! receiver adjusts them.

use vstd::prelude::*;
use vstd::string::*;

use crate::binary32::Binary32;
use crate::json;
use crate::json::{
    as_number, no_members, push_optional, source_of, write_number, Field, Found, Json, Source,
};

verus! {

/// An adjustment of the thresholds.  What it leaves out stays as it is.
#[derive(Clone, Copy, Debug, PartialEq, Eq, Structural)]
pub struct ClientThresholdConfig {
    pub voltage_step_v: Option<Binary32>,
    pub voltage_enabled: Option<bool>,
    pub frequency_step_hz: Option<Binary32>,
    pub frequency_enabled: Option<bool>,
    pub thd_voltage_step_pct: Option<Binary32>,
    pub thd_voltage_enabled: Option<bool>,
    pub thd_current_step_pct: Option<Binary32>,
    pub thd_current_enabled: Option<bool>,
    /// The settling window in seconds; `Some(None)` switches it off.
    pub settling_window_secs: Option<Option<u64>>,
}

/// A step as a configuration carries it: a number, or nothing.  The outer
/// `None` means that the member is malformed.
pub open spec fn step_field(field: Field) -> Option<Option<Binary32>> {
    match field {
        Field::Absent => Some(None),
        Field::Present(Json::Null) => Some(None),
        Field::Present(value) => match json::number(value) {
            Some(number) => Some(Some(number)),
            None => None,
        },
        Field::Repeated => None,
    }
}

/// A switch as a configuration carries it.
pub open spec fn switch_field(field: Field) -> Option<Option<bool>> {
    match field {
        Field::Absent => Some(None),
        Field::Present(Json::Null) => Some(None),
        Field::Present(Json::Bool(enabled)) => Some(Some(enabled)),
        _ => None,
    }
}

/// The settling window as a configuration carries it: left out, switched off by
/// `null`, or a whole number of seconds.
pub open spec fn window_field(field: Field) -> Option<Option<Option<u64>>> {
    match field {
        Field::Absent => Some(None),
        Field::Present(Json::Null) => Some(Some(None)),
        Field::Present(Json::Integer(secs)) => if 0 <= secs <= u64::MAX {
            Some(Some(Some(secs as u64)))
        } else {
            None
        },
        _ => None,
    }
}

/// Values that a configuration written as a list has places for.
pub const CONFIG_PLACES: usize = 9;

/// The configuration that an object writes out, or a list of its values in
/// order, if every member of it is well formed.  Members with other names are
/// ignored.
pub open spec fn config_of(json: Json) -> Option<ClientThresholdConfig> {
    match json::shape_of(json) {
        Some(shape) => {
            let voltage_step = step_field(shape.at("voltage_step_v"@, 0));
            let voltage = switch_field(shape.at("voltage_enabled"@, 1));
            let frequency_step = step_field(shape.at("frequency_step_hz"@, 2));
            let frequency = switch_field(shape.at("frequency_enabled"@, 3));
            let thd_voltage_step = step_field(shape.at("thd_voltage_step_pct"@, 4));
            let thd_voltage = switch_field(shape.at("thd_voltage_enabled"@, 5));
            let thd_current_step = step_field(shape.at("thd_current_step_pct"@, 6));
            let thd_current = switch_field(shape.at("thd_current_enabled"@, 7));
            let window = window_field(shape.at("settling_window_secs"@, 8));
            if shape.fits(CONFIG_PLACES as nat) && voltage_step is Some && voltage is Some && frequency_step is Some
                && frequency is Some && thd_voltage_step is Some && thd_voltage is Some
                && thd_current_step is Some && thd_current is Some && window is Some {
                Some(
                    ClientThresholdConfig {
                        voltage_step_v: voltage_step->0,
                        voltage_enabled: voltage->0,
                        frequency_step_hz: frequency_step->0,
                        frequency_enabled: frequency->0,
                        thd_voltage_step_pct: thd_voltage_step->0,
                        thd_voltage_enabled: thd_voltage->0,
                        thd_current_step_pct: thd_current_step->0,
                        thd_current_enabled: thd_current->0,
                        settling_window_secs: window->0,
                    },
                )
            } else {
                None
            }
        },
        None => None,
    }
}

fn read_step(source: Source<'_>, name: &str, place: usize) -> (step: Option<Option<Binary32>>)
    ensures
        step == step_field(source.shape().at(name@, place as int)),
{
    match source.find(name, place) {
        Found::Absent => Some(None),
        Found::Present(value) => match value {
            Json::Null => Some(None),
            _ => match as_number(value) {
                Some(number) => Some(Some(number)),
                None => None,
            },
        },
        Found::Repeated => None,
    }
}

fn read_switch(source: Source<'_>, name: &str, place: usize) -> (switch: Option<Option<bool>>)
    ensures
        switch == switch_field(source.shape().at(name@, place as int)),
{
    match source.find(name, place) {
        Found::Absent => Some(None),
        Found::Present(value) => match value {
            Json::Null => Some(None),
            Json::Bool(enabled) => Some(Some(*enabled)),
            _ => None,
        },
        Found::Repeated => None,
    }
}

fn read_window(source: Source<'_>, name: &str, place: usize) -> (window: Option<Option<Option<u64>>>)
    ensures
        window == window_field(source.shape().at(name@, place as int)),
{
    match source.find(name, place) {
        Found::Absent => Some(None),
        Found::Present(value) => match value {
            Json::Null => Some(Some(None)),
            Json::Integer(secs) => {
                if 0 <= *secs && *secs <= u64::MAX as i128 {
                    Some(Some(Some(*secs as u64)))
                } else {
                    None
                }
            },
            _ => None,
        },
        Found::Repeated => None,
    }
}

/// Reads a configuration.
pub fn decode_config(json: &Json) -> (config: Option<ClientThresholdConfig>)
    ensures
        config == config_of(*json),
{
    match source_of(json) {
        Some(source) => {
            if !source.has_place(CONFIG_PLACES) {
                return None;
            }
            let voltage_step = read_step(source, "voltage_step_v", 0);
            let voltage = read_switch(source, "voltage_enabled", 1);
            let frequency_step = read_step(source, "frequency_step_hz", 2);
            let frequency = read_switch(source, "frequency_enabled", 3);
            let thd_voltage_step = read_step(source, "thd_voltage_step_pct", 4);
            let thd_voltage = read_switch(source, "thd_voltage_enabled", 5);
            let thd_current_step = read_step(source, "thd_current_step_pct", 6);
            let thd_current = read_switch(source, "thd_current_enabled", 7);
            let window = read_window(source, "settling_window_secs", 8);
            match (voltage_step, voltage, frequency_step, frequency, window) {
                (Some(a), Some(b), Some(c), Some(d), Some(w)) => match (
                    thd_voltage_step,
                    thd_voltage,
                    thd_current_step,
                    thd_current,
                ) {
                    (Some(e), Some(f), Some(g), Some(h)) => Some(
                        ClientThresholdConfig {
                            voltage_step_v: a,
                            voltage_enabled: b,
                            frequency_step_hz: c,
                            frequency_enabled: d,
                            thd_voltage_step_pct: e,
                            thd_voltage_enabled: f,
                            thd_current_step_pct: g,
                            thd_current_enabled: h,
                            settling_window_secs: w,
                        },
                    ),
                    _ => None,
                },
                _ => None,
            }
        },
        None => None,
    }
}

/// A step as a configuration writes it: a number, or not at all.
pub open spec fn written_step(step: Option<Binary32>) -> Field {
    match step {
        Some(number) => Field::Present(json::written_number(number)),
        None => Field::Absent,
    }
}

/// A switch as a configuration writes it.
pub open spec fn written_switch(switch: Option<bool>) -> Field {
    match switch {
        Some(enabled) => Field::Present(Json::Bool(enabled)),
        None => Field::Absent,
    }
}

/// The settling window as a configuration writes it.
pub open spec fn written_window(window: Option<Option<u64>>) -> Field {
    match window {
        Some(Some(secs)) => Field::Present(Json::Integer(secs as i128)),
        Some(None) => Field::Present(Json::Null),
        None => Field::Absent,
    }
}

/// A configuration, written out: under each name what it sets, and nothing where
/// it leaves the setting as it is.
pub open spec fn writes_config(json: Json, config: ClientThresholdConfig) -> bool {
    let members = json->Object_0@;
    &&& json is Object
    &&& json::member(members, "voltage_step_v"@) == written_step(config.voltage_step_v)
    &&& json::member(members, "voltage_enabled"@) == written_switch(config.voltage_enabled)
    &&& json::member(members, "frequency_step_hz"@) == written_step(config.frequency_step_hz)
    &&& json::member(members, "frequency_enabled"@) == written_switch(config.frequency_enabled)
    &&& json::member(members, "thd_voltage_step_pct"@) == written_step(
        config.thd_voltage_step_pct,
    )
    &&& json::member(members, "thd_voltage_enabled"@) == written_switch(
        config.thd_voltage_enabled,
    )
    &&& json::member(members, "thd_current_step_pct"@) == written_step(
        config.thd_current_step_pct,
    )
    &&& json::member(members, "thd_current_enabled"@) == written_switch(
        config.thd_current_enabled,
    )
    &&& json::member(members, "settling_window_secs"@) == written_window(
        config.settling_window_secs,
    )
    &&& forall|name: Seq<char>|
        !config_names().contains(name) ==> #[trigger] json::member(members, name) == Field::Absent
}

/// The names that a configuration is written with.
pub open spec fn config_names() -> Set<Seq<char>> {
    set![
        "voltage_step_v"@,
        "voltage_enabled"@,
        "frequency_step_hz"@,
        "frequency_enabled"@,
        "thd_voltage_step_pct"@,
        "thd_voltage_enabled"@,
        "thd_current_step_pct"@,
        "thd_current_enabled"@,
        "settling_window_secs"@,
    ]
}

fn step_member(step: Option<Binary32>) -> (value: Option<Json>)
    ensures
        value == match step {
            Some(number) => Some(json::written_number(number)),
            None => None,
        },
{
    match step {
        Some(number) => Some(write_number(number)),
        None => None,
    }
}

fn switch_member(switch: Option<bool>) -> (value: Option<Json>)
    ensures
        value == match switch {
            Some(enabled) => Some(Json::Bool(enabled)),
            None => None,
        },
{
    match switch {
        Some(enabled) => Some(Json::Bool(enabled)),
        None => None,
    }
}

/// A step that can be told: a finite number.
pub open spec fn told(step: Option<Binary32>) -> Option<Binary32> {
    match step {
        Some(number) => if number.finite() {
            Some(number)
        } else {
            None
        },
        None => None,
    }
}

impl ClientThresholdConfig {
    /// What the other end learns of the adjustment: all of it but the steps that
    /// are not finite.
    pub open spec fn as_told(self) -> ClientThresholdConfig {
        ClientThresholdConfig {
            voltage_step_v: told(self.voltage_step_v),
            frequency_step_hz: told(self.frequency_step_hz),
            thd_voltage_step_pct: told(self.thd_voltage_step_pct),
            thd_current_step_pct: told(self.thd_current_step_pct),
            ..self
        }
    }
}

/// The names of the members of a configuration are all different.
proof fn lemma_config_names()
    ensures
        "voltage_step_v"@.len() == 14,
        "voltage_enabled"@.len() == 15,
        "frequency_step_hz"@.len() == 17,
        "frequency_enabled"@.len() == 17,
        "frequency_step_hz"@[10] == 's',
        "frequency_enabled"@[10] == 'e',
        "thd_voltage_step_pct"@.len() == 20,
        "thd_voltage_enabled"@.len() == 19,
        "thd_current_step_pct"@.len() == 20,
        "thd_current_enabled"@.len() == 19,
        "thd_voltage_step_pct"@[4] == 'v',
        "thd_current_step_pct"@[4] == 'c',
        "thd_voltage_enabled"@[4] == 'v',
        "thd_current_enabled"@[4] == 'c',
        "settling_window_secs"@.len() == 20,
        "settling_window_secs"@[4] == 'l',
{
    reveal_strlit("voltage_step_v");
    reveal_strlit("voltage_enabled");
    reveal_strlit("frequency_step_hz");
    reveal_strlit("frequency_enabled");
    reveal_strlit("thd_voltage_step_pct");
    reveal_strlit("thd_voltage_enabled");
    reveal_strlit("thd_current_step_pct");
    reveal_strlit("thd_current_enabled");
    reveal_strlit("settling_window_secs");
}

/// Writes a configuration, leaving out what it leaves unchanged.  Reading it
/// gives the configuration back, as far as its steps are finite.
pub fn encode_config(config: &ClientThresholdConfig) -> (json: Json)
    ensures
        writes_config(json, *config),
        config_of(json) == Some(config.as_told()),
{
    let mut members: Vec<(String, Json)> = no_members();
    proof {
        lemma_config_names();
    }
    push_optional(&mut members, "voltage_step_v", step_member(config.voltage_step_v));
    push_optional(&mut members, "voltage_enabled", switch_member(config.voltage_enabled));
    push_optional(&mut members, "frequency_step_hz", step_member(config.frequency_step_hz));
    push_optional(&mut members, "frequency_enabled", switch_member(config.frequency_enabled));
    push_optional(&mut members, "thd_voltage_step_pct", step_member(config.thd_voltage_step_pct));
    push_optional(&mut members, "thd_voltage_enabled", switch_member(config.thd_voltage_enabled));
    push_optional(&mut members, "thd_current_step_pct", step_member(config.thd_current_step_pct));
    push_optional(&mut members, "thd_current_enabled", switch_member(config.thd_current_enabled));
    let window: Option<Json> = match config.settling_window_secs {
        Some(window) => Some(
            match window {
                Some(secs) => Json::Integer(secs as i128),
                None => Json::Null,
            },
        ),
        None => None,
    };
    push_optional(&mut members, "settling_window_secs", window);
    Json::Object(members)
}

/// A member stands for a step: a number for the number, and `null` or nothing
/// for none.
pub open spec fn stands_for_step(field: Field, step: Option<Binary32>) -> bool {
    match field {
        Field::Absent => step is None,
        Field::Present(Json::Null) => step is None,
        Field::Present(Json::Decimal(number)) => step == Some(number),
        Field::Present(Json::Integer(number)) => -0x8000_0000_0000_0000 <= number
            <= 0xffff_ffff_ffff_ffff && step == Some(Binary32::nearest_integer(number as int)),
        _ => false,
    }
}

/// A member stands for a switch.
pub open spec fn stands_for_switch(field: Field, switch: Option<bool>) -> bool {
    match field {
        Field::Absent => switch is None,
        Field::Present(Json::Null) => switch is None,
        Field::Present(Json::Bool(enabled)) => switch == Some(enabled),
        _ => false,
    }
}

/// A configuration is read exactly if each of its members stands for the setting
/// with its name, or with its place in a list; for the settling window alone,
/// `null` is something else than nothing.
#[verifier::rlimit(40)]
pub proof fn lemma_settings_are_read_by_their_names(json: Json, config: ClientThresholdConfig)
    ensures
        config_of(json) == Some(config) <==> json::shape_of(json) is Some && {
            let shape = json::shape_of(json)->0;
            &&& shape.fits(9)
            &&& stands_for_step(shape.at("voltage_step_v"@, 0), config.voltage_step_v)
            &&& stands_for_switch(shape.at("voltage_enabled"@, 1), config.voltage_enabled)
            &&& stands_for_step(shape.at("frequency_step_hz"@, 2), config.frequency_step_hz)
            &&& stands_for_switch(shape.at("frequency_enabled"@, 3), config.frequency_enabled)
            &&& stands_for_step(shape.at("thd_voltage_step_pct"@, 4), config.thd_voltage_step_pct)
            &&& stands_for_switch(shape.at("thd_voltage_enabled"@, 5), config.thd_voltage_enabled)
            &&& stands_for_step(shape.at("thd_current_step_pct"@, 6), config.thd_current_step_pct)
            &&& stands_for_switch(shape.at("thd_current_enabled"@, 7), config.thd_current_enabled)
            &&& match shape.at("settling_window_secs"@, 8) {
                Field::Absent => config.settling_window_secs is None,
                Field::Present(Json::Null) => config.settling_window_secs == Some(None::<u64>),
                Field::Present(Json::Integer(secs)) => config.settling_window_secs matches Some(
                    Some(given),
                ) && given == secs,
                _ => false,
            }
        },
{
    if json::shape_of(json) is Some {
        let shape = json::shape_of(json)->0;
        assert(step_field(shape.at("voltage_step_v"@, 0)) == Some(config.voltage_step_v)
            <==> stands_for_step(shape.at("voltage_step_v"@, 0), config.voltage_step_v));
        assert(step_field(shape.at("frequency_step_hz"@, 2)) == Some(config.frequency_step_hz)
            <==> stands_for_step(shape.at("frequency_step_hz"@, 2), config.frequency_step_hz));
        assert(step_field(shape.at("thd_voltage_step_pct"@, 4)) == Some(config.thd_voltage_step_pct)
            <==> stands_for_step(
            shape.at("thd_voltage_step_pct"@, 4),
            config.thd_voltage_step_pct,
        ));
        assert(step_field(shape.at("thd_current_step_pct"@, 6)) == Some(config.thd_current_step_pct)
            <==> stands_for_step(
            shape.at("thd_current_step_pct"@, 6),
            config.thd_current_step_pct,
        ));
    }
}

/// What the other end learns of an adjustment is the adjustment, apart from
/// steps that are no numbers.
pub proof fn lemma_an_adjustment_is_told_as_it_is(config: ClientThresholdConfig)
    ensures
        ({
            let told = config.as_told();
            &&& told.voltage_enabled == config.voltage_enabled
            &&& told.frequency_enabled == config.frequency_enabled
            &&& told.thd_voltage_enabled == config.thd_voltage_enabled
            &&& told.thd_current_enabled == config.thd_current_enabled
            &&& told.settling_window_secs == config.settling_window_secs
            &&& (config.voltage_step_v is Some ==> config.voltage_step_v->0.finite())
                ==> told.voltage_step_v == config.voltage_step_v
            &&& (config.frequency_step_hz is Some ==> config.frequency_step_hz->0.finite())
                ==> told.frequency_step_hz == config.frequency_step_hz
            &&& (config.thd_voltage_step_pct is Some ==> config.thd_voltage_step_pct->0.finite())
                ==> told.thd_voltage_step_pct == config.thd_voltage_step_pct
            &&& (config.thd_current_step_pct is Some ==> config.thd_current_step_pct->0.finite())
                ==> told.thd_current_step_pct == config.thd_current_step_pct
        }),
{
}

/// A setting is written as it is, and left out where it is not set; a step that
/// is no number is `null`, and so is a settling window that is switched off.
pub proof fn lemma_settings_are_written_under_their_names(json: Json, config: ClientThresholdConfig)
    requires
        writes_config(json, config),
    ensures
        json is Object,
        ({
            let members = json->Object_0@;
            let step = |step: Option<Binary32>|
                match step {
                    None => Field::Absent,
                    Some(number) => if number.finite() {
                        Field::Present(Json::Decimal(number))
                    } else {
                        Field::Present(Json::Null)
                    },
                };
            let switch = |switch: Option<bool>|
                match switch {
                    None => Field::Absent,
                    Some(enabled) => Field::Present(Json::Bool(enabled)),
                };
            &&& json::member(members, "voltage_step_v"@) == step(config.voltage_step_v)
            &&& json::member(members, "voltage_enabled"@) == switch(config.voltage_enabled)
            &&& json::member(members, "frequency_step_hz"@) == step(config.frequency_step_hz)
            &&& json::member(members, "frequency_enabled"@) == switch(config.frequency_enabled)
            &&& json::member(members, "thd_voltage_step_pct"@) == step(config.thd_voltage_step_pct)
            &&& json::member(members, "thd_voltage_enabled"@) == switch(config.thd_voltage_enabled)
            &&& json::member(members, "thd_current_step_pct"@) == step(config.thd_current_step_pct)
            &&& json::member(members, "thd_current_enabled"@) == switch(config.thd_current_enabled)
            &&& json::member(members, "settling_window_secs"@)
                == match config.settling_window_secs {
                None => Field::Absent,
                Some(None) => Field::Present(Json::Null),
                Some(Some(secs)) => Field::Present(Json::Integer(secs as i128)),
            }
        }),
{
}

} // verus!
