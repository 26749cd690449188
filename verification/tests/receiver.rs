//! The receiving end as a whole: requests, state, views and the archive.

use serde_json::Value;

use pq_meter::binary32::Binary32;
use pq_meter::clock::{Span, Timestamp};
use pq_meter::gateway::delivery::read_answer;
use pq_meter::json::Json;
use pq_meter::receiver::api::{
    apply_batch, attach_config, decode_request, meter_unavailable, method_unavailable,
    processing_failed, reading_response, refuse, take_config, Reply, DEFAULT_PATH,
};
use pq_meter::receiver::archive::{
    archive_rows, complete_lines, cutoff, digest_text, hash_bytes, import_batches, load_cache,
    migration_due, plan_import, recent, ArchiveError, ArchiveRow, ParsedLine, StoredRow,
};
use pq_meter::receiver::dashboard::{rename_failure, LiveMeterSource};
use pq_meter::receiver::decision::{
    dummy_device_catalog, ClosestPowerMatch, DecisionMethod, Device, DeviceChange,
    SettledPowerMatch,
};
use pq_meter::receiver::encoding::reading_json;
use pq_meter::receiver::forecast::{ForecastPoint, ForecastSeries};
use pq_meter::receiver::history::History;
use pq_meter::receiver::input::{
    JsonReadingDecoder, MeterReading, PhaseReading, ReadingDecoder, TotalsReading,
};
use pq_meter::receiver::labels::{DeviceLabels, RenameError};
use pq_meter::receiver::meter::MeterState;
use pq_meter::receiver::transport::GatewayTransport;
use pq_meter::thresholds::{decode_config, ClientThresholdConfig};

/// The answer to a body that does not stand for readings.
const NO_READINGS: &str =
    "invalid meter-reading JSON: data did not match any variant of untagged enum IncomingReadings";

fn b(value: f32) -> Binary32 {
    Binary32 { bits: value.to_bits() }
}

fn f(value: Binary32) -> f32 {
    f32::from_bits(value.bits)
}

fn json_of(value: &Value) -> Json {
    match value {
        Value::Null => Json::Null,
        Value::Bool(value) => Json::Bool(*value),
        Value::Number(number) => {
            if let Some(number) = number.as_i64() {
                Json::Integer(number as i128)
            } else if let Some(number) = number.as_u64() {
                Json::Integer(number as i128)
            } else {
                Json::Decimal(b(number.as_f64().unwrap() as f32))
            }
        },
        Value::String(text) => Json::Text {
            text: text.clone(),
            number: text.parse::<f32>().ok().map(b),
        },
        Value::Array(values) => Json::List(values.iter().map(json_of).collect()),
        Value::Object(members) => Json::Object(
            members
                .iter()
                .map(|(name, value)| (name.clone(), json_of(value)))
                .collect(),
        ),
    }
}

fn value_of(json: &Json) -> Value {
    match json {
        Json::Null => Value::Null,
        Json::Bool(value) => Value::Bool(*value),
        Json::Integer(number) => Value::from(*number as i64),
        Json::Decimal(number) => Value::from(f(*number)),
        Json::Text { text, .. } => Value::String(text.clone()),
        Json::List(values) => Value::Array(values.iter().map(value_of).collect()),
        Json::Object(members) => Value::Object(
            members
                .iter()
                .map(|(name, value)| (name.clone(), value_of(value)))
                .collect(),
        ),
    }
}

fn parse(body: &str) -> Json {
    json_of(&serde_json::from_str(body).unwrap())
}

fn decode(body: &str) -> Result<Vec<MeterReading>, String> {
    match serde_json::from_str::<Value>(body) {
        Ok(value) => JsonReadingDecoder.decode_readings(&json_of(&value)),
        Err(error) => Err(format!("invalid meter-reading JSON: {error}")),
    }
}

fn decode_value(value: &Value) -> Result<Vec<MeterReading>, String> {
    JsonReadingDecoder.decode_readings(&json_of(value))
}

/// Every field that the gateway emits for a reading of one phase.
fn client_reading(power: f32, systime: i32) -> Value {
    let mut l1 = serde_json::Map::new();
    for (name, value) in [
        ("voltage_v", 230.0),
        ("current_a", 0.5),
        ("real_power_w", power),
        ("apparent_power_va", 115.0),
        ("reactive_power_var", -10.0),
        ("cos_phi", 0.9_f32),
        ("real_energy_consumed_wh", 1234.0),
        ("thd_voltage_pct", 1.5),
        ("thd_current_pct", 2.0),
    ] {
        l1.insert(name.to_owned(), Value::from(value));
    }
    let mut reading = serde_json::Map::new();
    reading.insert("total_power".to_owned(), Value::from(power));
    reading.insert("systime".to_owned(), Value::from(systime));
    reading.insert("frequency_hz".to_owned(), Value::from(50.0));
    reading.insert("l1".to_owned(), Value::Object(l1));
    Value::Object(reading)
}

fn at(secs: i64) -> Timestamp {
    Timestamp { secs: 1_789_000_000 + secs, nanos: 0 }
}

// Decoding.

#[test]
fn accepts_single_readings_aliases_and_legacy_messages() {
    for body in [
        r#"{"total_power":860.0}"#,
        r#"{"power":860.0}"#,
        r#"{"power_watts":860.0}"#,
        r#"{"power_l1_n":860.0}"#,
        r#"{"message":"860"}"#,
    ] {
        assert_eq!(decode(body), Ok(vec![MeterReading::from(b(860.0))]));
    }
}

#[test]
fn preserves_every_client_field_and_batch_order() {
    let first = client_reading(100.0, 123);
    let second = client_reading(123.0, 124);
    let batch = Value::Array(vec![first.clone(), second]);
    for value in [first, batch] {
        let decoded = decode_value(&value).unwrap();
        let expected = if value.is_array() {
            value
        } else {
            Value::Array(vec![value])
        };
        let written = Value::Array(
            decoded
                .iter()
                .map(|reading| value_of(&reading_json(reading)))
                .collect(),
        );
        assert_eq!(written, expected);
    }
}

#[test]
fn rejects_invalid_shapes_power_and_empty_batches() {
    for body in [
        "[]",
        "{}",
        "null",
        "42",
        "[[]]",
        "[null]",
        "[{}]",
        "{",
        r#"{"readings":[{"total_power":100}]}"#,
        r#"{"total_power":1e100}"#,
        r#"{"total_power":null}"#,
        r#"{"total_power":"100"}"#,
        r#"{"total_power":1,"power":2}"#,
        r#"{"message":"unknown"}"#,
        r#"{"message":"NaN"}"#,
        r#"{"message":"inf"}"#,
        r#"{"total_power":null,"message":"100"}"#,
        r#"[{"total_power":100},{"total_power":-1e100}]"#,
    ] {
        assert!(decode(body).is_err(), "{body}");
    }
}

#[test]
fn validates_context_instead_of_ignoring_it() {
    for (field, invalid) in [
        ("systime", Value::Null),
        ("systime", Value::from("invalid")),
        ("systime", Value::from(1.5)),
        ("systime", Value::from(2147483648_i64)),
        ("frequency_hz", Value::from("invalid")),
        ("frequency_hz", Value::from(1e100)),
        ("l1", Value::Null),
        ("l1", Value::from("invalid")),
    ] {
        let mut reading = client_reading(100.0, 123);
        reading[field] = invalid;
        assert!(decode_value(&reading).is_err(), "{reading}");
    }
    for field in [
        "voltage_v",
        "current_a",
        "real_power_w",
        "apparent_power_va",
        "reactive_power_var",
        "cos_phi",
        "real_energy_consumed_wh",
        "thd_voltage_pct",
        "thd_current_pct",
    ] {
        for invalid in [Value::from("invalid"), Value::from(1e100)] {
            let mut reading = client_reading(100.0, 123);
            reading["l1"][field] = invalid;
            assert!(decode_value(&reading).is_err(), "{reading}");
        }
        let mut reading = client_reading(100.0, 123);
        reading["l1"].as_object_mut().unwrap().remove(field);
        assert_eq!(
            decode_value(&reading),
            Err(NO_READINGS.to_owned()),
            "{field}"
        );
    }
}

#[test]
fn a_single_measured_value_may_be_unknown() {
    let mut reading = client_reading(100.0, 123);
    reading["frequency_hz"] = Value::Null;
    reading["l1"]["thd_current_pct"] = Value::Null;
    let decoded = decode_value(&reading).unwrap();
    assert_eq!(decoded[0].frequency_hz, Some(None));
    assert_eq!(decoded[0].frequency(), None);
    assert_eq!(decoded[0].l1.unwrap().thd_current_pct, None);
    assert_eq!(decoded[0].l1.unwrap().thd_voltage_pct, Some(b(1.5)));

    // What was unavailable stays `null`, and what was left out stays out.
    assert_eq!(value_of(&reading_json(&decoded[0])), reading);
    reading.as_object_mut().unwrap().remove("frequency_hz");
    let without = decode_value(&reading).unwrap();
    assert_eq!(without[0].frequency_hz, None);
    assert_eq!(value_of(&reading_json(&without[0])), reading);
}

#[test]
fn a_structure_may_be_a_list_of_its_values() {
    assert_eq!(decode("[860.0]"), Ok(vec![MeterReading::from(b(860.0))]));
    assert_eq!(decode(r#"["860"]"#), Ok(vec![MeterReading::from(b(860.0))]));
    assert_eq!(
        decode("[[860.0],[870.0]]"),
        Ok(vec![MeterReading::from(b(860.0)), MeterReading::from(b(870.0))])
    );
    let full = decode(
        "[100.0,123,null,[230.0,0.5,100.0,115.0,-10.0,0.9,1234.0,null,2.0],\
         [0,0,0,0,0,1,0,null,null],[0,0,0,0,0,1,0,null,null],[100.0,115.0,-10.0],true]",
    )
    .unwrap();
    assert_eq!(full.len(), 1);
    assert_eq!(full[0].total_power, b(100.0));
    assert_eq!(full[0].systime, Some(123));
    assert_eq!(full[0].frequency_hz, Some(None));
    assert_eq!(full[0].l1.unwrap().reactive_power_var, Some(b(-10.0)));
    assert_eq!(full[0].l1.unwrap().thd_voltage_pct, None);
    assert_eq!(full[0].l3.unwrap().cos_phi, Some(b(1.0)));
    assert_eq!(full[0].totals.unwrap().apparent_power_va, Some(b(115.0)));
    assert!(full[0].heartbeat);

    for body in [
        "[860.0,null]",
        "[860.0,1,50.0,[230.0]]",
        "[860.0,1,50.0,[1,2,3,4,5,6,7,8,9,10]]",
        "[[1,1,50,[],[],[],[],true,5]]",
        "[860.0,870.0]",
        r#"["860","870"]"#,
    ] {
        assert!(decode(body).is_err(), "{body}");
    }
    assert_eq!(
        decode("[[860.0,1,50.0,[230.0]]]"),
        Err(NO_READINGS.to_owned())
    );
    assert_eq!(
        decode("[[1,1,50,[],[],[],[],true,5]]"),
        Err(NO_READINGS.to_owned())
    );
}

#[test]
fn the_first_thing_wrong_is_named_with_its_place() {
    for (body, expected) in [
        (r#"[]"#, "measurement batch must not be empty"),
        (r#"42"#, NO_READINGS),
        (r#"[{"total_power":1},3]"#, NO_READINGS),
        (r#"[{"total_power":1e100},3]"#, NO_READINGS),
        (r#"{}"#, NO_READINGS),
        (r#"{"total_power":1,"power":2}"#, NO_READINGS),
        (r#"{"total_power":"1"}"#, NO_READINGS),
        (
            r#"[{"total_power":1},{"total_power":1e100},{"message":"x"}]"#,
            "reading 2: total power must be a finite number",
        ),
        (
            r#"{"total_power":1e100}"#,
            "reading 1: total power must be a finite number",
        ),
        (
            r#"{"message":"x"}"#,
            "reading 1: message must contain a power value in watts",
        ),
        (
            r#"{"total_power":1,"frequency_hz":1e100}"#,
            "reading 1: frequency_hz must be finite",
        ),
        (
            r#"{"total_power":1,"totals":{"real_power_w":1,"apparent_power_va":1e100,"reactive_power_var":1}}"#,
            "reading 1: totals.apparent_power_va must be finite",
        ),
        (r#"{"total_power":1,"heartbeat":1}"#, NO_READINGS),
    ] {
        assert_eq!(decode(body), Err(expected.to_owned()), "{body}");
    }
    let repeated = Json::Object(vec![
        ("total_power".to_owned(), Json::Integer(1)),
        ("systime".to_owned(), Json::Integer(1)),
        ("systime".to_owned(), Json::Integer(2)),
    ]);
    assert_eq!(
        JsonReadingDecoder.decode_readings(&repeated),
        Err(NO_READINGS.to_owned())
    );
    let mut bad = client_reading(1.0, 1);
    bad["l1"]["cos_phi"] = Value::from(1e100);
    assert_eq!(
        decode_value(&bad),
        Err("reading 1: l1.cos_phi must be finite".to_owned())
    );
}

#[test]
fn a_value_that_is_no_number_is_written_as_null() {
    let endless = MeterReading::from(b(f32::INFINITY));
    assert_eq!(value_of(&reading_json(&endless)).to_string(), r#"{"total_power":null}"#);
    assert_eq!(
        JsonReadingDecoder.decode_readings(&reading_json(&endless)),
        Err(NO_READINGS.to_owned())
    );
}

#[test]
fn no_two_devices_ever_share_an_id() {
    let mut meter = fresh();
    let mut method = closest();
    for (second, power) in [(0, 100.0), (1, 165.0), (2, 310.0), (3, 245.0), (4, 100.0)] {
        apply(&mut meter, power, &mut method, second);
        let snapshot = meter.snapshot();
        for devices in [&snapshot.active_devices, &snapshot.catalog] {
            for (i, device) in devices.iter().enumerate() {
                assert!(devices[..i].iter().all(|other| other.id != device.id));
            }
        }
    }
}

// State.

fn fresh() -> MeterState {
    MeterState::new(dummy_device_catalog())
}

fn apply<M: DecisionMethod>(
    state: &mut MeterState,
    power: f32,
    method: &mut M,
    secs: i64,
) -> DeviceChange {
    state.apply_reading(MeterReading::from(b(power)), method, at(secs))
}

fn closest() -> ClosestPowerMatch {
    ClosestPowerMatch::new(b(3.0))
}

#[test]
fn initial_state_is_empty() {
    let state = fresh();
    assert_eq!(state.latest_power(), None);
    let snapshot = state.snapshot();
    assert_eq!(snapshot.readings_received, 0);
    assert_eq!(snapshot.last_received_at, None);
    assert_eq!(snapshot.last_change, None);
    assert_eq!(snapshot.total_power_watts, None);
    assert!(snapshot.active_devices.is_empty());
    assert_eq!(snapshot.catalog.len(), dummy_device_catalog().len());
}

#[test]
fn apply_reading_tracks_power_and_increments_count() {
    let mut state = fresh();
    let mut method = closest();

    apply(&mut state, 100.0, &mut method, 0);
    assert_eq!(state.latest_power(), Some(b(100.0)));
    assert_eq!(state.snapshot().readings_received, 1);
    assert!(state.snapshot().last_received_at.is_some());

    apply(&mut state, 150.0, &mut method, 1);
    assert_eq!(state.latest_power(), Some(b(150.0)));
    assert_eq!(state.snapshot().readings_received, 2);
}

#[test]
fn a_keepalive_is_recorded_but_never_infers_a_device() {
    // The gateway settles readings itself, so one is enough.
    let mut state = fresh();
    let mut method = SettledPowerMatch::new(b(5.0), b(3.0), 1, b(8.0));

    apply(&mut state, 24.0, &mut method, 0);

    // A level the gateway is still settling on can sit anywhere between two.
    let intermediate = MeterReading { heartbeat: true, ..MeterReading::from(b(89.0)) };
    assert_eq!(
        state.apply_reading(intermediate, &mut method, at(1)),
        DeviceChange::Unchanged
    );

    // It is still a measurement: it counts, and it is the latest reading.
    assert_eq!(state.latest_power(), Some(b(89.0)));
    assert_eq!(state.snapshot().readings_received, 2);
    assert!(state.snapshot().active_devices.is_empty());

    // The settled change that follows is measured from the last real level.
    let eighty_watt = dummy_device_catalog()
        .iter()
        .find(|device| device.id == "device-80w")
        .copied()
        .expect("the catalog carries the 80 W device");
    let change = apply(&mut state, 104.0, &mut method, 2);
    assert_eq!(change, DeviceChange::Added(eighty_watt));
}

#[test]
fn a_change_is_measured_from_the_last_settled_level_by_every_method() {
    let sixty_watt = dummy_device_catalog()
        .into_iter()
        .find(|device| device.power_watts == b(60.0))
        .unwrap();
    let keepalive = |power: f32| MeterReading { heartbeat: true, ..MeterReading::from(b(power)) };

    for between in [vec![], vec![160.0], vec![130.0, 160.0], vec![101.0, 99.0]] {
        let mut state = fresh();
        let mut method = closest();
        let mut settled = SettledPowerMatch::new(b(5.0), b(3.0), 1, b(8.0));
        let mut other = fresh();
        apply(&mut state, 100.0, &mut method, 0);
        apply(&mut other, 100.0, &mut settled, 0);
        for power in &between {
            let reading = keepalive(*power);
            assert_eq!(
                state.apply_reading(reading, &mut method, at(1)),
                DeviceChange::Unchanged
            );
            assert_eq!(
                other.apply_reading(reading, &mut settled, at(1)),
                DeviceChange::Unchanged
            );
        }
        assert_eq!(apply(&mut state, 160.0, &mut method, 2), DeviceChange::Added(sixty_watt));
        assert_eq!(apply(&mut other, 160.0, &mut settled, 2), DeviceChange::Added(sixty_watt));
        assert_eq!(state.snapshot().readings_received, 2 + between.len() as u64);
    }

    // A keepalive is no baseline either.
    let mut state = fresh();
    let mut method = closest();
    state.apply_reading(keepalive(100.0), &mut method, at(0));
    assert_eq!(apply(&mut state, 160.0, &mut method, 1), DeviceChange::Unchanged);
    assert_eq!(apply(&mut state, 220.0, &mut method, 2), DeviceChange::Added(sixty_watt));
}

#[test]
fn preserves_last_change_when_subsequent_reading_produces_no_change() {
    let mut state = fresh();
    let mut method = closest();

    apply(&mut state, 100.0, &mut method, 0);
    assert!(state.snapshot().last_change.is_none());

    let change = apply(&mut state, 123.0, &mut method, 1);
    assert!(matches!(change, DeviceChange::Added(_)));
    let added_at = state.snapshot().last_change.unwrap().1;

    apply(&mut state, 123.0, &mut method, 2);
    let current_last_change = state.snapshot().last_change.unwrap();
    assert_eq!(current_last_change.1, added_at);
    assert_eq!(current_last_change.0, change);
}

#[test]
fn applies_addition_and_removal_decisions_to_state() {
    let catalog = dummy_device_catalog();
    let mut state = fresh();
    let mut method = closest();

    assert_eq!(apply(&mut state, 100.0, &mut method, 0), DeviceChange::Unchanged);
    assert_eq!(
        apply(&mut state, 123.0, &mut method, 1),
        DeviceChange::Added(catalog[0])
    );
    assert_eq!(
        apply(&mut state, 100.0, &mut method, 2),
        DeviceChange::Removed(catalog[0])
    );
    assert!(state.snapshot().active_devices.is_empty());
}

#[test]
fn a_report_that_says_nothing_keeps_the_previous_one() {
    let mut state = fresh();
    let report = GatewayTransport { queued_readings: Some(4), ..GatewayTransport::default() };
    state.record_transport(report.copy());
    state.record_transport(GatewayTransport::default());
    assert_eq!(state.snapshot().transport, report);
}

#[test]
fn a_rename_takes_effect_once_it_is_saved() {
    let mut state = fresh();
    let id = dummy_device_catalog()[0].id;
    let pending = state.prepare_rename(id, "  Desk lamp ").ok().unwrap();
    assert_eq!(pending.name, "Desk lamp");
    assert_eq!(
        pending.labels.names,
        vec![(id.to_owned(), "Desk lamp".to_owned())]
    );
    assert_eq!(
        state.finish_rename(pending, false),
        Err(RenameError::Unavailable)
    );
    assert!(state.snapshot().device_names.names.is_empty());
    let pending = state.prepare_rename(id, "Desk lamp").ok().unwrap();
    assert_eq!(state.finish_rename(pending, true), Ok("Desk lamp".to_owned()));
    let names = state.snapshot().device_names;
    assert_eq!(names.name_of(id), Some(&"Desk lamp".to_owned()));
    assert_eq!(names.name_of("noah-iphone"), None);
    let other = names.with_name("noah-iphone", "Phone");
    assert_eq!(other.name_of(id), Some(&"Desk lamp".to_owned()));
    assert_eq!(other.name_of("noah-iphone"), Some(&"Phone".to_owned()));
}

#[test]
fn the_history_of_the_charts_is_bounded() {
    let mut state = fresh();
    let mut method = closest();
    for index in 0..700 {
        apply(&mut state, index as f32, &mut method, 0);
    }
    let recent = state.recent_history();
    assert_eq!(recent.len(), 600);
    assert_eq!(recent[0].data.total_power, b(100.0));
    assert_eq!(recent[599].data.total_power, b(699.0));
}

#[test]
fn the_charts_show_the_latest_recorded_minute() {
    let mut state = fresh();
    let mut method = closest();
    assert!(state.recent_history().is_empty());
    for (power, secs) in [(1.0, 0), (2.0, 29), (3.0, 30), (4.0, 90)] {
        apply(&mut state, power, &mut method, secs);
    }
    let shown: Vec<Binary32> = state
        .recent_history()
        .iter()
        .map(|entry| entry.data.total_power)
        .collect();
    assert_eq!(shown, vec![b(3.0), b(4.0)]);
}

#[test]
fn a_history_without_a_limit_keeps_everything() {
    let mut history: History<u8> = History::new();
    assert!(history.latest().is_none());
    for value in 0..5u8 {
        history.push(value, at(value as i64));
    }
    assert_eq!(history.all().len(), 5);
    assert_eq!(history.latest().unwrap().data, 4);
    assert_eq!(history.since(at(3)).len(), 2);
    assert_eq!(history.since(at(9)).len(), 0);
    let mut bounded: History<u8> = History::bounded(2);
    for value in 0..5u8 {
        bounded.push(value, at(0));
    }
    let kept: Vec<u8> = bounded.all().iter().map(|entry| entry.data).collect();
    assert_eq!(kept, vec![3, 4]);
    let mut none: History<u8> = History::bounded(0);
    none.push(1, at(0));
    assert!(none.all().is_empty());
}

// Requests.

struct Receiver<M> {
    source: LiveMeterSource,
    method: M,
    now: i64,
}

impl<M: DecisionMethod> Receiver<M> {
    fn new(method: M) -> Receiver<M> {
        Receiver {
            source: LiveMeterSource { meter: fresh(), decision_method: "immediate" },
            method,
            now: 0,
        }
    }

    fn post(&mut self, body: &Json) -> Reply {
        let readings = match decode_request(&JsonReadingDecoder, body) {
            Ok(readings) => readings,
            Err(reply) => return reply,
        };
        self.now += 1;
        apply_batch(
            &mut self.source.meter,
            &mut self.method,
            &readings,
            GatewayTransport::default(),
            Some(at(self.now)),
        )
    }

    fn post_text(&mut self, body: &str) -> (u16, String) {
        let reply = self.post(&parse(body));
        (reply.status, reply.body)
    }
}

fn powers(values: &[i64]) -> Json {
    Json::List(
        values
            .iter()
            .map(|power| {
                Json::Object(vec![(
                    "total_power".to_owned(),
                    Json::Integer(*power as i128),
                )])
            })
            .collect(),
    )
}

#[test]
fn client_batch_applies_every_reading_in_order_and_exposes_context() {
    let mut receiver = Receiver::new(closest());
    let batch = Value::Array(vec![
        client_reading(100.0, 10),
        client_reading(123.0, 11),
        client_reading(100.0, 12),
        client_reading(165.0, 13),
    ]);
    let reply = receiver.post(&json_of(&batch));
    assert_eq!(reply.status, 200);
    assert_eq!(reply.body, "accepted 4 readings: 2 added, 1 removed\n");
    let snapshot = receiver.source.snapshot(at(5));
    assert_eq!(snapshot.readings_received, 4);
    assert_eq!(snapshot.total_power_watts, Some(b(165.0)));
    assert!(!snapshot.devices[0].active);
    assert!(snapshot.devices[1].active);
    assert_eq!(
        value_of(&reading_json(&snapshot.latest_reading.unwrap())),
        batch[3]
    );
    assert_eq!(
        snapshot.last_change.unwrap().device_id,
        dummy_device_catalog()[1].id
    );

    // A later power-only reading must not inherit context from an older one.
    let (status, _) = receiver.post_text(r#"{"total_power": 165}"#);
    assert_eq!(status, 200);
    let latest = receiver.source.snapshot(at(6)).latest_reading.unwrap();
    assert_eq!(value_of(&reading_json(&latest)).to_string(), r#"{"total_power":165.0}"#);
}

#[test]
fn settled_decisions_count_samples_within_and_across_batches() {
    for batches in [
        vec![vec![100, 123, 123, 123]],
        vec![vec![100, 123], vec![123, 123]],
        vec![vec![100], vec![123], vec![123], vec![123]],
    ] {
        let mut receiver = Receiver::new(SettledPowerMatch::new(b(5.0), b(3.0), 3, b(5.0)));
        for batch in batches {
            assert_eq!(receiver.post(&powers(&batch)).status, 200);
        }
        let meter = receiver.source.meter.snapshot();
        assert_eq!(meter.readings_received, 4);
        assert_eq!(meter.active_devices, vec![dummy_device_catalog()[0]]);
    }
}

#[test]
fn invalid_batches_leave_meter_and_stateful_decisions_untouched() {
    let mut receiver = Receiver::new(SettledPowerMatch::new(b(5.0), b(3.0), 3, b(5.0)));
    assert_eq!(receiver.post(&json_of(&client_reading(100.0, 10))).status, 200);
    let before = receiver.source.meter.snapshot();
    let unfinished: Value =
        serde_json::from_str(r#"{"total_power": 123, "l1": {"voltage_v": "bad"}}"#).unwrap();
    let infinite: Value = serde_json::from_str(r#"{"total_power": 1e100}"#).unwrap();
    for invalid in [
        Value::Array(vec![]),
        Value::Array(vec![
            client_reading(123.0, 11),
            client_reading(123.0, 12),
            infinite,
        ]),
        Value::Array(vec![client_reading(123.0, 11), unfinished]),
    ] {
        assert_eq!(receiver.post(&json_of(&invalid)).status, 400);
        let after = receiver.source.meter.snapshot();
        assert_eq!(after.latest_reading, before.latest_reading);
        assert_eq!(after.readings_received, before.readings_received);
        assert_eq!(after.last_received_at, before.last_received_at);
        assert_eq!(after.last_change, before.last_change);
        assert_eq!(after.active_devices, before.active_devices);
    }
    assert_eq!(receiver.post(&json_of(&client_reading(123.0, 13))).status, 200);
    let after = receiver.source.meter.snapshot();
    assert_eq!(after.readings_received, 2);
    assert!(
        after.active_devices.is_empty(),
        "rejected samples must not advance settling"
    );
}

#[test]
fn single_element_batches_and_legacy_messages_keep_single_reading_responses() {
    let mut receiver = Receiver::new(closest());
    assert_eq!(
        receiver.post_text(r#"[{"total_power": 100}]"#),
        (200, "baseline recorded at 100.0 W\n".to_owned())
    );
    assert_eq!(
        receiver.post_text(r#"{"message": "123"}"#),
        (200, "added Baseline (23.0 W)\n".to_owned())
    );
    assert_eq!(receiver.source.meter.snapshot().readings_received, 2);
}

#[test]
fn exported_power_is_accepted_and_detected_as_a_change() {
    // The meter never leaves export here, and switching the 145 W device on and
    // off still registers.
    let mut receiver = Receiver::new(closest());
    assert_eq!(
        receiver.post_text(r#"{"total_power": -1000.0}"#),
        (200, "baseline recorded at -1000.0 W\n".to_owned())
    );

    let (status, response) = receiver.post_text(r#"{"total_power": -855.0}"#);
    assert_eq!(status, 200);
    assert!(response.starts_with("added Macbook Air"), "{response}");

    let (status, response) = receiver.post_text(r#"{"total_power": -1000.0}"#);
    assert_eq!(status, 200);
    assert!(response.starts_with("removed Macbook Air"), "{response}");

    let meter = receiver.source.meter.snapshot();
    assert_eq!(meter.total_power_watts, Some(b(-1000.0)));
    assert_eq!(meter.readings_received, 3);
}

#[test]
fn large_batches_fit_the_clients_response_limit() {
    let mut receiver = Receiver::new(closest());
    let reply = receiver.post(&powers(&vec![100; 1000]));
    assert_eq!(
        (reply.status, reply.body.as_str()),
        (200, "accepted 1000 readings: 0 added, 0 removed\n")
    );
    assert_eq!(receiver.source.meter.snapshot().readings_received, 1000);
}

#[test]
fn only_accepted_requests_update_the_dashboard_state() {
    let mut receiver = Receiver::new(closest());
    for body in [r#"{"total_power":100}"#, r#"{"total_power":123}"#] {
        assert_eq!(receiver.post_text(body).0, 200);
    }
    let before = receiver.source.snapshot(at(3));
    assert_eq!(before.readings_received, 2);
    assert!(before.devices[0].active);
    assert_eq!(receiver.post_text(r#"{"total_power":1e100}"#).0, 400);
    let after = receiver.source.snapshot(at(3));
    assert_eq!(after.readings_received, before.readings_received);
    assert_eq!(after.last_received_at, before.last_received_at);
    assert_eq!(after.total_power_watts, Some(b(123.0)));
}

#[test]
fn returns_informative_response_messages_for_all_device_changes() {
    let mut receiver = Receiver::new(closest());
    assert_eq!(
        receiver.post_text(r#"{"total_power":100.0}"#),
        (200, "baseline recorded at 100.0 W\n".to_owned())
    );
    assert_eq!(
        receiver.post_text(r#"{"total_power":100.0}"#),
        (200, "no device state change\n".to_owned())
    );
    let (status, response) = receiver.post_text(r#"{"total_power":123.0}"#);
    assert_eq!(status, 200);
    assert!(response.starts_with("added Baseline"));
    let (status, response) = receiver.post_text(r#"{"total_power":100.0}"#);
    assert_eq!(status, 200);
    assert!(response.starts_with("removed Baseline"));
    let (status, response) = receiver.post_text(r#"{"message":"invalid"}"#);
    assert_eq!(status, 400);
    assert!(response.contains("message must contain a power value"));
}

#[test]
fn a_batch_that_could_not_be_archived_changes_nothing() {
    let mut meter = fresh();
    let mut method = closest();
    let readings = vec![MeterReading::from(b(100.0))];
    let report = GatewayTransport { queued_readings: Some(1), ..GatewayTransport::default() };
    let reply = apply_batch(&mut meter, &mut method, &readings, report, None);
    assert_eq!(reply.status, 503);
    assert_eq!(
        reply.body,
        "history storage is unavailable; batch was not accepted\n"
    );
    assert_eq!(meter.snapshot().readings_received, 0);
    assert!(meter.snapshot().transport.is_empty());
}

#[test]
fn a_device_is_named_with_what_is_known_of_it() {
    let plain = Device::new("id", "Lamp", b(9.96));
    assert_eq!(
        reading_response(DeviceChange::Added(plain), false, b(0.0)),
        "added Lamp (10.0 W)\n"
    );
    let known = Device {
        reactive_power_var: Some(b(12.34)),
        thd_current_pct: Some(b(5.0)),
        ..plain
    };
    assert_eq!(
        reading_response(DeviceChange::Removed(known), false, b(0.0)),
        "removed Lamp (10.0 W, +12.3 var, 5.0% THD)\n"
    );
}

#[test]
fn failures_have_their_own_answers() {
    assert_eq!(refuse("no").body, "no\n");
    assert_eq!(refuse("no").status, 400);
    assert_eq!(
        (meter_unavailable().status, meter_unavailable().body.as_str()),
        (500, "meter state is unavailable\n")
    );
    assert_eq!(
        (method_unavailable().status, method_unavailable().body.as_str()),
        (500, "decision method is unavailable\n")
    );
    assert_eq!(
        (processing_failed().status, processing_failed().body.as_str()),
        (500, "measurement processing failed\n")
    );
    assert_eq!(DEFAULT_PATH, "/edh/v1/hello");
    assert_eq!(
        rename_failure(RenameError::InvalidName),
        (400, "Use a name of 1–80 characters without control characters.")
    );
    assert_eq!(
        rename_failure(RenameError::NotFound),
        (404, "This device is no longer in the catalog.")
    );
    assert_eq!(
        rename_failure(RenameError::Unavailable),
        (503, "Could not save the device name. Please retry.")
    );
}

#[test]
fn a_configuration_waits_for_an_accepted_batch_and_reaches_the_gateway() {
    let config = ClientThresholdConfig {
        voltage_step_v: Some(b(4.0)),
        voltage_enabled: None,
        frequency_step_hz: None,
        frequency_enabled: Some(false),
        thd_voltage_step_pct: None,
        thd_voltage_enabled: None,
        thd_current_step_pct: None,
        thd_current_enabled: None,
        settling_window_secs: Some(None),
    };
    let mut pending = Some(config);
    assert!(take_config(&mut pending, 400).is_none());
    assert!(take_config(&mut pending, 503).is_none());
    assert_eq!(pending, Some(config));
    let written = value_of(&take_config(&mut pending, 200).unwrap()).to_string();
    assert_eq!(pending, None);
    assert!(take_config(&mut pending, 200).is_none());

    let plain = Reply { status: 200, body: "no device state change\n".to_owned() };
    let reply = attach_config(plain, &written);
    assert_eq!(reply.status, 200);
    let answer = read_answer(&reply.body);
    assert_eq!(answer.shown, ": no device state change");
    assert_eq!(answer.configs, vec![written]);
    assert_eq!(decode_config(&parse(&answer.configs[0])), Some(config));
}

// Views.

/// A reading shaped like the gateway's, with the load on L1 and the other phases
/// unwired.
fn lab_reading(power: f32, voltage: f32, frequency: f32) -> MeterReading {
    let unwired = PhaseReading {
        voltage_v: Some(b(0.0)),
        current_a: Some(b(0.0)),
        real_power_w: Some(b(0.0)),
        apparent_power_va: Some(b(0.0)),
        reactive_power_var: Some(b(0.0)),
        cos_phi: Some(b(1.0)),
        real_energy_consumed_wh: Some(b(0.0)),
        thd_voltage_pct: None,
        thd_current_pct: None,
    };
    MeterReading {
        total_power: b(power),
        systime: Some(1_789_000_000),
        frequency_hz: Some(Some(b(frequency))),
        l1: Some(PhaseReading {
            voltage_v: Some(b(voltage)),
            current_a: Some(b(2.0)),
            real_power_w: Some(b(power)),
            apparent_power_va: Some(b(power.abs() * 1.1)),
            reactive_power_var: Some(b(-30.0)),
            cos_phi: Some(b(0.9)),
            real_energy_consumed_wh: Some(b(4000.0)),
            thd_voltage_pct: Some(b(1.9)),
            thd_current_pct: Some(b(3.0)),
        }),
        l2: Some(unwired),
        l3: Some(unwired),
        totals: Some(TotalsReading {
            real_power_w: Some(b(power)),
            apparent_power_va: Some(b(power.abs() * 1.1)),
            reactive_power_var: Some(b(-30.0)),
        }),
        heartbeat: false,
    }
}

fn source() -> LiveMeterSource {
    LiveMeterSource { meter: fresh(), decision_method: "immediate" }
}

fn inferred(powers: &[Binary32]) -> f64 {
    powers.iter().map(|power| f64::from(f(*power))).sum()
}

#[test]
fn snapshot_tracks_baseline_addition_removal_and_preserves_last_change() {
    let mut source = source();
    let empty = source.snapshot(at(0));
    assert_eq!(empty.total_power_watts, None);
    assert_eq!(empty.latest_reading, None);
    assert_eq!(empty.last_received_at, None);
    assert_eq!(empty.readings_received, 0);
    assert!(empty.devices.iter().all(|device| !device.active));

    let mut method = closest();
    apply(&mut source.meter, 100.0, &mut method, 0);
    let baseline = source.snapshot(at(0));
    assert_eq!(baseline.total_power_watts, Some(b(100.0)));
    assert!(baseline.last_received_at.is_some());
    assert!(baseline.last_change.is_none());

    apply(&mut source.meter, 123.0, &mut method, 1);
    let added = source.snapshot(at(1));
    assert!(added.devices[0].active);
    assert_eq!(inferred(&added.active_power_watts), 23.0);
    let added_at = added.last_change.unwrap().received_at;
    apply(&mut source.meter, 123.0, &mut method, 2);
    assert_eq!(
        source.snapshot(at(2)).last_change.unwrap().received_at,
        added_at
    );

    apply(&mut source.meter, 100.0, &mut method, 3);
    let removed = source.snapshot(at(3));
    assert_eq!(removed.readings_received, 4);
    assert!(!removed.devices[0].active);
    assert_eq!(inferred(&removed.active_power_watts), 0.0);
    assert_eq!(removed.last_change.unwrap().kind, "removed");
    // Snapshots are owned: a subsequent reading cannot change one in use.
    assert_eq!(baseline.total_power_watts, Some(b(100.0)));
    assert_eq!(baseline.readings_received, 1);
}

#[test]
fn history_returns_oldest_first_dashboard_series() {
    let mut source = source();
    let mut method = closest();
    source
        .meter
        .apply_reading(lab_reading(123.0, 240.09, 50.0), &mut method, at(0));
    source
        .meter
        .apply_reading(lab_reading(456.0, 239.99, 49.9), &mut method, at(1));

    let series = source.history(at(2));
    assert_eq!(series.schema_version, 1);
    assert!(series.window_seconds > 0);
    assert_eq!(series.samples.len(), 2);
    assert_eq!(series.samples[0].total_power_watts, b(123.0));
    assert_eq!(series.samples[0].frequency_hz, Some(b(50.0)));
    assert_eq!(series.samples[0].voltage_v[0], Some(b(240.09)));
    assert_eq!(series.samples[0].current_a[0], Some(b(2.0)));
    assert_eq!(series.samples[0].thd_voltage_pct[0], Some(b(1.9)));
    assert_eq!(series.samples[0].thd_current_pct[0], Some(b(3.0)));
    assert_eq!(series.samples[1].total_power_watts, b(456.0));
    assert_eq!(series.samples[1].voltage_v[0], Some(b(239.99)));
}

#[test]
fn snapshot_carries_every_phase_the_limits_and_the_events() {
    let mut source = source();
    source
        .meter
        .apply_reading(lab_reading(500.0, 230.0, 50.0), &mut closest(), at(0));
    let snapshot = source.snapshot(at(0));

    // All three phases are present, the ones with nothing wired to them too.
    let phases = &snapshot.power_quality.phases;
    assert_eq!(phases.len(), 3);
    assert_eq!(phases[0].name, "L1");
    assert!(phases[0].connected);
    assert!(!phases[2].connected);
    // A value the meter could not determine stays unknown.
    assert_eq!(phases[2].thd_current_pct, None);

    assert_eq!(snapshot.power_quality.frequency_hz, Some(b(50.0)));
    assert_eq!(snapshot.power_quality.flow, Some("import"));
    assert!(snapshot.power_quality.violations.is_empty());
    // The view draws the same bands the receiver judges against.
    assert_eq!(snapshot.limits.voltage_min_v, b(207.0));
    assert_eq!(snapshot.limits.frequency_max_hz, b(50.5));
}

#[test]
fn snapshot_reports_export_and_flags_a_bad_supply() {
    let mut source = source();
    source
        .meter
        .apply_reading(lab_reading(-1200.0, 195.0, 48.5), &mut closest(), at(0));

    let quality = source.snapshot(at(0)).power_quality;
    assert_eq!(quality.flow, Some("export"));
    assert_eq!(quality.total_power_watts, Some(b(-1200.0)));

    let quantities: Vec<_> = quality
        .violations
        .iter()
        .map(|violation| violation.quantity)
        .collect();
    assert_eq!(quantities, vec!["frequency_hz", "voltage_v"]);
    assert_eq!(quality.violations[1].phase, "L1");
}

#[test]
fn transport_state_is_judged_by_the_receiver_not_claimed_by_the_gateway() {
    let mut source = source();
    // Before anything arrives there is nothing to claim.
    let transport = source.snapshot(at(0)).transport;
    assert_eq!(transport.state, "waiting");
    assert!(!transport.gateway_reporting);
    assert_eq!(transport.gateway.scion_path, None);

    source.meter.record_transport(GatewayTransport {
        scion_path: Some("1-ff00:0:132 1>3 2-ff00:0:212".to_owned()),
        queued_readings: Some(4),
        last_ack_latency_ms: Some(b(11.5)),
        failover_count: Some(1),
        dropped_readings: Some(6),
        modbus_reconnects: Some(2),
    });
    source
        .meter
        .apply_reading(lab_reading(500.0, 230.0, 50.0), &mut closest(), at(0));

    let transport = source.snapshot(at(0)).transport;
    assert_eq!(transport.state, "live");
    assert!(transport.gateway_reporting);
    assert_eq!(
        transport.gateway.scion_path.as_deref(),
        Some("1-ff00:0:132 1>3 2-ff00:0:212")
    );
    assert_eq!(transport.gateway.last_ack_latency_ms, Some(b(11.5)));
    assert_eq!(transport.gateway.queued_readings, Some(4));
    assert_eq!(transport.gateway.failover_count, Some(1));
    assert_eq!(transport.gateway.dropped_readings, Some(6));
    assert_eq!(transport.gateway.modbus_reconnects, Some(2));
}

#[test]
fn a_silent_link_goes_stale_after_ten_seconds() {
    let mut source = source();
    apply(&mut source.meter, 0.0, &mut closest(), 0);
    for (secs, state) in [(0, "live"), (10, "live"), (11, "stale"), (-5, "live")] {
        let transport = source.snapshot(at(secs)).transport;
        assert_eq!(transport.state, state);
        assert_eq!(transport.seconds_since_last_reading, Some(secs.max(0)));
    }
    let snapshot = source.snapshot(at(0));
    assert_eq!(snapshot.schema_version, 1);
    assert_eq!(snapshot.stale_after_seconds, 10);
    assert_eq!(snapshot.decision_method, "immediate");
    assert_eq!(snapshot.generated_at, "2026-09-10T00:26:40+00:00");
    assert_eq!(
        snapshot.last_received_at,
        Some("2026-09-10T00:26:40+00:00".to_owned())
    );
    assert_eq!(snapshot.power_quality.flow, Some("balanced"));
}

#[test]
fn history_holds_the_accepted_readings_in_order() {
    let mut source = source();
    let mut method = closest();
    for (secs, power) in [100.0, 200.0, 300.0].into_iter().enumerate() {
        source
            .meter
            .apply_reading(lab_reading(power, 230.0, 50.0), &mut method, at(secs as i64));
    }

    let series = source.history(at(3));
    assert_eq!(series.window_seconds, 60);
    assert_eq!(series.samples.len(), 3);
    let powers: Vec<_> = series
        .samples
        .iter()
        .map(|sample| sample.total_power_watts)
        .collect();
    assert_eq!(powers, vec![b(100.0), b(200.0), b(300.0)]);

    let first = &series.samples[0];
    assert_eq!(first.frequency_hz, Some(b(50.0)));
    assert_eq!(first.voltage_v[0], Some(b(230.0)));
    assert_eq!(first.voltage_v[1], Some(b(0.0)));
    // The unwired phases carry no distortion figure.
    assert_eq!(first.thd_current_pct[2], None);
    assert!(first.at.contains('T'));
}

#[test]
fn rename_persists_and_updates_devices_and_last_change_without_changing_detection() {
    let mut source = source();
    let mut method = closest();
    for (secs, power) in [100.0, 123.0].into_iter().enumerate() {
        apply(&mut source.meter, power, &mut method, secs as i64);
    }
    let id = dummy_device_catalog()[0].id;
    let pending = source
        .meter
        .prepare_rename(id, "  Büro & Server <1>  ")
        .ok()
        .unwrap();
    let saved = pending.labels.names.clone();
    assert!(source.meter.finish_rename(pending, true).is_ok());
    let snapshot = source.snapshot(at(2));
    assert_eq!(snapshot.devices[0].name, "Büro & Server <1>");
    assert_eq!(snapshot.last_change.unwrap().device_name, "Büro & Server <1>");
    assert_eq!(snapshot.readings_received, 2);
    assert_eq!(inferred(&snapshot.active_power_watts), 23.0);
    apply(&mut source.meter, 100.0, &mut method, 3);
    assert_eq!(
        source.snapshot(at(3)).last_change.unwrap().device_name,
        "Büro & Server <1>"
    );

    let restarted = LiveMeterSource {
        meter: MeterState::with_labels(
            dummy_device_catalog(),
            DeviceLabels { names: saved, appliances: Vec::new() },
        ),
        decision_method: "immediate",
    };
    assert_eq!(restarted.snapshot(at(4)).devices[0].name, "Büro & Server <1>");
}

#[test]
fn rename_rejects_invalid_names_unknown_ids_and_reports_failed_persistence() {
    let mut source = source();
    let id = dummy_device_catalog()[0].id;
    for name in [
        "".to_owned(),
        "   ".to_owned(),
        "x".repeat(81),
        "a\nb".to_owned(),
    ] {
        let error = source.meter.prepare_rename(id, &name).err().unwrap();
        assert_eq!(rename_failure(error).0, 400);
    }
    assert!(source.meter.prepare_rename(id, &"ä".repeat(80)).is_ok());
    let error = source.meter.prepare_rename("missing", "Name").err().unwrap();
    assert_eq!(rename_failure(error).0, 404);
    // A label that was not saved must not take effect.
    let pending = source.meter.prepare_rename(id, "New name").ok().unwrap();
    let error = source.meter.finish_rename(pending, false).unwrap_err();
    assert_eq!(rename_failure(error).0, 503);
    assert_eq!(
        source.snapshot(at(0)).devices[0].name,
        dummy_device_catalog()[0].name
    );
}

#[test]
fn forecast_endpoint_accepts_and_serves_predictions() {
    let mut source = source();
    assert!(source.meter.latest_forecast().is_none());
    source.meter.update_forecast(ForecastSeries {
        generated_at: "2026-09-11T10:00:00Z".to_owned(),
        horizon_seconds: b(15.0),
        model_name: "River Online SGDRegressor".to_owned(),
        mae: Some(b(1.25)),
        points: vec![
            ForecastPoint {
                at: "2026-09-11T10:00:05Z".to_owned(),
                predicted_watts: b(142.5),
                lower_bound_watts: Some(b(138.0)),
                upper_bound_watts: Some(b(147.0)),
            },
            ForecastPoint {
                at: "2026-09-11T10:00:10Z".to_owned(),
                predicted_watts: b(143.0),
                lower_bound_watts: Some(b(137.5)),
                upper_bound_watts: Some(b(148.5)),
            },
        ],
    });
    let forecast = source.meter.latest_forecast().unwrap();
    assert_eq!(forecast.model_name, "River Online SGDRegressor");
    assert_eq!(forecast.points.len(), 2);
    assert_eq!(forecast.points[0].predicted_watts, b(142.5));

    // The series includes the forecast.
    let series = source.history(at(0));
    assert_eq!(series.forecast.unwrap().model_name, "River Online SGDRegressor");
    assert_eq!(series.forecast.unwrap().points.len(), 2);
}

// The archive.

fn timestamp() -> Timestamp {
    // 2025-01-02T03:04:05Z
    Timestamp { secs: 1_735_787_045, nanos: 0 }
}

fn later(secs: i64) -> Timestamp {
    Timestamp { secs: timestamp().secs + secs, nanos: 0 }
}

/// The archive between writing a row and reading it: the reading as a text.
fn stored(row: &ArchiveRow) -> StoredRow {
    let written = value_of(&row.reading).to_string();
    StoredRow {
        received_at: row.received_at.clone(),
        received_at_epoch: row.received_at_epoch,
        reading: parse(&written),
    }
}

fn append(rows: &mut Vec<ArchiveRow>, readings: &[MeterReading], at: Timestamp) {
    rows.extend(archive_rows(&readings.to_vec(), at).ok().unwrap());
}

#[test]
fn creates_database_and_preserves_complete_measurements_across_reopen() {
    let reading = MeterReading {
        frequency_hz: Some(Some(b(49.95))),
        heartbeat: true,
        ..MeterReading::from(b(123.0))
    };
    let mut rows = Vec::new();
    let mut cache = History::bounded(10);
    assert_eq!(load_cache(&Vec::new(), &mut cache), Ok(0));
    append(&mut rows, &[reading], timestamp());
    assert_eq!(rows[0].received_at, "2025-01-02T03:04:05+00:00");
    assert_eq!(rows[0].received_at_epoch, 1_735_787_045_000);
    assert_eq!(rows[0].total_power, b(123.0));
    assert!(rows[0].heartbeat);
    let kept: Vec<StoredRow> = rows.iter().map(stored).collect();
    assert_eq!(load_cache(&kept, &mut cache), Ok(1));
    assert_eq!(cache.latest().unwrap().data, reading);
    assert_eq!(cache.latest().unwrap().timestamp, timestamp());
}

fn line_of(version: u8, received_at: &str, readings: &[f32]) -> String {
    let mut batch = serde_json::Map::new();
    batch.insert("schema_version".to_owned(), Value::from(version));
    batch.insert("received_at".to_owned(), Value::from(received_at));
    batch.insert(
        "readings".to_owned(),
        Value::Array(
            readings
                .iter()
                .map(|power| value_of(&reading_json(&MeterReading::from(b(*power)))))
                .collect(),
        ),
    );
    format!("{}\n", Value::Object(batch))
}

fn lines_of(contents: &str) -> Vec<ParsedLine> {
    complete_lines(contents.as_bytes())
        .into_iter()
        .map(|line| ParsedLine {
            start: line.start as u64,
            value: serde_json::from_slice::<Value>(&line.bytes)
                .ok()
                .map(|value| json_of(&value)),
        })
        .collect()
}

fn import(contents: &str) -> Result<Vec<(Timestamp, Vec<MeterReading>)>, ArchiveError> {
    import_batches(&lines_of(contents)).map(|batches| {
        batches
            .into_iter()
            .map(|batch| (batch.at, batch.readings))
            .collect()
    })
}

#[test]
fn imports_legacy_json_once() {
    let contents = line_of(1, "2025-01-02T03:04:05+00:00", &[100.0, 200.0]);
    let hash = hash_bytes(contents.as_bytes());
    assert_eq!(migration_due(None, &hash), Ok(true));
    assert_eq!(
        import(&contents),
        Ok(vec![(
            timestamp(),
            vec![MeterReading::from(b(100.0)), MeterReading::from(b(200.0))]
        )])
    );
    // The same file is not imported again, and a changed one is refused.
    assert_eq!(migration_due(Some(&hash), &hash_bytes(contents.as_bytes())), Ok(false));
    let changed = format!("{contents}x");
    assert_eq!(
        migration_due(Some(&hash), &hash_bytes(changed.as_bytes())),
        Err(ArchiveError::SourceChanged)
    );
}

#[test]
fn a_file_is_imported_as_a_whole_or_not_at_all() {
    let good = line_of(1, "2025-01-02T03:04:05+00:00", &[100.0, 200.0]);
    let plan = plan_import(None, "a", &lines_of(&good)).ok().unwrap().unwrap();
    assert_eq!(plan.len(), 1);
    assert_eq!(plan[0].at, timestamp());
    assert_eq!(plan[0].readings, vec![MeterReading::from(b(100.0)), MeterReading::from(b(200.0))]);

    let bad = format!("{good}not json\n");
    assert_eq!(
        plan_import(None, "a", &lines_of(&bad)).err(),
        Some(ArchiveError::InvalidBatch(good.len() as u64))
    );
    assert!(plan_import(Some("a"), "a", &lines_of(&bad)).ok().unwrap().is_none());
    assert_eq!(
        plan_import(Some("a"), "b", &lines_of(&good)).err(),
        Some(ArchiveError::SourceChanged)
    );
    // A line that was cut off is left out.
    let cut = format!("{good}{{\"schema");
    assert_eq!(plan_import(None, "a", &lines_of(&cut)).ok().unwrap().unwrap().len(), 1);
    // A batch may be written as a list of its values.
    let list = "[1,\"2025-01-02T03:04:05+00:00\",[[100.0]]]\n";
    assert_eq!(
        import(list),
        Ok(vec![(timestamp(), vec![MeterReading::from(b(100.0))])])
    );
}

#[test]
fn a_digest_is_sixteen_hexadecimal_digits() {
    assert_eq!(digest_text(0xabc), "0000000000000abc");
    let digest = hash_bytes(b"some bytes");
    assert_eq!(digest.len(), 16);
    assert!(digest.chars().all(|c| c.is_ascii_hexdigit() && !c.is_ascii_uppercase()));
    assert_eq!(digest, hash_bytes(b"some bytes"));
    assert_ne!(digest, hash_bytes(b"other bytes"));
    let mut hasher = std::collections::hash_map::DefaultHasher::new();
    std::hash::Hash::hash(&b"some bytes"[..], &mut hasher);
    assert_eq!(digest, format!("{:016x}", std::hash::Hasher::finish(&hasher)));
}

#[test]
fn recent_returns_the_newest_window_in_oldest_first_order() {
    let mut rows = Vec::new();
    append(&mut rows, &[MeterReading::from(b(100.0))], timestamp());
    append(&mut rows, &[MeterReading::from(b(200.0))], later(30));
    append(&mut rows, &[MeterReading::from(b(300.0))], later(90));

    let newest_first: Vec<StoredRow> = rows.iter().rev().map(stored).collect();
    let recent = recent(&newest_first, Span::from_secs(60)).ok().unwrap();
    assert_eq!(recent.len(), 2);
    assert_eq!(recent[0].data.total_power, b(200.0));
    assert_eq!(recent[1].data.total_power, b(300.0));
}

#[test]
fn failed_import_leaves_legacy_json_untouched() {
    let contents = "not json\n";
    assert_eq!(import(contents), Err(ArchiveError::InvalidBatch(0)));
}

#[test]
fn a_look_at_the_recent_past_is_bounded() {
    assert!(recent(&Vec::new(), Span::from_secs(60)).ok().unwrap().is_empty());
    let mut rows = Vec::new();
    for index in 0..700 {
        append(&mut rows, &[MeterReading::from(b(index as f32))], timestamp());
    }
    let newest_first: Vec<StoredRow> = rows.iter().rev().map(stored).collect();
    let entries = recent(&newest_first, Span::from_secs(60)).ok().unwrap();
    assert_eq!(entries.len(), 600);
    assert_eq!(entries[0].data.total_power, b(100.0));
    assert_eq!(entries[599].data.total_power, b(699.0));
    assert_eq!(cutoff(1000, Span::from_millis(300)), 700);
    assert_eq!(cutoff(i64::MIN + 5, Span::from_secs(60)), i64::MIN);
    assert_eq!(cutoff(0, Span { nanos: u128::MAX }), -i64::MAX);
}

#[test]
fn every_thing_wrong_with_a_file_is_named() {
    let good = line_of(1, "2025-01-02T03:04:05Z", &[1.0]);
    let early = line_of(1, "2025-01-02T03:04:04Z", &[1.0]);
    for (contents, error, message) in [
        (
            format!("{good}[1]\n"),
            ArchiveError::InvalidBatch(good.len() as u64),
            format!("invalid history batch at byte {}", good.len()),
        ),
        (
            line_of(2, "2025-01-02T03:04:05Z", &[1.0]),
            ArchiveError::UnsupportedSchema,
            "unsupported history schema version".to_owned(),
        ),
        (
            line_of(1, "2025-01-02T03:04:05Z", &[]),
            ArchiveError::EmptyBatch,
            "empty history batch".to_owned(),
        ),
        (
            line_of(1, "some day", &[1.0]),
            ArchiveError::InvalidTimestamp,
            "invalid history timestamp".to_owned(),
        ),
        (
            format!("{good}{good}{early}"),
            ArchiveError::OutOfOrder,
            "history timestamps are out of order".to_owned(),
        ),
    ] {
        assert_eq!(import(&contents), Err(error), "{contents}");
        assert_eq!(error.message(), message);
    }
    // What follows the last line break is an interrupted write.
    assert_eq!(import(&format!("{good}{{\"schema")).map(|batches| batches.len()), Ok(1));
    assert_eq!(import("").map(|batches| batches.len()), Ok(0));
    assert_eq!(
        archive_rows(&Vec::new(), timestamp()).err(),
        Some(ArchiveError::NothingToArchive)
    );
    assert_eq!(
        ArchiveError::NothingToArchive.message(),
        "cannot archive an empty batch"
    );
    assert_eq!(
        ArchiveError::SourceChanged.message(),
        "legacy history file changed after migration; refusing duplicate import"
    );
}

#[test]
fn a_row_that_cannot_be_read_leaves_the_state_alone() {
    let mut rows = Vec::new();
    append(&mut rows, &[MeterReading::from(b(1.0))], timestamp());
    let mut meter = fresh();
    let mut bad_time = stored(&rows[0]);
    bad_time.received_at = "some day".to_owned();
    assert_eq!(
        meter.restore_history(&vec![stored(&rows[0]), bad_time]),
        Err(ArchiveError::InvalidStoredTimestamp)
    );
    let mut bad_reading = stored(&rows[0]);
    bad_reading.reading = Json::Null;
    assert_eq!(
        meter.restore_history(&vec![bad_reading]),
        Err(ArchiveError::InvalidStoredMeasurement)
    );
    assert!(!meter.history_is_persistent());
    assert!(meter.recent_history().is_empty());
    assert_eq!(
        ArchiveError::InvalidStoredTimestamp.message(),
        "invalid stored history timestamp"
    );
    assert_eq!(
        ArchiveError::InvalidStoredMeasurement.message(),
        "invalid stored measurement"
    );
}

#[test]
fn history_survives_long_downtime_without_replaying_live_state() {
    let mut rows = Vec::new();
    append(&mut rows, &[lab_reading(123.0, 230.0, 49.99)], timestamp());
    let mut source = source();
    let kept: Vec<StoredRow> = rows.iter().map(stored).collect();
    assert_eq!(source.meter.restore_history(&kept), Ok(1));

    let series = source.history(at(0));
    assert!(series.persistent);
    assert_eq!(series.stored_readings, 1);
    assert_eq!(series.samples[0].at, "2025-01-02T03:04:05+00:00");
    assert_eq!(series.samples[0].total_power_watts, b(123.0));
    assert_eq!(series.samples[0].frequency_hz, Some(b(49.99)));
    assert_eq!(series.samples[0].thd_current_pct[2], None);
    let live = source.snapshot(at(0));
    assert_eq!(live.readings_received, 0);
    assert_eq!(live.total_power_watts, None);
    assert_eq!(live.transport.state, "waiting");
    assert!(live.devices.iter().all(|device| !device.active));

    // Readings of the new session replace the displayed window, but do not erase
    // what is archived.
    apply(&mut source.meter, 200.0, &mut closest(), 0);
    let series = source.history(at(0));
    assert_eq!(series.stored_readings, 2);
    assert_eq!(series.samples.len(), 1);
    assert_eq!(series.samples[0].total_power_watts, b(200.0));
    assert!(source.snapshot(at(0)).last_change.is_none());
}

#[test]
fn accepted_batches_survive_restart_and_rejected_batches_never_reach_disk() {
    let mut receiver = Receiver::new(closest());
    let mut rows: Vec<ArchiveRow> = Vec::new();
    let accepted = parse(r#"[{"total_power": 100.0}, {"total_power": 123.0, "heartbeat": true}]"#);
    let readings = decode_request(&JsonReadingDecoder, &accepted).ok().unwrap();
    append(&mut rows, &readings, at(1));
    let reply = apply_batch(
        &mut receiver.source.meter,
        &mut receiver.method,
        &readings,
        GatewayTransport::default(),
        Some(at(1)),
    );
    assert_eq!(reply.status, 200);
    let refused = parse(r#"[{"total_power": 200.0}, {"total_power": "invalid"}]"#);
    assert_eq!(
        decode_request(&JsonReadingDecoder, &refused).err().unwrap().status,
        400
    );
    assert_eq!(receiver.source.meter.snapshot().readings_received, 2);
    let kept: Vec<StoredRow> = rows.iter().map(stored).collect();
    let mut history = History::bounded(600);
    assert_eq!(load_cache(&kept, &mut history), Ok(2));
    assert_eq!(history.all()[0].data.total_power, b(100.0));
    assert!(history.all()[1].data.heartbeat);
}
