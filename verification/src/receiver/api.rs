//! What the receiver answers to a batch, and what a batch does to its state.

use vstd::prelude::*;
use vstd::string::*;

use crate::binary32::Binary32;
use crate::clock::Timestamp;
use crate::fixed_point;
use crate::fixed_point::{explicit, fixed};
use crate::gateway::delivery;
use crate::gateway::delivery::CONFIG_MARK;
use crate::json::Json;
use crate::receiver::decision::{DecisionMethod, Device, DeviceChange};
use crate::receiver::input::{MeterReading, ReadingDecoder};
use crate::receiver::meter;
use crate::receiver::meter::{Course, Meter, MeterState};
use crate::receiver::transport::GatewayTransport;
use crate::text;
use crate::text::decimal;
use crate::thresholds;
use crate::thresholds::{encode_config, ClientThresholdConfig};

verus! {

/// Path the receiver accepts batches on.
pub const DEFAULT_PATH: &'static str = "/edh/v1/hello";

/// An HTTP status and a text.
pub struct Reply {
    pub status: u16,
    pub body: String,
}

/// A device as an answer names it: with its reactive power and distortion where
/// both are known.
pub open spec fn device_text(device: Device) -> Seq<char> {
    match (device.reactive_power_var, device.thd_current_pct) {
        (Some(reactive), Some(distortion)) => device.name@ + " ("@ + fixed_point::fixed_text(
            device.power_watts,
            1,
        ) + " W, "@ + fixed_point::explicit_text(reactive, 1) + " var, "@
            + fixed_point::fixed_text(distortion, 1) + "% THD)\n"@,
        _ => device.name@ + " ("@ + fixed_point::fixed_text(device.power_watts, 1) + " W)\n"@,
    }
}

/// The answer to a single reading.
pub open spec fn reading_text(change: DeviceChange, first: bool, total_power: Binary32) -> Seq<char> {
    match change {
        DeviceChange::Added(device) => "added "@ + device_text(device),
        DeviceChange::Removed(device) => "removed "@ + device_text(device),
        DeviceChange::Unchanged => if first {
            "baseline recorded at "@ + fixed_point::fixed_text(total_power, 1) + " W\n"@
        } else {
            "no device state change\n"@
        },
    }
}

fn name_device(device: &Device) -> (text: String)
    ensures
        text@ == device_text(*device),
{
    let mut text: String = device.name.to_owned();
    text.append(" (");
    text.append(fixed(device.power_watts, 1).as_str());
    match (device.reactive_power_var, device.thd_current_pct) {
        (Some(reactive), Some(distortion)) => {
            text.append(" W, ");
            text.append(explicit(reactive, 1).as_str());
            text.append(" var, ");
            text.append(fixed(distortion, 1).as_str());
            text.append("% THD)\n");
        },
        _ => {
            text.append(" W)\n");
        },
    }
    text
}

/// The answer to a single reading.
pub fn reading_response(change: DeviceChange, was_first_reading: bool, total_power: Binary32) -> (text:
    String)
    ensures
        text@ == reading_text(change, was_first_reading, total_power),
{
    match change {
        DeviceChange::Added(device) => {
            let mut text: String = "added ".to_owned();
            text.append(name_device(&device).as_str());
            text
        },
        DeviceChange::Removed(device) => {
            let mut text: String = "removed ".to_owned();
            text.append(name_device(&device).as_str());
            text
        },
        DeviceChange::Unchanged => {
            if was_first_reading {
                let mut text: String = "baseline recorded at ".to_owned();
                text.append(fixed(total_power, 1).as_str());
                text.append(" W\n");
                text
            } else {
                "no device state change\n".to_owned()
            }
        },
    }
}

/// What the readings of a batch come to, one after another.
pub open spec fn applied<M: DecisionMethod>(
    meter: Meter,
    method: M,
    readings: Seq<MeterReading>,
    at: Timestamp,
) -> Course<M>
    decreases readings.len(),
{
    if readings.len() == 0 {
        Course { meter, method, changes: Seq::empty() }
    } else {
        let earlier = applied(meter, method, readings.drop_last(), at);
        let (next, change) = earlier.meter.decided(earlier.method, readings.last());
        Course {
            meter: earlier.meter.after_reading(earlier.method, readings.last(), at),
            method: next,
            changes: earlier.changes.push(change),
        }
    }
}

/// How many of the changes added a device.
pub open spec fn additions(changes: Seq<DeviceChange>) -> nat
    decreases changes.len(),
{
    if changes.len() == 0 {
        0
    } else {
        additions(changes.drop_last()) + if changes.last() is Added {
            1nat
        } else {
            0nat
        }
    }
}

/// How many of the changes removed a device.
pub open spec fn removals(changes: Seq<DeviceChange>) -> nat
    decreases changes.len(),
{
    if changes.len() == 0 {
        0
    } else {
        removals(changes.drop_last()) + if changes.last() is Removed {
            1nat
        } else {
            0nat
        }
    }
}

/// The answer to an accepted batch: what a single reading did, or how many
/// devices came and went.
pub open spec fn batch_text(
    readings: Seq<MeterReading>,
    changes: Seq<DeviceChange>,
    first: bool,
) -> Seq<char> {
    if readings.len() == 0 {
        Seq::empty()
    } else if readings.len() == 1 {
        reading_text(changes[0], first, readings[0].total_power)
    } else {
        "accepted "@ + text::decimal_digits(readings.len()) + " readings: "@
            + text::decimal_digits(additions(changes)) + " added, "@ + text::decimal_digits(
            removals(changes),
        ) + " removed\n"@
    }
}

/// The answer to a request that could not be decoded.
pub fn refuse(message: &str) -> (reply: Reply)
    ensures
        reply.status == 400,
        reply.body@ == message@ + "\n"@,
{
    let mut body: String = message.to_owned();
    body.append("\n");
    Reply { status: 400, body }
}

/// Decodes a request, or answers it where any of its readings is invalid.
/// Nothing is applied before all of it has been decoded.
pub fn decode_request<D: ReadingDecoder>(decoder: &D, body: &Json) -> (result: Result<
    Vec<MeterReading>,
    Reply,
>)
    ensures
        match result {
            Ok(readings) => decoder.readings(*body) == Ok::<Seq<MeterReading>, Seq<char>>(
                readings@,
            ),
            Err(reply) => {
                &&& decoder.readings(*body) matches Err(message)
                &&& reply.status == 400
                &&& reply.body@ == message + "\n"@
            },
        },
{
    match decoder.decode_readings(body) {
        Ok(readings) => Ok(readings),
        Err(message) => Err(refuse(message.as_str())),
    }
}

/// The answer while the state cannot be reached.
pub fn meter_unavailable() -> (reply: Reply)
    ensures
        reply.status == 500,
        reply.body@ == "meter state is unavailable\n"@,
{
    Reply { status: 500, body: "meter state is unavailable\n".to_owned() }
}

/// The answer while the decision method cannot be reached.
pub fn method_unavailable() -> (reply: Reply)
    ensures
        reply.status == 500,
        reply.body@ == "decision method is unavailable\n"@,
{
    Reply { status: 500, body: "decision method is unavailable\n".to_owned() }
}

/// The answer where processing broke off.
pub fn processing_failed() -> (reply: Reply)
    ensures
        reply.status == 500,
        reply.body@ == "measurement processing failed\n"@,
{
    Reply { status: 500, body: "measurement processing failed\n".to_owned() }
}

/// Applies a decoded batch.  `archived_at` is when it was archived, or nothing
/// where the archive could not take it; such a batch is not accepted, and
/// changes nothing.
pub fn apply_batch<M: DecisionMethod>(
    meter: &mut MeterState,
    decision_method: &mut M,
    readings: &Vec<MeterReading>,
    reported_transport: GatewayTransport,
    archived_at: Option<Timestamp>,
) -> (reply: Reply)
    requires
        old(meter).wf(),
        old(decision_method).ready(),
        archived_at matches Some(at) ==> at.wf(),
        old(meter)@.received + readings@.len() <= u64::MAX,
        old(meter)@.stored + readings@.len() <= u64::MAX,
    ensures
        final(meter).wf(),
        final(meter).forecasted() == old(meter).forecasted(),
        final(decision_method).ready(),
        match archived_at {
            None => {
                &&& reply.status == 503
                &&& reply.body@ == "history storage is unavailable; batch was not accepted\n"@
                &&& final(meter)@ == old(meter)@
                &&& *final(decision_method) == *old(decision_method)
            },
            Some(at) => {
                let reported = old(meter)@.after_report(reported_transport@);
                let outcome = applied(reported, *old(decision_method), readings@, at);
                &&& reply.status == 200
                &&& reply.body@ == batch_text(
                    readings@,
                    outcome.changes,
                    old(meter)@.latest is None,
                )
                &&& final(meter)@ == outcome.meter
                &&& *final(decision_method) == outcome.method
            },
        },
{
    let at: Timestamp = match archived_at {
        Some(at) => at,
        None => {
            return Reply {
                status: 503,
                body: "history storage is unavailable; batch was not accepted\n".to_owned(),
            };
        },
    };
    let ghost forecast = meter.forecasted();
    meter.record_transport(reported_transport);
    let ghost reported = meter@;
    let ghost before = *decision_method;
    let count: usize = readings.len();
    let mut additions_seen: u64 = 0;
    let mut removals_seen: u64 = 0;
    let mut response: String = String::new();
    let mut index: usize = 0;
    let ghost mut changes: Seq<DeviceChange> = Seq::empty();
    assert(readings@.take(0) =~= Seq::<MeterReading>::empty());
    while index < count
        invariant
            index <= count,
            count == readings@.len(),
            meter.wf(),
            meter.forecasted() == forecast,
            decision_method.ready(),
            at.wf(),
            changes.len() == index,
            ({
                let outcome = applied(reported, before, readings@.take(index as int), at);
                &&& meter@ == outcome.meter
                &&& *decision_method == outcome.method
                &&& changes == outcome.changes
            }),
            meter@.received == reported.received + index,
            meter@.stored == reported.stored + index,
            reported.received + count <= u64::MAX,
            reported.stored + count <= u64::MAX,
            additions_seen == additions(changes),
            removals_seen == removals(changes),
            additions_seen <= index,
            removals_seen <= index,
            index == 0 ==> meter@.latest == reported.latest,
            index == 0 ==> response@.len() == 0,
            count == 1 && index == 1 ==> response@ == reading_text(
                changes[0],
                reported.latest is None,
                readings@[0].total_power,
            ),
            count != 1 ==> response@.len() == 0,
        decreases count - index,
    {
        assert(readings@.take(index + 1).drop_last() =~= readings@.take(index as int));
        let reading: MeterReading = readings[index];
        let was_first_reading: bool = meter.latest_power().is_none();
        let change: DeviceChange = meter.apply_reading(reading, decision_method, at);
        proof {
            let longer = changes.push(change);
            assert(longer.drop_last() =~= changes);
            changes = longer;
        }
        match change {
            DeviceChange::Added(_) => {
                additions_seen = additions_seen + 1;
            },
            DeviceChange::Removed(_) => {
                removals_seen = removals_seen + 1;
            },
            DeviceChange::Unchanged => {},
        }
        if count == 1 {
            response = reading_response(change, was_first_reading, reading.total_power);
        }
        index = index + 1;
    }
    assert(readings@.take(index as int) =~= readings@);
    if count > 1 {
        let mut body: String = "accepted ".to_owned();
        body.append(decimal(count as u64).as_str());
        body.append(" readings: ");
        body.append(decimal(additions_seen).as_str());
        body.append(" added, ");
        body.append(decimal(removals_seen).as_str());
        body.append(" removed\n");
        response = body;
    }
    assert(count == 0 ==> response@ =~= Seq::<char>::empty());
    Reply { status: 200, body: response }
}

/// Takes the configuration that waits for the gateway, if this answer can carry
/// it: the gateway reads one only from the answer to a batch that was accepted,
/// so anything else leaves it waiting.
pub fn take_config(pending: &mut Option<ClientThresholdConfig>, status: u16) -> (config: Option<Json>)
    ensures
        status == 200 ==> *final(pending) is None,
        status != 200 ==> *final(pending) == *old(pending) && config is None,
        status == 200 ==> match *old(pending) {
            Some(waiting) => config matches Some(json) && thresholds::writes_config(json, waiting)
                && thresholds::config_of(json) == Some(waiting.as_told()),
            None => config is None,
        },
{
    if status != 200 {
        return None;
    }
    match pending.take() {
        Some(waiting) => Some(encode_config(&waiting)),
        None => None,
    }
}

/// Puts a configuration behind an answer, on a line of its own.
pub fn attach_config(reply: Reply, config: &str) -> (carrying: Reply)
    ensures
        carrying.status == reply.status,
        carrying.body@ == reply.body@ + CONFIG_MARK@ + config@ + "\n"@,
{
    let mut body: String = reply.body;
    body.append(CONFIG_MARK);
    body.append(config);
    body.append("\n");
    Reply { status: reply.status, body }
}

/// The readings of a batch, each with the time the batch arrived.
pub open spec fn timed(readings: Seq<MeterReading>, at: Timestamp) -> Seq<
    (MeterReading, Timestamp),
> {
    Seq::new(readings.len(), |i: int| (readings[i], at))
}

/// A batch is a series of readings that arrived at one time.
pub proof fn lemma_a_batch_is_a_series<M: DecisionMethod>(
    meter: Meter,
    method: M,
    readings: Seq<MeterReading>,
    at: Timestamp,
)
    ensures
        applied(meter, method, readings, at) == meter::course(meter, method, timed(readings, at)),
    decreases readings.len(),
{
    if readings.len() > 0 {
        lemma_a_batch_is_a_series(meter, method, readings.drop_last(), at);
        assert(timed(readings, at).drop_last() =~= timed(readings.drop_last(), at));
    }
}

/// Readings count one by one, whatever batches they come in.
pub proof fn lemma_every_reading_counts<M: DecisionMethod>(
    meter: Meter,
    method: M,
    readings: Seq<MeterReading>,
    at: Timestamp,
)
    ensures
        applied(meter, method, readings, at).meter.received == meter.received + readings.len(),
        applied(meter, method, readings, at).changes.len() == readings.len(),
        readings.len() > 0 ==> applied(meter, method, readings, at).meter.latest == Some(
            readings.last(),
        ),
    decreases readings.len(),
{
    if readings.len() > 0 {
        lemma_every_reading_counts(meter, method, readings.drop_last(), at);
    }
}

/// Where a batch is cut in two makes no difference: state, method and changes
/// come out the same.
pub proof fn lemma_batches_can_be_split<M: DecisionMethod>(
    meter: Meter,
    method: M,
    first: Seq<MeterReading>,
    second: Seq<MeterReading>,
    at: Timestamp,
)
    ensures
        ({
            let whole = applied(meter, method, first + second, at);
            let half = applied(meter, method, first, at);
            let rest = applied(half.meter, half.method, second, at);
            &&& whole.meter == rest.meter
            &&& whole.method == rest.method
            &&& whole.changes == half.changes + rest.changes
        }),
    decreases second.len(),
{
    let half = applied(meter, method, first, at);
    if second.len() == 0 {
        assert(first + second =~= first);
        assert(half.changes + Seq::<DeviceChange>::empty() =~= half.changes);
    } else {
        lemma_batches_can_be_split(meter, method, first, second.drop_last(), at);
        assert((first + second).drop_last() =~= first + second.drop_last());
        let rest = applied(half.meter, half.method, second.drop_last(), at);
        let (next, change) = rest.meter.decided(rest.method, second.last());
        assert(half.changes + rest.changes.push(change) =~= (half.changes + rest.changes).push(
            change,
        ));
    }
}

/// One line, and nothing around it that trimming would take away.
pub open spec fn plain_line(line: Seq<char>) -> bool {
    &&& line.len() > 0
    &&& !text::white_space(line[0])
    &&& !text::white_space(line.last())
    &&& forall|i: int| 0 <= i < line.len() ==> #[trigger] line[i] != '\n'
}

/// A configuration that rides along with a one-line answer arrives at the
/// gateway as it was, and the answer is shown as if it were not there.
pub proof fn lemma_config_reaches_the_gateway(line: Seq<char>, config: Seq<char>)
    requires
        plain_line(line),
        plain_line(config),
        !text::begins_with(line, CONFIG_MARK@),
    ensures
        ({
            let body = line + "\n"@ + CONFIG_MARK@ + config + "\n"@;
            let lines = text::lines_of(text::trimmed(body));
            &&& lines == seq![line, CONFIG_MARK@ + config]
            &&& delivery::config_texts(lines) == seq![config]
            &&& delivery::shown_answer(lines) == ": "@ + line
        }),
{
    reveal_strlit("\n");
    reveal_strlit("__CONFIG_SYNC__:");
    reveal_strlit(" ");
    let mark = CONFIG_MARK@;
    let tail = mark + config;
    let body = line + "\n"@ + mark + config + "\n"@;
    let inner = line + "\n"@ + tail;
    // Trimming takes the last line ending away and nothing else.
    assert(body[0] == line[0]);
    assert(text::without_leading(body) == body);
    assert(body.last() == '\n');
    assert(body.drop_last() =~= inner);
    assert(inner.last() == config.last());
    assert(text::without_trailing(body) == text::without_trailing(inner));
    assert(text::trimmed(body) == inner);
    // The text before the first newline is the line.
    lemma_first_line(inner, line.len());
    assert(inner.take(line.len() as int) =~= line);
    assert(text::without_return(line) == line);
    assert(inner.skip(line.len() as int + 1) =~= tail);
    // The rest is one line.
    assert forall|i: int| 0 <= i < tail.len() implies #[trigger] tail[i] != '\n' by {
        if i >= mark.len() {
            assert(tail[i] == config[i - mark.len()]);
        }
    }
    lemma_first_line(tail, tail.len());
    let lines = text::lines_of(inner);
    assert(text::lines_of(tail) == seq![tail]);
    assert(lines =~= seq![line, tail]);
    // One of the two lines carries the configuration.
    assert(tail.take(mark.len() as int) =~= mark);
    assert(tail.skip(mark.len() as int) =~= config);
    reveal_with_fuel(delivery::config_texts, 3);
    reveal_with_fuel(delivery::plain_lines, 3);
    reveal_with_fuel(text::joined, 2);
    assert(lines.drop_last() =~= seq![line]);
    assert(seq![line].drop_last() =~= Seq::<Seq<char>>::empty());
    assert(delivery::config_texts(lines) =~= seq![config]);
    assert(delivery::plain_lines(lines) =~= seq![line]);
    assert(text::joined(seq![line], " "@) == line);
}

proof fn lemma_first_line(text: Seq<char>, end: nat)
    requires
        end <= text.len(),
        forall|i: int| 0 <= i < end ==> #[trigger] text[i] != '\n',
        end < text.len() ==> text[end as int] == '\n',
    ensures
        text::line_end(text) == end,
    decreases text.len(),
{
    if end > 0 {
        assert forall|i: int| 0 <= i < end - 1 implies #[trigger] text.drop_first()[i] != '\n' by {
            assert(text.drop_first()[i] == text[i + 1]);
        }
        lemma_first_line(text.drop_first(), (end - 1) as nat);
    }
}

/// The devices that came and went in a batch are counted one by one.
pub proof fn lemma_changes_are_counted(changes: Seq<DeviceChange>)
    ensures
        additions(changes) == changes.filter(|change: DeviceChange| change is Added).len(),
        removals(changes) == changes.filter(|change: DeviceChange| change is Removed).len(),
    decreases changes.len(),
{
    reveal(Seq::filter);
    if changes.len() > 0 {
        lemma_changes_are_counted(changes.drop_last());
    }
}

/// A batch of several readings is answered with how many readings there were and
/// how many devices came and went; a single reading with what it did.
pub proof fn lemma_what_a_batch_is_answered(
    readings: Seq<MeterReading>,
    changes: Seq<DeviceChange>,
    first: bool,
)
    requires
        changes.len() == readings.len(),
    ensures
        readings.len() >= 2 ==> batch_text(readings, changes, first) == "accepted "@
            + text::decimal_digits(readings.len()) + " readings: "@ + text::decimal_digits(
            changes.filter(|change: DeviceChange| change is Added).len(),
        ) + " added, "@ + text::decimal_digits(
            changes.filter(|change: DeviceChange| change is Removed).len(),
        ) + " removed\n"@,
        readings.len() == 1 ==> batch_text(readings, changes, first) == match changes[0] {
            DeviceChange::Added(device) => "added "@ + device_text(device),
            DeviceChange::Removed(device) => "removed "@ + device_text(device),
            DeviceChange::Unchanged => if first {
                "baseline recorded at "@ + fixed_point::fixed_text(readings[0].total_power, 1)
                    + " W\n"@
            } else {
                "no device state change\n"@
            },
        },
        readings.len() == 0 ==> batch_text(readings, changes, first) == Seq::<char>::empty(),
{
    lemma_changes_are_counted(changes);
}

/// A device is named with its power; its reactive power, with its sign, and its
/// distortion follow where both are known.
pub proof fn lemma_how_a_device_is_named(device: Device)
    ensures
        device.reactive_power_var is None || device.thd_current_pct is None ==> device_text(device)
            == device.name@ + " ("@ + fixed_point::fixed_text(device.power_watts, 1) + " W)\n"@,
        device.reactive_power_var is Some && device.thd_current_pct is Some ==> device_text(device)
            == device.name@ + " ("@ + fixed_point::fixed_text(device.power_watts, 1) + " W, "@
            + fixed_point::explicit_text(device.reactive_power_var->0, 1) + " var, "@
            + fixed_point::fixed_text(device.thd_current_pct->0, 1) + "% THD)\n"@,
{
}

/// A batch is its readings, one after another: the last of them meets the state
/// that the others left, and its change is the last one.
pub proof fn lemma_a_batch_applies_reading_by_reading<M: DecisionMethod>(
    meter: Meter,
    method: M,
    earlier: Seq<MeterReading>,
    last: MeterReading,
    at: Timestamp,
)
    ensures
        ({
            let before = applied(meter, method, earlier, at);
            let after = applied(meter, method, earlier.push(last), at);
            &&& after.changes == before.changes.push(before.meter.decided(before.method, last).1)
            &&& after.method == before.meter.decided(before.method, last).0
            &&& after.meter == before.meter.after_reading(before.method, last, at)
            &&& applied(meter, method, Seq::empty(), at).meter == meter
            &&& applied(meter, method, Seq::empty(), at).method == method
        }),
{
    assert(earlier.push(last).drop_last() =~= earlier);
}

} // verus!
