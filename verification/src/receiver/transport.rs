//! What the gateway reports about the link it delivers over.
//!
//! Which path the packets took, how many readings are waiting and how often the
//! gateway failed over are facts about the *sending* end.  The gateway attaches
//! them to each batch as headers.  The receiver still judges liveness for
//! itself, from when a batch actually arrived.

use vstd::prelude::*;
use vstd::string::*;

use crate::binary32::Binary32;
use crate::gateway::link::{
    HEADER_ACK_LATENCY, HEADER_DROPPED, HEADER_FAILOVERS, HEADER_PATH, HEADER_QUEUED,
    HEADER_RECONNECTS,
};
use crate::text;
use crate::text::{chars_of, parse_unsigned, trim};

verus! {

/// Longest path that is kept.  The cap stops a peer from pushing an unbounded
/// string into the receiver's state.
pub const MAX_PATH_LEN: usize = 256;

/// The headers of a request.
#[verifier::external_type_specification]
#[verifier::external_body]
#[verifier::reject_recursive_types(T)]
pub struct ExHeaderMap<T>(axum::http::HeaderMap<T>);

/// The value of a header.
#[verifier::external_type_specification]
#[verifier::external_body]
pub struct ExHeaderValue(axum::http::HeaderValue);

/// What the headers of a request hold: every spelling of a header's name, with
/// the text of the first value under it where that value is visible ASCII.
pub uninterp spec fn header_contents(headers: axum::http::HeaderMap<axum::http::HeaderValue>) -> Map<
    Seq<char>,
    Seq<char>,
>;

/// Calls `HeaderMap::get`, which finds the first value under a name, whatever
/// its case, and `HeaderValue::to_str` on it, which gives its text if it holds
/// nothing but visible ASCII characters and tabs.
#[verifier::external_body]
fn header_text(
    headers: &axum::http::HeaderMap<axum::http::HeaderValue>,
    name: &str,
) -> (text: Option<String>)
    ensures
        match text {
            Some(text) => {
                &&& header_contents(*headers).contains_key(name@)
                &&& header_contents(*headers)[name@] == text@
                &&& forall|i: int|
                    0 <= i < text@.len() ==> ' ' <= #[trigger] text@[i] <= '~' || text@[i] == '\t'
            },
            None => !header_contents(*headers).contains_key(name@),
        },
{
    headers.get(name).and_then(|value| value.to_str().ok()).map(|text| text.to_owned())
}

/// Transport state as reported by the gateway on its most recent batch.
#[derive(Debug, PartialEq, Eq)]
pub struct GatewayTransport {
    pub scion_path: Option<String>,
    pub queued_readings: Option<u32>,
    pub last_ack_latency_ms: Option<Binary32>,
    pub failover_count: Option<u32>,
    /// Readings the gateway admits it lost.
    pub dropped_readings: Option<u64>,
    /// How often the gateway lost and regained the meter.
    pub modbus_reconnects: Option<u64>,
}

/// A report as plain values.
#[verifier::ext_equal]
pub struct Report {
    pub scion_path: Option<Seq<char>>,
    pub queued_readings: Option<u32>,
    pub last_ack_latency_ms: Option<Binary32>,
    pub failover_count: Option<u32>,
    pub dropped_readings: Option<u64>,
    pub modbus_reconnects: Option<u64>,
}

impl View for GatewayTransport {
    type V = Report;

    open spec fn view(&self) -> Report {
        Report {
            scion_path: match self.scion_path {
                Some(path) => Some(path@),
                None => None,
            },
            queued_readings: self.queued_readings,
            last_ack_latency_ms: self.last_ack_latency_ms,
            failover_count: self.failover_count,
            dropped_readings: self.dropped_readings,
            modbus_reconnects: self.modbus_reconnects,
        }
    }
}

/// The report of a gateway that reports nothing.
pub open spec fn no_report() -> Report {
    Report {
        scion_path: None,
        queued_readings: None,
        last_ack_latency_ms: None,
        failover_count: None,
        dropped_readings: None,
        modbus_reconnects: None,
    }
}

impl Default for GatewayTransport {
    fn default() -> (transport: GatewayTransport)
        ensures
            transport@ == no_report(),
    {
        GatewayTransport {
            scion_path: None,
            queued_readings: None,
            last_ack_latency_ms: None,
            failover_count: None,
            dropped_readings: None,
            modbus_reconnects: None,
        }
    }
}

/// A character that is kept out of logs and views.
pub open spec fn control(c: char) -> bool {
    c <= '\u{1f}' || '\u{7f}' <= c <= '\u{9f}'
}

pub fn is_control(c: char) -> (result: bool)
    ensures
        result == control(c),
{
    c <= '\u{1f}' || ('\u{7f}' <= c && c <= '\u{9f}')
}

/// A text without its control characters.
pub open spec fn printable(text: Seq<char>) -> Seq<char>
    decreases text.len(),
{
    if text.len() == 0 {
        Seq::empty()
    } else {
        let earlier = printable(text.drop_last());
        if control(text.last()) {
            earlier
        } else {
            earlier.push(text.last())
        }
    }
}

/// The first characters of a text.
pub open spec fn clipped(text: Seq<char>, limit: nat) -> Seq<char> {
    if text.len() <= limit {
        text
    } else {
        text.take(limit as int)
    }
}

/// A reported path as it is kept: trimmed, without control characters, bounded
/// in length, and nothing where nothing is left.
pub open spec fn kept_path(raw: Seq<char>) -> Option<Seq<char>> {
    let cleaned = clipped(printable(text::trimmed(raw)), MAX_PATH_LEN as nat);
    if cleaned.len() == 0 {
        None
    } else {
        Some(cleaned)
    }
}

proof fn lemma_printable_grows(text: Seq<char>, count: int)
    requires
        0 <= count <= text.len(),
    ensures
        printable(text.take(count)).len() <= printable(text).len(),
        printable(text).take(printable(text.take(count)).len() as int) == printable(
            text.take(count),
        ),
    decreases text.len(),
{
    if count == text.len() {
        assert(text.take(count) =~= text);
        assert(printable(text).take(printable(text).len() as int) =~= printable(text));
    } else {
        assert(text.drop_last().take(count) =~= text.take(count));
        lemma_printable_grows(text.drop_last(), count);
        let fewer = printable(text.take(count));
        assert(printable(text).take(fewer.len() as int) =~= printable(text.drop_last()).take(
            fewer.len() as int,
        ));
    }
}

/// Keeps a path to printable characters and a sane length.  The value arrives
/// from the network.
pub fn sanitize_path(raw: &str) -> (path: Option<String>)
    ensures
        match path {
            Some(path) => kept_path(raw@) == Some(path@),
            None => kept_path(raw@) is None,
        },
{
    let trimmed: String = trim(raw);
    let chars: Vec<char> = chars_of(trimmed.as_str());
    let mut kept: Vec<char> = Vec::new();
    let mut at: usize = 0;
    assert(kept@ =~= printable(chars@.take(0)));
    while at < chars.len() && kept.len() < MAX_PATH_LEN
        invariant
            at <= chars@.len(),
            kept@ == printable(chars@.take(at as int)),
            kept@.len() <= MAX_PATH_LEN,
        decreases chars@.len() - at,
    {
        assert(chars@.take(at + 1).drop_last() =~= chars@.take(at as int));
        if !is_control(chars[at]) {
            kept.push(chars[at]);
        }
        at = at + 1;
    }
    proof {
        lemma_printable_grows(chars@, at as int);
        if at == chars@.len() {
            assert(chars@.take(at as int) =~= chars@);
        }
        assert(kept@ =~= clipped(printable(chars@), MAX_PATH_LEN as nat));
    }
    if kept.len() == 0 {
        return None;
    }
    let length: usize = kept.len();
    let path: String = text::text_of(&kept, 0, length);
    assert(kept@.subrange(0, length as int) =~= kept@);
    Some(path)
}

/// A latency as it is kept: a finite number that is not negative.
pub open spec fn kept_latency(latency: Option<Binary32>) -> Option<Binary32> {
    match latency {
        Some(value) => if value.finite() && (Binary32 { bits: 0 }).at_most(value) {
            Some(value)
        } else {
            None
        },
        None => None,
    }
}

/// The count that a header carries, if it is one of at most `max`.
pub open spec fn header_count(contents: Map<Seq<char>, Seq<char>>, name: Seq<char>, max: nat) -> Option<
    nat,
> {
    if contents.contains_key(name) {
        text::unsigned_value(text::trimmed(contents[name]), max)
    } else {
        None
    }
}

/// What headers with these contents report, where the latency header reads as
/// `latency`.
pub open spec fn reported(contents: Map<Seq<char>, Seq<char>>, latency: Option<Binary32>) -> Report {
    Report {
        scion_path: if contents.contains_key(HEADER_PATH@) {
            kept_path(contents[HEADER_PATH@])
        } else {
            None
        },
        queued_readings: match header_count(contents, HEADER_QUEUED@, u32::MAX as nat) {
            Some(count) => Some(count as u32),
            None => None,
        },
        last_ack_latency_ms: kept_latency(latency),
        failover_count: match header_count(contents, HEADER_FAILOVERS@, u32::MAX as nat) {
            Some(count) => Some(count as u32),
            None => None,
        },
        dropped_readings: match header_count(contents, HEADER_DROPPED@, u64::MAX as nat) {
            Some(count) => Some(count as u64),
            None => None,
        },
        modbus_reconnects: match header_count(contents, HEADER_RECONNECTS@, u64::MAX as nat) {
            Some(count) => Some(count as u64),
            None => None,
        },
    }
}

fn parse_header(
    headers: &axum::http::HeaderMap<axum::http::HeaderValue>,
    name: &str,
    max: u64,
) -> (count: Option<u64>)
    ensures
        match count {
            Some(count) => count <= max && header_count(
                header_contents(*headers),
                name@,
                max as nat,
            ) == Some(count as nat),
            None => header_count(header_contents(*headers), name@, max as nat) is None,
        },
{
    match header_text(headers, name) {
        Some(text) => parse_unsigned(trim(text.as_str()).as_str(), max),
        None => None,
    }
}

fn parse_small_header(
    headers: &axum::http::HeaderMap<axum::http::HeaderValue>,
    name: &str,
) -> (count: Option<u32>)
    ensures
        count == match header_count(header_contents(*headers), name@, u32::MAX as nat) {
            Some(count) => Some(count as u32),
            None => None,
        },
{
    match parse_header(headers, name, u32::MAX as u64) {
        Some(count) => Some(count as u32),
        None => None,
    }
}

impl GatewayTransport {
    /// Whether any field was reported at all.
    pub fn is_empty(&self) -> (empty: bool)
        ensures
            empty == (self@ == no_report()),
    {
        self.scion_path.is_none() && self.queued_readings.is_none()
            && self.last_ack_latency_ms.is_none() && self.failover_count.is_none()
            && self.dropped_readings.is_none() && self.modbus_reconnects.is_none()
    }

    /// A report with the same contents.
    pub fn copy(&self) -> (copy: GatewayTransport)
        ensures
            copy@ == self@,
    {
        let scion_path: Option<String> = match &self.scion_path {
            Some(path) => Some(path.clone()),
            None => None,
        };
        GatewayTransport {
            scion_path,
            queued_readings: self.queued_readings,
            last_ack_latency_ms: self.last_ack_latency_ms,
            failover_count: self.failover_count,
            dropped_readings: self.dropped_readings,
            modbus_reconnects: self.modbus_reconnects,
        }
    }

    /// The text of the latency header, ready to be read as a number.
    pub fn latency_text(headers: &axum::http::HeaderMap<axum::http::HeaderValue>) -> (text: Option<
        String,
    >)
        ensures
            match text {
                Some(text) => header_contents(*headers).contains_key(HEADER_ACK_LATENCY@) && text@
                    == text::trimmed(header_contents(*headers)[HEADER_ACK_LATENCY@]),
                None => !header_contents(*headers).contains_key(HEADER_ACK_LATENCY@),
            },
    {
        match header_text(headers, HEADER_ACK_LATENCY) {
            Some(text) => Some(trim(text.as_str())),
            None => None,
        }
    }

    /// Reads the transport headers of a batch; `latency` is what the latency
    /// header reads as.
    ///
    /// Every field is optional and independently parsed: a malformed value is
    /// dropped rather than failing the batch.
    pub fn from_headers(
        headers: &axum::http::HeaderMap<axum::http::HeaderValue>,
        latency: Option<Binary32>,
    ) -> (transport: GatewayTransport)
        ensures
            transport@ == reported(header_contents(*headers), latency),
    {
        let scion_path: Option<String> = match header_text(headers, HEADER_PATH) {
            Some(text) => sanitize_path(text.as_str()),
            None => None,
        };
        let last_ack_latency_ms: Option<Binary32> = match latency {
            Some(value) => {
                if value.is_finite() && (Binary32 { bits: 0 }).le(value) {
                    Some(value)
                } else {
                    None
                }
            },
            None => None,
        };
        GatewayTransport {
            scion_path,
            queued_readings: parse_small_header(headers, HEADER_QUEUED),
            last_ack_latency_ms,
            failover_count: parse_small_header(headers, HEADER_FAILOVERS),
            dropped_readings: parse_header(headers, HEADER_DROPPED, u64::MAX),
            modbus_reconnects: parse_header(headers, HEADER_RECONNECTS, u64::MAX),
        }
    }
}

/// A path that is kept is never longer than the cap and holds no control
/// character.
pub proof fn lemma_kept_paths_are_bounded(raw: Seq<char>)
    ensures
        kept_path(raw) matches Some(path) ==> {
            &&& 0 < path.len() <= MAX_PATH_LEN
            &&& forall|i: int| 0 <= i < path.len() ==> !control(#[trigger] path[i])
        },
{
    lemma_printable_has_no_controls(text::trimmed(raw));
}

proof fn lemma_printable_has_no_controls(text: Seq<char>)
    ensures
        forall|i: int| 0 <= i < printable(text).len() ==> !control(#[trigger] printable(text)[i]),
    decreases text.len(),
{
    if text.len() > 0 {
        let earlier = printable(text.drop_last());
        lemma_printable_has_no_controls(text.drop_last());
        assert forall|i: int| 0 <= i < printable(text).len() implies !control(
            #[trigger] printable(text)[i],
        ) by {
            if i < earlier.len() {
                assert(printable(text)[i] == earlier[i]);
            }
        }
    }
}

/// Decimal digits have no white space around them.
pub proof fn lemma_digits_are_trimmed(number: nat)
    ensures
        text::trimmed(text::decimal_digits(number)) == text::decimal_digits(number),
{
    text::lemma_decimal_digits(number);
    let digits = text::decimal_digits(number);
    assert(!text::white_space(digits[0]));
    assert(!text::white_space(digits.last()));
}

/// The counters that a gateway puts in its headers are the ones the receiver
/// reads out of them; a count of waiting readings beyond 32 bits is dropped.
pub proof fn lemma_reported_counts_arrive(
    contents: Map<Seq<char>, Seq<char>>,
    latency: Option<Binary32>,
    stats: crate::gateway::link::DeliveryStats,
)
    requires
        contents.contains_key(HEADER_QUEUED@),
        contents[HEADER_QUEUED@] == text::decimal_digits(stats.queued_readings as nat),
        contents.contains_key(HEADER_DROPPED@),
        contents[HEADER_DROPPED@] == text::decimal_digits(stats.dropped_readings as nat),
        contents.contains_key(HEADER_RECONNECTS@),
        contents[HEADER_RECONNECTS@] == text::decimal_digits(stats.modbus_reconnects as nat),
    ensures
        stats.queued_readings <= u32::MAX ==> reported(contents, latency).queued_readings == Some(
            stats.queued_readings as u32,
        ),
        stats.queued_readings > u32::MAX ==> reported(contents, latency).queued_readings is None,
        reported(contents, latency).dropped_readings == Some(stats.dropped_readings),
        reported(contents, latency).modbus_reconnects == Some(stats.modbus_reconnects),
{
    lemma_digits_are_trimmed(stats.queued_readings as nat);
    lemma_digits_are_trimmed(stats.dropped_readings as nat);
    lemma_digits_are_trimmed(stats.modbus_reconnects as nat);
    text::lemma_decimal_digits(stats.queued_readings as nat);
    text::lemma_decimal_digits(stats.dropped_readings as nat);
    text::lemma_decimal_digits(stats.modbus_reconnects as nat);
}

/// Tells the characters that are no control characters.
pub open spec fn is_printable(c: char) -> bool {
    0x20 <= c as int <= 0x7e || 0xa0 <= c as int
}

proof fn lemma_printable_is_a_filter(text: Seq<char>)
    ensures
        printable(text) == text.filter(|c: char| is_printable(c)),
    decreases text.len(),
{
    reveal(Seq::filter);
    if text.len() > 0 {
        lemma_printable_is_a_filter(text.drop_last());
        assert(is_printable(text.last()) == !control(text.last()));
    }
}

/// A path is kept without the space around it and without control characters,
/// the first 256 characters of it, all of them in their order; where nothing is
/// left, there is no path.
pub proof fn lemma_what_is_kept_of_a_path(raw: Seq<char>)
    ensures
        ({
            let clean = text::trimmed(raw).filter(|c: char| is_printable(c));
            match kept_path(raw) {
                None => clean.len() == 0,
                Some(path) => clean.len() > 0 && path.len() == (if clean.len() <= 256 {
                    clean.len()
                } else {
                    256
                }) && forall|i: int| 0 <= i < path.len() ==> #[trigger] path[i] == clean[i],
            }
        }),
{
    lemma_printable_is_a_filter(text::trimmed(raw));
}

/// What a count in a header reads as, with its bound.
pub open spec fn counted(contents: Map<Seq<char>, Seq<char>>, name: Seq<char>, max: nat) -> Option<
    nat,
> {
    if contents.contains_key(name) {
        text::unsigned_value(text::trimmed(contents[name]), max)
    } else {
        None
    }
}

/// Every part of a report comes from its own header, and from nothing else: one
/// that is missing or malformed leaves the others as they are.
pub proof fn lemma_each_header_is_read_for_itself(
    contents: Map<Seq<char>, Seq<char>>,
    latency: Option<Binary32>,
)
    ensures
        ({
            let report = reported(contents, latency);
            let as_count = |count: Option<u32>|
                if count is Some {
                    Some(count->0 as nat)
                } else {
                    None::<nat>
                };
            let as_total = |count: Option<u64>|
                if count is Some {
                    Some(count->0 as nat)
                } else {
                    None::<nat>
                };
            &&& as_count(report.queued_readings) == counted(
                contents,
                "x-pq-queued-readings"@,
                u32::MAX as nat,
            )
            &&& as_count(report.failover_count) == counted(
                contents,
                "x-pq-failover-count"@,
                u32::MAX as nat,
            )
            &&& as_total(report.dropped_readings) == counted(
                contents,
                "x-pq-dropped-readings"@,
                u64::MAX as nat,
            )
            &&& as_total(report.modbus_reconnects) == counted(
                contents,
                "x-pq-modbus-reconnects"@,
                u64::MAX as nat,
            )
            &&& report.scion_path == if contents.contains_key("x-pq-scion-path"@) {
                kept_path(contents["x-pq-scion-path"@])
            } else {
                None
            }
            &&& report.last_ack_latency_ms is Some <==> latency is Some && latency->0.finite() && (
            Binary32 { bits: 0 }).at_most(latency->0)
            &&& report.last_ack_latency_ms is Some ==> report.last_ack_latency_ms == latency
        }),
{
    text::lemma_what_is_a_count(
        text::trimmed(contents["x-pq-queued-readings"@]),
        u32::MAX as nat,
    );
    text::lemma_what_is_a_count(
        text::trimmed(contents["x-pq-failover-count"@]),
        u32::MAX as nat,
    );
    text::lemma_what_is_a_count(
        text::trimmed(contents["x-pq-dropped-readings"@]),
        u64::MAX as nat,
    );
    text::lemma_what_is_a_count(
        text::trimmed(contents["x-pq-modbus-reconnects"@]),
        u64::MAX as nat,
    );
}

/// A gateway reports nothing exactly if no part of its report is there.
pub proof fn lemma_what_reports_nothing(report: Report)
    ensures
        report == no_report() <==> report.scion_path is None && report.queued_readings is None
            && report.last_ack_latency_ms is None && report.failover_count is None
            && report.dropped_readings is None && report.modbus_reconnects is None,
{
}

/// A report is what its values say.
pub proof fn lemma_what_a_report_says(transport: GatewayTransport)
    ensures
        transport.scion_path is Some <==> transport@.scion_path is Some,
        transport.scion_path is Some ==> transport@.scion_path == Some(transport.scion_path->0@),
        transport@.queued_readings == transport.queued_readings,
        transport@.last_ack_latency_ms == transport.last_ack_latency_ms,
        transport@.failover_count == transport.failover_count,
        transport@.dropped_readings == transport.dropped_readings,
        transport@.modbus_reconnects == transport.modbus_reconnects,
{
}

} // verus!
