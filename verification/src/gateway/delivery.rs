//! Delivering queued readings: when a batch is sent, what is sent with it, and
//! what the answer means for the readings.

use vstd::prelude::*;
use vstd::string::*;

use crate::binary32::Binary32;
use crate::clock::{Moment, Span, NANOS_PER_MILLI, NANOS_PER_SEC};
use crate::fixed_point;
use crate::fixed_point::fixed;
use crate::gateway::link::{
    DeliveryStats, ScionLink, HEADER_ACK_LATENCY, HEADER_DROPPED, HEADER_FAILOVERS, HEADER_PATH,
    HEADER_QUEUED, HEADER_RECONNECTS,
};
use crate::gateway::retry;
use crate::gateway::retry::Backoff;
use crate::gateway::spool::{Lease, Spool};
use crate::gateway::uplink;
use crate::gateway::uplink::Uplink;
use crate::text;
use crate::text::{decimal, join, lines, strip_prefix, trim};

verus! {

/// Shortest and longest wait between attempts to deliver a batch.
///
/// The ceiling is what a long outage settles at: the gateway keeps acquiring
/// throughout and tries again every half minute.
pub const SEND_RETRY_BASE_MILLIS: u64 = 500;

pub const SEND_RETRY_MAX_MILLIS: u64 = 30_000;

/// Largest response body that is read.
pub const MAX_BODY_SIZE: usize = 4096;

/// Marks a line of the answer that carries a configuration.
pub const CONFIG_MARK: &'static str = "__CONFIG_SYNC__:";

/// What became of a batch the gateway tried to deliver.
#[derive(Clone, Copy, Debug, PartialEq, Eq, Structural)]
pub enum Delivery {
    /// The receiver has the readings.  They can be removed from the queue.
    Accepted,
    /// The receiver refused the readings and always will.  Keeping them blocks
    /// the queue.
    Rejected,
    /// Nobody answered, or the receiver could not take them right now.  Try
    /// again later.
    Failed,
}

/// What an HTTP status says about a batch: a success means that the receiver
/// has it, a client error that resending changes nothing, and anything else
/// that it is worth another try.
pub open spec fn meaning(status: u16) -> Delivery {
    if 200 <= status < 300 {
        Delivery::Accepted
    } else if 400 <= status < 500 {
        Delivery::Rejected
    } else {
        Delivery::Failed
    }
}

/// Classifies what the receiver said about a batch.
pub fn classify(status: u16) -> (delivery: Delivery)
    ensures
        delivery == meaning(status),
{
    if 200 <= status && status < 300 {
        Delivery::Accepted
    } else if 400 <= status && status < 500 {
        Delivery::Rejected
    } else {
        Delivery::Failed
    }
}

/// How far the attempt to send a batch got.
#[derive(Clone, Copy, Debug, PartialEq, Eq, Structural)]
pub enum Attempt {
    /// There was nothing to send.
    Empty,
    /// The batch could not be put into a request.
    Unsendable,
    /// Sending failed, or took too long.
    Unanswered,
    /// The receiver answered with this status, after this many milliseconds.
    Answered { status: u16, latency_ms: Binary32 },
}

/// What an attempt means for the readings.  A batch that cannot be sent now
/// never can be; one that got no answer can.
pub open spec fn outcome_of(attempt: Attempt) -> Delivery {
    match attempt {
        Attempt::Empty => Delivery::Accepted,
        Attempt::Unsendable => Delivery::Rejected,
        Attempt::Unanswered => Delivery::Failed,
        Attempt::Answered { status, .. } => meaning(status),
    }
}

/// The round trip that the next batch reports, after an attempt.  Only an
/// acknowledged batch counts.
pub open spec fn latency_after(attempt: Attempt, before: Option<Binary32>) -> Option<Binary32> {
    match attempt {
        Attempt::Answered { status, latency_ms } => if meaning(status) == Delivery::Accepted {
            Some(latency_ms)
        } else {
            before
        },
        _ => before,
    }
}

/// Notes how an attempt went, and says what it means.
pub fn note_attempt(stats: &mut DeliveryStats, attempt: Attempt) -> (delivery: Delivery)
    ensures
        delivery == outcome_of(attempt),
        *final(stats) == (DeliveryStats {
            last_ack_latency_ms: latency_after(attempt, old(stats).last_ack_latency_ms),
            ..*old(stats)
        }),
{
    match attempt {
        Attempt::Empty => Delivery::Accepted,
        Attempt::Unsendable => Delivery::Rejected,
        Attempt::Unanswered => Delivery::Failed,
        Attempt::Answered { status, latency_ms } => {
            let delivery: Delivery = classify(status);
            if delivery == Delivery::Accepted {
                stats.last_ack_latency_ms = Some(latency_ms);
            }
            delivery
        },
    }
}

/// Headers as pairs of texts.
pub open spec fn header_texts(headers: Seq<(String, String)>) -> Seq<(Seq<char>, Seq<char>)> {
    headers.map_values(|header: (String, String)| (header.0@, header.1@))
}

/// The headers every batch is sent with.
pub open spec fn basic_headers(stats: DeliveryStats) -> Seq<(Seq<char>, Seq<char>)> {
    seq![
        ("content-type"@, "application/json"@),
        (HEADER_QUEUED@, text::decimal_digits(stats.queued_readings as nat)),
        (HEADER_DROPPED@, text::decimal_digits(stats.dropped_readings as nat)),
        (HEADER_RECONNECTS@, text::decimal_digits(stats.modbus_reconnects as nat)),
    ]
}

/// The header for the previous round trip, if there was one.
pub open spec fn latency_headers(stats: DeliveryStats) -> Seq<(Seq<char>, Seq<char>)> {
    match stats.last_ack_latency_ms {
        Some(latency) => seq![(HEADER_ACK_LATENCY@, fixed_point::fixed_text(latency, 1))],
        None => Seq::empty(),
    }
}

/// The headers about the path, as far as the gateway can see it.
pub open spec fn path_headers(link: Option<&ScionLink>) -> Seq<(Seq<char>, Seq<char>)> {
    match link {
        Some(link) => seq![(HEADER_FAILOVERS@, text::decimal_digits(link.failovers()))]
            + match link.path() {
            Some(path) => seq![(HEADER_PATH@, path)],
            None => Seq::empty(),
        },
        None => Seq::empty(),
    }
}

fn push_header(headers: &mut Vec<(String, String)>, name: &str, value: String)
    ensures
        header_texts(final(headers)@) == header_texts(old(headers)@).push((name@, value@)),
{
    let ghost before = headers@;
    headers.push((name.to_owned(), value));
    assert(header_texts(headers@) =~= header_texts(before).push((name@, value@)));
}

/// All headers of a batch.
pub open spec fn all_headers(stats: DeliveryStats, link: Option<&ScionLink>) -> Seq<
    (Seq<char>, Seq<char>),
> {
    basic_headers(stats) + latency_headers(stats) + path_headers(link)
}

/// The headers of a batch.  The gateway's view of the link rides along with the
/// readings, which leaves the measurement body as it is.
pub fn batch_headers(stats: &DeliveryStats, link: Option<&ScionLink>) -> (headers: Vec<
    (String, String),
>)
    ensures
        header_texts(headers@) == all_headers(*stats, link),
{
    let mut headers: Vec<(String, String)> = Vec::new();
    assert(header_texts(headers@) =~= Seq::empty());
    push_header(&mut headers, "content-type", "application/json".to_owned());
    push_header(&mut headers, HEADER_QUEUED, decimal(stats.queued_readings as u64));
    push_header(&mut headers, HEADER_DROPPED, decimal(stats.dropped_readings));
    push_header(&mut headers, HEADER_RECONNECTS, decimal(stats.modbus_reconnects));
    assert(header_texts(headers@) =~= basic_headers(*stats));
    if let Some(latency) = stats.last_ack_latency_ms {
        push_header(&mut headers, HEADER_ACK_LATENCY, fixed(latency, 1));
    }
    assert(header_texts(headers@) =~= basic_headers(*stats) + latency_headers(*stats));
    if let Some(link) = link {
        push_header(&mut headers, HEADER_FAILOVERS, decimal(link.failover_count() as u64));
        if let Some(path) = link.current_path() {
            push_header(&mut headers, HEADER_PATH, path.to_owned());
        }
    }
    assert(header_texts(headers@) =~= basic_headers(*stats) + latency_headers(*stats)
        + path_headers(link));
    headers
}

/// The JSON array that a batch is sent as, if it can be written.
pub uninterp spec fn batch_bytes(readings: Seq<serde_json::Value>) -> Option<Seq<u8>>;

/// Calls `serde_json::to_vec` on the readings of a batch.  The bytes depend on
/// the readings alone.
#[verifier::external_body]
fn encode_batch(readings: &Vec<serde_json::Value>) -> (body: Option<Vec<u8>>)
    ensures
        match body {
            Some(body) => batch_bytes(readings@) == Some(body@),
            None => batch_bytes(readings@) is None,
        },
{
    serde_json::to_vec(readings).ok()
}

/// A batch, ready to be posted.
#[derive(Debug, PartialEq, Eq)]
pub struct Post {
    pub headers: Vec<(String, String)>,
    pub body: Vec<u8>,
}

/// What is posted: the bytes of the batch under the headers that go with it, or
/// how far the attempt got without them.
pub open spec fn posts(
    post: Result<Post, Attempt>,
    count: nat,
    body: Option<Seq<u8>>,
    headers: Seq<(Seq<char>, Seq<char>)>,
) -> bool {
    if count == 0 {
        post == Err::<Post, Attempt>(Attempt::Empty)
    } else {
        match body {
            Some(body) => post matches Ok(post) && post.body@ == body && header_texts(
                post.headers@,
            ) == headers,
            None => post == Err::<Post, Attempt>(Attempt::Unsendable),
        }
    }
}

/// Puts the post together for a batch of `count` readings, which were written
/// as `body`.
pub fn post_of(
    count: usize,
    body: Option<Vec<u8>>,
    stats: &DeliveryStats,
    link: Option<&ScionLink>,
) -> (post: Result<Post, Attempt>)
    ensures
        posts(
            post,
            count as nat,
            match body {
                Some(body) => Some(body@),
                None => None,
            },
            all_headers(*stats, link),
        ),
{
    if count == 0 {
        return Err(Attempt::Empty);
    }
    match body {
        Some(body) => Ok(Post { headers: batch_headers(stats, link), body }),
        None => Err(Attempt::Unsendable),
    }
}

/// What the receiver wrote in its answer.
pub struct Answer {
    /// The configurations it carries, in the order they came.
    pub configs: Vec<String>,
    /// The rest of it, ready to follow a status.
    pub shown: String,
}

/// The configurations among the lines of an answer.
pub open spec fn config_texts(lines: Seq<Seq<char>>) -> Seq<Seq<char>>
    decreases lines.len(),
{
    if lines.len() == 0 {
        Seq::empty()
    } else {
        let earlier = config_texts(lines.drop_last());
        if text::begins_with(lines.last(), CONFIG_MARK@) {
            earlier.push(lines.last().skip(CONFIG_MARK@.len() as int))
        } else {
            earlier
        }
    }
}

/// The other lines of an answer.
pub open spec fn plain_lines(lines: Seq<Seq<char>>) -> Seq<Seq<char>>
    decreases lines.len(),
{
    if lines.len() == 0 {
        Seq::empty()
    } else {
        let earlier = plain_lines(lines.drop_last());
        if text::begins_with(lines.last(), CONFIG_MARK@) {
            earlier
        } else {
            earlier.push(lines.last())
        }
    }
}

/// The answer as it is shown: its plain lines in one, after a colon; nothing
/// where there are none.
pub open spec fn shown_answer(lines: Seq<Seq<char>>) -> Seq<char> {
    let display = text::joined(plain_lines(lines), " "@);
    if display.len() == 0 {
        Seq::empty()
    } else {
        ": "@ + display
    }
}

/// Takes the answer to a batch apart.
pub fn read_answer(body: &str) -> (answer: Answer)
    ensures
        text::texts(answer.configs@) == config_texts(text::lines_of(text::trimmed(body@))),
        answer.shown@ == shown_answer(text::lines_of(text::trimmed(body@))),
{
    let trimmed: String = trim(body);
    let all: Vec<String> = lines(trimmed.as_str());
    let ghost described = text::texts(all@);
    let mut configs: Vec<String> = Vec::new();
    let mut plain: Vec<String> = Vec::new();
    let mut at: usize = 0;
    assert(text::texts(configs@) =~= config_texts(described.take(0)));
    assert(text::texts(plain@) =~= plain_lines(described.take(0)));
    while at < all.len()
        invariant
            at <= all@.len(),
            described == text::texts(all@),
            text::texts(configs@) == config_texts(described.take(at as int)),
            text::texts(plain@) == plain_lines(described.take(at as int)),
        decreases all@.len() - at,
    {
        assert(described.take(at + 1).drop_last() =~= described.take(at as int));
        let ghost configs_before = configs@;
        let ghost plain_before = plain@;
        match strip_prefix(all[at].as_str(), CONFIG_MARK) {
            Some(config) => {
                configs.push(config);
                assert(text::texts(configs@) =~= text::texts(configs_before).push(config@));
            },
            None => {
                let line: String = all[at].clone();
                plain.push(line);
                assert(text::texts(plain@) =~= text::texts(plain_before).push(line@));
            },
        }
        at = at + 1;
    }
    assert(described.take(at as int) =~= described);
    let display: String = join(&plain, " ");
    let shown: String = if display.as_str().is_empty() {
        String::new()
    } else {
        let mut shown: String = ": ".to_owned();
        shown.append(display.as_str());
        shown
    };
    Answer { configs, shown }
}

/// The last configuration that could be read, of those an answer carried.
pub open spec fn latest<T>(parsed: Seq<Option<T>>) -> Option<T>
    decreases parsed.len(),
{
    if parsed.len() == 0 {
        None
    } else if parsed.last() is Some {
        parsed.last()
    } else {
        latest(parsed.drop_last())
    }
}

/// Picks the last configuration that could be read.
pub fn latest_config<T: Copy>(parsed: &Vec<Option<T>>) -> (config: Option<T>)
    ensures
        config == latest(parsed@),
{
    let mut at: usize = parsed.len();
    assert(parsed@.take(at as int) =~= parsed@);
    while at > 0
        invariant
            at <= parsed@.len(),
            latest(parsed@) == latest(parsed@.take(at as int)),
        decreases at,
    {
        assert(parsed@.take(at as int).drop_last() =~= parsed@.take(at - 1));
        let candidate: Option<T> = parsed[at - 1];
        if candidate.is_some() {
            return candidate;
        }
        at = at - 1;
    }
    None
}

/// Picks the configuration to go by from now on.  An answer that does not
/// acknowledge the batch changes nothing.
pub fn adopted_config<T: Copy>(outcome: Delivery, parsed: &Vec<Option<T>>) -> (config: Option<T>)
    ensures
        config == if outcome == Delivery::Accepted {
            latest(parsed@)
        } else {
            None
        },
{
    if outcome == Delivery::Accepted {
        latest_config(parsed)
    } else {
        None
    }
}

/// Why a batch is sent.
#[derive(Clone, Copy, Debug, PartialEq, Eq, Structural)]
pub enum Trigger {
    /// Enough readings are waiting.
    Size,
    /// The oldest reading has waited long enough.
    Time,
}

/// The reason as it is printed.
pub fn reason(trigger: Trigger) -> (reason: &'static str)
    ensures
        reason@ == match trigger {
            Trigger::Size => "size trigger"@,
            Trigger::Time => "time trigger"@,
        },
{
    match trigger {
        Trigger::Size => "size trigger",
        Trigger::Time => "time trigger",
    }
}

/// What the uploader does next.
#[derive(Clone, Copy, Debug, PartialEq, Eq, Structural)]
pub enum UploadStep {
    /// A batch failed: wait until the backoff has run out.
    SleepUntil(Moment),
    /// Nothing is queued: wait for a reading, and note its arrival.
    AwaitReading,
    /// Not enough is queued yet: wait for another reading, or for the deadline.
    AwaitReadingUntil(Moment),
    /// Send a batch.
    Send(Trigger),
}

/// What has to happen after a batch was answered, or was not.
#[derive(Clone, Copy, Debug, PartialEq, Eq, Structural)]
pub struct Aftermath {
    /// Rebuild the connection to the receiver.
    pub rebuild: bool,
    /// The wait before the same readings are sent again.
    pub retry_in: Option<Span>,
}

/// The uploading side of the gateway.
pub struct Uploader {
    batch_size: usize,
    batch_timeout: Span,
    delivery: DeliveryStats,
    backoff: Backoff,
    uplink: Uplink,
    retry_at: Option<Moment>,
    flush_deadline: Moment,
}

impl Uploader {
    /// Readings in a full batch.
    pub closed spec fn batch(&self) -> nat {
        self.batch_size as nat
    }

    /// How long a reading may wait for a batch to fill.
    pub closed spec fn patience(&self) -> nat {
        self.batch_timeout.nanos as nat
    }

    /// What the next batch reports about the link.
    pub closed spec fn stats(&self) -> DeliveryStats {
        self.delivery
    }

    /// When the failed batch may be sent again, if one failed.
    pub closed spec fn deferred_until(&self) -> Option<Moment> {
        self.retry_at
    }

    /// When what is queued is sent, however little it is.
    pub closed spec fn deadline(&self) -> Moment {
        self.flush_deadline
    }

    /// Batches in a row that did not reach the receiver.
    pub closed spec fn run(&self) -> nat {
        self.uplink.run()
    }

    /// How often the connection was rebuilt.
    pub closed spec fn rebuilt(&self) -> nat {
        self.uplink.rebuilt()
    }

    /// The nominal wait after the next failure.
    pub closed spec fn upcoming_wait(&self) -> nat {
        self.backoff.upcoming()
    }

    /// The state of the random generator behind the jitter.
    pub closed spec fn seed(&self) -> u64 {
        self.backoff.seed()
    }

    pub closed spec fn wf(&self) -> bool {
        &&& self.batch_size >= 1
        &&& self.backoff.wf()
        &&& self.backoff.shortest() == SEND_RETRY_BASE_MILLIS * NANOS_PER_MILLI
        &&& self.backoff.ceiling() == SEND_RETRY_MAX_MILLIS * NANOS_PER_MILLI
        &&& self.uplink.wf()
    }

    /// The wait after a failure, jitter and all, is never longer than 37.5 s, so
    /// a deferral stays within the clock.
    pub proof fn lemma_waits_are_bounded(&self)
        requires
            self.wf(),
        ensures
            SEND_RETRY_BASE_MILLIS * NANOS_PER_MILLI <= self.upcoming_wait()
                <= SEND_RETRY_MAX_MILLIS * NANOS_PER_MILLI,
            4 * retry::jittered(self.upcoming_wait(), retry::xorshift(self.seed())) <= 5
                * SEND_RETRY_MAX_MILLIS * NANOS_PER_MILLI,
    {
        retry::lemma_jitter_band(self.upcoming_wait(), retry::xorshift(self.seed()));
    }

    /// Everything that a step does not touch.
    pub open spec fn same_settings(&self, other: Uploader) -> bool {
        &&& self.batch() == other.batch()
        &&& self.patience() == other.patience()
    }

    pub fn new(batch_size: usize, batch_timeout: Span, now: Moment) -> (uploader: Uploader)
        requires
            now.nanos + batch_timeout.nanos <= u128::MAX,
        ensures
            uploader.wf(),
            uploader.batch() == if batch_size >= 1 {
                batch_size
            } else {
                1
            },
            uploader.patience() == batch_timeout.nanos,
            uploader.stats() == (DeliveryStats {
                queued_readings: 0,
                last_ack_latency_ms: None,
                dropped_readings: 0,
                modbus_reconnects: 0,
            }),
            uploader.deferred_until() is None,
            uploader.deadline().nanos == now.nanos + batch_timeout.nanos,
            uploader.run() == 0,
            uploader.rebuilt() == 0,
            uploader.upcoming_wait() == SEND_RETRY_BASE_MILLIS * NANOS_PER_MILLI,
    {
        Uploader {
            batch_size: if batch_size >= 1 {
                batch_size
            } else {
                1
            },
            batch_timeout,
            delivery: DeliveryStats::default(),
            backoff: Backoff::new(
                Span::from_millis(SEND_RETRY_BASE_MILLIS),
                Span::from_millis(SEND_RETRY_MAX_MILLIS),
            ),
            uplink: Uplink::new(),
            retry_at: None,
            flush_deadline: now.after(batch_timeout),
        }
    }

    /// What a queue of this depth asks for, once no failed batch is waiting.
    pub open spec fn due(&self, depth: nat, now: Moment) -> UploadStep {
        if depth == 0 {
            UploadStep::AwaitReading
        } else if depth >= self.batch() {
            UploadStep::Send(Trigger::Size)
        } else if now.nanos < self.deadline().nanos {
            UploadStep::AwaitReadingUntil(self.deadline())
        } else {
            UploadStep::Send(Trigger::Time)
        }
    }

    /// Decides what to do next.
    pub fn next_step(&mut self, depth: usize, now: Moment) -> (step: UploadStep)
        requires
            old(self).wf(),
        ensures
            final(self).wf(),
            step == match old(self).deferred_until() {
                Some(at) => if now.nanos < at.nanos {
                    UploadStep::SleepUntil(at)
                } else {
                    old(self).due(depth as nat, now)
                },
                None => old(self).due(depth as nat, now),
            },
            final(self).deferred_until() == if step is SleepUntil {
                old(self).deferred_until()
            } else {
                None
            },
            final(self).same_settings(*old(self)),
            final(self).stats() == old(self).stats(),
            final(self).deadline() == old(self).deadline(),
            final(self).run() == old(self).run(),
            final(self).rebuilt() == old(self).rebuilt(),
            final(self).upcoming_wait() == old(self).upcoming_wait(),
            final(self).seed() == old(self).seed(),
    {
        if let Some(at) = self.retry_at {
            if now.nanos < at.nanos {
                return UploadStep::SleepUntil(at);
            }
        }
        self.retry_at = None;
        if depth == 0 {
            return UploadStep::AwaitReading;
        }
        if depth >= self.batch_size {
            return UploadStep::Send(Trigger::Size);
        }
        if now.nanos < self.flush_deadline.nanos {
            return UploadStep::AwaitReadingUntil(self.flush_deadline);
        }
        UploadStep::Send(Trigger::Time)
    }

    /// Notes that a reading arrived in an empty queue: the time trigger measures
    /// how long the oldest reading has waited.
    pub fn reading_arrived(&mut self, now: Moment)
        requires
            old(self).wf(),
            now.nanos + old(self).patience() <= u128::MAX,
        ensures
            final(self).wf(),
            final(self).deadline().nanos == now.nanos + old(self).patience(),
            final(self).same_settings(*old(self)),
            final(self).stats() == old(self).stats(),
            final(self).deferred_until() == old(self).deferred_until(),
            final(self).run() == old(self).run(),
            final(self).rebuilt() == old(self).rebuilt(),
            final(self).upcoming_wait() == old(self).upcoming_wait(),
            final(self).seed() == old(self).seed(),
    {
        self.flush_deadline = now.after(self.batch_timeout);
    }

    /// Takes the readings of the next batch, which stay queued while it is in
    /// flight, and brings what is reported with it up to date.
    pub fn lease(&mut self, spool: &Spool, reconnects: u64) -> (lease: Lease)
        requires
            old(self).wf(),
            spool@.wf(),
            spool@.pushed() <= u64::MAX,
        ensures
            final(self).wf(),
            lease.first() == spool@.head,
            lease.held() == spool@.leased(old(self).batch()),
            final(self).stats() == (DeliveryStats {
                queued_readings: spool@.readings.len() as usize,
                dropped_readings: (spool@.overflow + spool@.rejected) as u64,
                modbus_reconnects: reconnects,
                last_ack_latency_ms: old(self).stats().last_ack_latency_ms,
            }),
            final(self).same_settings(*old(self)),
            final(self).deferred_until() == old(self).deferred_until(),
            final(self).deadline() == old(self).deadline(),
            final(self).run() == old(self).run(),
            final(self).rebuilt() == old(self).rebuilt(),
            final(self).upcoming_wait() == old(self).upcoming_wait(),
            final(self).seed() == old(self).seed(),
    {
        let lease: Lease = spool.peek(self.batch_size);
        self.delivery.queued_readings = spool.depth();
        self.delivery.dropped_readings = spool.stats().dropped_total();
        self.delivery.modbus_reconnects = reconnects;
        lease
    }

    /// What the next batch reports about the link.
    pub fn delivery_stats(&self) -> (stats: DeliveryStats)
        ensures
            stats == self.stats(),
    {
        self.delivery
    }

    /// Puts the post together for a batch.
    pub fn compose(&self, lease: &Lease, link: Option<&ScionLink>) -> (post: Result<Post, Attempt>)
        ensures
            posts(
                post,
                lease.held().len(),
                batch_bytes(lease.held()),
                all_headers(self.stats(), link),
            ),
    {
        post_of(lease.len(), encode_batch(lease.all()), &self.delivery, link)
    }

    /// Notes how the attempt to send a batch went.
    pub fn attempted(&mut self, attempt: Attempt) -> (delivery: Delivery)
        requires
            old(self).wf(),
        ensures
            final(self).wf(),
            delivery == outcome_of(attempt),
            final(self).stats() == (DeliveryStats {
                last_ack_latency_ms: latency_after(
                    attempt,
                    old(self).stats().last_ack_latency_ms,
                ),
                ..old(self).stats()
            }),
            final(self).same_settings(*old(self)),
            final(self).deferred_until() == old(self).deferred_until(),
            final(self).deadline() == old(self).deadline(),
            final(self).run() == old(self).run(),
            final(self).rebuilt() == old(self).rebuilt(),
            final(self).upcoming_wait() == old(self).upcoming_wait(),
            final(self).seed() == old(self).seed(),
    {
        note_attempt(&mut self.delivery, attempt)
    }

    /// Whether every counter and every moment that a delivery can move still has
    /// room for it.
    pub fn can_conclude(&self, spool: &Spool, lease: &Lease, now: Moment) -> (can: bool)
        ensures
            can == (spool@.pushed() <= u64::MAX && lease.past() <= u64::MAX && self.rebuilt()
                < u64::MAX && now.nanos + self.patience() <= u128::MAX && now.nanos + 38
                * NANOS_PER_SEC <= u128::MAX),
    {
        let wait: u128 = 38 * NANOS_PER_SEC;
        spool.counted().is_some() && lease.counted().is_some() && self.uplink.rebuilds() < u64::MAX
            && now.nanos <= u128::MAX - self.batch_timeout.nanos && now.nanos <= u128::MAX - wait
    }

    /// Draws the consequences of a delivery.  Readings leave the queue only when
    /// the receiver acknowledged or refused them; a batch that failed is tried
    /// again, unchanged, after the backoff.
    pub fn conclude(
        &mut self,
        spool: &mut Spool,
        lease: &Lease,
        outcome: Delivery,
        now: Moment,
    ) -> (aftermath: Aftermath)
        requires
            old(self).wf(),
            old(spool)@.wf(),
            old(spool)@.pushed() <= u64::MAX,
            lease.past() <= u64::MAX,
            old(self).rebuilt() < u64::MAX,
            now.nanos + old(self).patience() <= u128::MAX,
            now.nanos + 38 * NANOS_PER_SEC <= u128::MAX,
        ensures
            final(self).wf(),
            final(spool)@.wf(),
            final(spool)@ == match outcome {
                Delivery::Accepted => old(spool)@.after_commit(lease.past()),
                Delivery::Rejected => old(spool)@.after_reject(lease.past()),
                Delivery::Failed => old(spool)@,
            },
            aftermath.rebuild == (outcome == Delivery::Failed && old(self).run() + 1
                == uplink::REBUILD_AFTER_FAILURES),
            outcome == Delivery::Failed ==> aftermath.retry_in == Some(
                Span {
                    nanos: retry::jittered(
                        old(self).upcoming_wait(),
                        retry::xorshift(old(self).seed()),
                    ) as u128,
                },
            ),
            outcome != Delivery::Failed ==> aftermath.retry_in is None,
            (final(self).run(), final(self).rebuilt()) == if outcome == Delivery::Failed {
                uplink::after_failures(old(self).run(), old(self).rebuilt(), 1)
            } else {
                (0, old(self).rebuilt())
            },
            final(self).upcoming_wait() == if outcome == Delivery::Failed {
                retry::doubled_wait(
                    old(self).upcoming_wait(),
                    (SEND_RETRY_MAX_MILLIS * NANOS_PER_MILLI) as nat,
                )
            } else {
                (SEND_RETRY_BASE_MILLIS * NANOS_PER_MILLI) as nat
            },
            final(self).seed() == if outcome == Delivery::Failed {
                retry::xorshift(old(self).seed())
            } else {
                old(self).seed()
            },
            final(self).deferred_until() == match aftermath.retry_in {
                Some(delay) => Some(Moment { nanos: (now.nanos + delay.nanos) as u128 }),
                None => old(self).deferred_until(),
            },
            final(self).deadline().nanos == if outcome == Delivery::Failed {
                old(self).deadline().nanos as nat
            } else {
                now.nanos as nat + old(self).patience()
            },
            final(self).same_settings(*old(self)),
            final(self).stats() == old(self).stats(),
    {
        match outcome {
            Delivery::Accepted => {
                self.uplink.note_reachable();
                spool.commit(lease);
                self.backoff.reset();
            },
            Delivery::Rejected => {
                self.uplink.note_reachable();
                spool.reject(lease);
                self.backoff.reset();
            },
            Delivery::Failed => {
                let rebuild: bool = self.uplink.note_unreachable();
                proof {
                    retry::lemma_jitter_band(
                        self.backoff.upcoming(),
                        retry::xorshift(self.backoff.seed()),
                    );
                }
                let delay: Span = self.backoff.next_delay();
                self.retry_at = Some(now.after(delay));
                return Aftermath { rebuild, retry_in: Some(delay) };
            },
        }
        self.flush_deadline = now.after(self.batch_timeout);
        Aftermath { rebuild: false, retry_in: None }
    }
}

/// Until a batch is answered, sending it changes nothing in the queue, and the
/// same readings are sent again: whatever is queued in the meantime, the next
/// lease of that size begins with what is left of the failed one, in order.  What
/// is not left was evicted for want of room, oldest first, and is counted.
pub proof fn lemma_a_failed_batch_is_sent_again(
    queued: crate::gateway::spool::Queued,
    later: Seq<serde_json::Value>,
    size: nat,
)
    requires
        queued.wf(),
    ensures
        ({
            let after = queued.after_pushes(later);
            let failed = queued.leased(size);
            let evicted = after.head - queued.head;
            let left = failed.len() - evicted;
            &&& after.wf()
            &&& 0 <= evicted
            &&& after.overflow == queued.overflow + evicted
            &&& queued.readings.len() + later.len() <= queued.limit ==> evicted == 0
            &&& left >= 0 ==> left <= after.leased(size).len() && after.leased(size).take(left)
                == failed.skip(evicted)
        }),
{
    let after = queued.after_pushes(later);
    let failed = queued.leased(size);
    crate::gateway::spool::lemma_pushes_keep_invariant(queued, later);
    crate::gateway::spool::lemma_pushes_keep_positions(queued, later, queued.head - 1);
    let evicted = after.head - queued.head;
    let left = failed.len() - evicted;
    if left >= 0 {
        assert forall|i: int| 0 <= i < left implies after.leased(size).take(left)[i]
            == #[trigger] failed.skip(evicted)[i] by {
            let position = after.head + i;
            crate::gateway::spool::lemma_pushes_keep_positions(queued, later, position);
            assert(after.at(position) == Some(after.readings[i]));
            assert(queued.at(position) == Some(queued.readings[evicted + i]));
        }
        assert(after.leased(size).take(left) =~= failed.skip(evicted));
    }
}

/// A status from 200 to 299 acknowledges a batch, one from 400 to 499 refuses it
/// for good, and every other one asks for another try; so does no answer.  What
/// cannot be put into a request is given up.
pub proof fn lemma_what_becomes_of_a_batch(status: u16, latency_ms: Binary32)
    ensures
        ({
            let outcome = outcome_of(Attempt::Answered { status, latency_ms });
            &&& outcome == Delivery::Accepted <==> 200 <= status <= 299
            &&& outcome == Delivery::Rejected <==> 400 <= status <= 499
            &&& outcome == meaning(status)
        }),
        outcome_of(Attempt::Unanswered) == Delivery::Failed,
        outcome_of(Attempt::Unsendable) == Delivery::Rejected,
        outcome_of(Attempt::Empty) == Delivery::Accepted,
{
}

/// The round trip that is reported is that of the last batch that was
/// acknowledged.
pub proof fn lemma_only_acknowledged_round_trips_count(
    status: u16,
    latency_ms: Binary32,
    before: Option<Binary32>,
)
    ensures
        latency_after(Attempt::Answered { status, latency_ms }, before) == if 200 <= status <= 299 {
            Some(latency_ms)
        } else {
            before
        },
        latency_after(Attempt::Unanswered, before) == before,
        latency_after(Attempt::Unsendable, before) == before,
        latency_after(Attempt::Empty, before) == before,
{
}

/// Every batch says how many readings are queued, how many were lost and how
/// often the meter was reconnected; the last round trip, the number of changes
/// of path and the path go with it as far as they are known.
#[verifier::rlimit(40)]
pub proof fn lemma_what_a_batch_is_sent_with(stats: DeliveryStats, link: Option<&ScionLink>)
    ensures
        ({
            let headers = all_headers(stats, link);
            &&& headers.len() >= 4
            &&& headers[0] == ("content-type"@, "application/json"@)
            &&& headers[1] == (
                "x-pq-queued-readings"@,
                text::decimal_digits(stats.queued_readings as nat),
            )
            &&& headers[2] == (
                "x-pq-dropped-readings"@,
                text::decimal_digits(stats.dropped_readings as nat),
            )
            &&& headers[3] == (
                "x-pq-modbus-reconnects"@,
                text::decimal_digits(stats.modbus_reconnects as nat),
            )
            &&& stats.last_ack_latency_ms matches Some(latency) ==> headers.contains(
                ("x-pq-ack-latency-ms"@, fixed_point::fixed_text(latency, 1)),
            )
            &&& link matches Some(link) ==> headers.contains(
                ("x-pq-failover-count"@, text::decimal_digits(link.failovers())),
            )
            &&& link matches Some(link) ==> (link.path() matches Some(path) ==> headers.contains(
                ("x-pq-scion-path"@, path),
            ))
            &&& headers.len() == 4 + (if stats.last_ack_latency_ms is Some {
                1int
            } else {
                0int
            }) + (match link {
                Some(link) => if link.path() is Some {
                    2int
                } else {
                    1int
                },
                None => 0int,
            })
        }),
{
    let headers = all_headers(stats, link);
    let latency = latency_headers(stats);
    let path = path_headers(link);
    if stats.last_ack_latency_ms is Some {
        assert(headers[4] == latency[0]);
    }
    if link is Some {
        assert(headers[4 + latency.len() as int] == path[0]);
        if link->0.path() is Some {
            assert(headers[4 + latency.len() as int + 1] == path[1]);
        }
    }
}

/// Headers are what their texts say.
pub proof fn lemma_header_texts(headers: Seq<(String, String)>, at: int)
    requires
        0 <= at < headers.len(),
    ensures
        header_texts(headers).len() == headers.len(),
        header_texts(headers)[at].0 == headers[at].0@,
        header_texts(headers)[at].1 == headers[at].1@,
{
}

/// A batch is posted as its bytes under its headers; one that is empty or cannot
/// be written is not.
pub proof fn lemma_what_is_posted(
    post: Result<Post, Attempt>,
    count: nat,
    body: Option<Seq<u8>>,
    headers: Seq<(Seq<char>, Seq<char>)>,
)
    requires
        posts(post, count, body, headers),
    ensures
        post is Ok <==> count > 0 && body is Some,
        post is Ok ==> post->Ok_0.body@ == body->0 && header_texts(post->Ok_0.headers@) == headers,
        count == 0 ==> post == Err::<Post, Attempt>(Attempt::Empty),
        count > 0 && body is None ==> post == Err::<Post, Attempt>(Attempt::Unsendable),
{
}

/// Tells the lines of an answer that carry a configuration.
pub open spec fn carries_a_config(line: Seq<char>) -> bool {
    line.len() >= 16 && line.take(16) == "__CONFIG_SYNC__:"@
}

/// Every line of an answer that carries a configuration is taken as one, in the
/// order they came, without its mark; all other lines are shown, in their order.
#[verifier::rlimit(40)]
pub proof fn lemma_an_answer_is_taken_apart(lines: Seq<Seq<char>>)
    ensures
        config_texts(lines) == lines.filter(|line: Seq<char>| carries_a_config(line)).map_values(
            |line: Seq<char>| line.skip(16),
        ),
        plain_lines(lines) == lines.filter(|line: Seq<char>| !carries_a_config(line)),
    decreases lines.len(),
{
    reveal(Seq::filter);
    reveal_strlit("__CONFIG_SYNC__:");
    let marked = |line: Seq<char>| carries_a_config(line);
    let cut = |line: Seq<char>| line.skip(16);
    if lines.len() > 0 {
        let fewer = lines.drop_last();
        lemma_an_answer_is_taken_apart(fewer);
        assert(text::begins_with(lines.last(), CONFIG_MARK@) == carries_a_config(lines.last()));
        if carries_a_config(lines.last()) {
            assert(fewer.filter(marked).push(lines.last()).map_values(cut) =~= fewer.filter(
                marked,
            ).map_values(cut).push(lines.last().skip(16)));
        }
    } else {
        assert(config_texts(lines) =~= lines.filter(marked).map_values(cut));
    }
}

/// Of several configurations the last one that could be read is adopted, and
/// none where none could.
pub proof fn lemma_the_last_readable_config_counts<T>(parsed: Seq<Option<T>>)
    ensures
        match latest(parsed) {
            Some(config) => exists|at: int|
                0 <= at < parsed.len() && #[trigger] parsed[at] == Some(config) && forall|i: int|
                    at < i < parsed.len() ==> (#[trigger] parsed[i]) is None,
            None => forall|i: int| 0 <= i < parsed.len() ==> (#[trigger] parsed[i]) is None,
        },
    decreases parsed.len(),
{
    if parsed.len() > 0 {
        let fewer = parsed.drop_last();
        let last = parsed.len() - 1;
        lemma_the_last_readable_config_counts(fewer);
        assert(parsed[last] == parsed.last());
        assert(forall|i: int| 0 <= i < fewer.len() ==> fewer[i] == #[trigger] parsed[i]);
        if parsed.last() is None {
            if let Some(config) = latest(fewer) {
                let at = choose|at: int|
                    0 <= at < fewer.len() && #[trigger] fewer[at] == Some(config) && forall|i: int|
                        at < i < fewer.len() ==> (#[trigger] fewer[i]) is None;
                assert(parsed[at] == Some(config));
            }
        }
    }
}

impl Uploader {
    /// A full batch is sent at once, a smaller one when its readings have waited
    /// long enough, and nothing while nothing is queued.
    pub proof fn lemma_when_a_batch_is_due(&self, depth: nat, now: Moment)
        requires
            self.wf(),
        ensures
            depth == 0 ==> self.due(depth, now) == UploadStep::AwaitReading,
            depth > 0 && depth >= self.batch() ==> self.due(depth, now) == UploadStep::Send(
                Trigger::Size,
            ),
            0 < depth < self.batch() && now.nanos >= self.deadline().nanos ==> self.due(depth, now)
                == UploadStep::Send(Trigger::Time),
            0 < depth < self.batch() && now.nanos < self.deadline().nanos ==> self.due(depth, now)
                == UploadStep::AwaitReadingUntil(self.deadline()),
    {
    }
}

/// What is shown of an answer is its plain lines in one, a space between each
/// two, after a colon; nothing is shown where there is nothing.
pub proof fn lemma_how_an_answer_is_shown(lines: Seq<Seq<char>>)
    ensures
        ({
            let display = text::joined(plain_lines(lines), " "@);
            &&& display.len() == 0 ==> shown_answer(lines) == Seq::<char>::empty()
            &&& display.len() > 0 ==> shown_answer(lines) == ": "@ + display
        }),
{
}

impl Uploader {
    /// The size of a batch and how long it may take to fill are settings.
    pub proof fn lemma_settings_are_kept(&self, other: Uploader)
        requires
            self.same_settings(other),
        ensures
            self.batch() == other.batch(),
            self.patience() == other.patience(),
    {
    }
}

/// A failed batch is tried again after half a second at first, and after half a
/// minute at most; three failures in a row rebuild the connection.
pub proof fn lemma_how_failures_are_met()
    ensures
        SEND_RETRY_BASE_MILLIS == 500,
        SEND_RETRY_MAX_MILLIS == 30_000,
        uplink::REBUILD_AFTER_FAILURES == 3,
        MAX_BODY_SIZE == 4096,
{
}

} // verus!
