//! Time as the library sees it: lengths of time, points on a monotonic clock
//! and wall-clock timestamps.

use vstd::prelude::*;

verus! {

/// Nanoseconds in a second.
pub const NANOS_PER_SEC: u128 = 1_000_000_000;

/// Nanoseconds in a millisecond.
pub const NANOS_PER_MILLI: u128 = 1_000_000;

/// The longest representable length of time: `u64::MAX` seconds and
/// 999 999 999 nanoseconds.
pub const MAX_SPAN_NANOS: u128 = 18_446_744_073_709_551_615_999_999_999;

/// A length of time.
#[derive(Clone, Copy, Debug, PartialEq, Eq, Structural)]
pub struct Span {
    pub nanos: u128,
}

impl Span {
    pub fn from_millis(millis: u64) -> (span: Span)
        ensures
            span.nanos == millis * NANOS_PER_MILLI,
    {
        Span { nanos: millis as u128 * NANOS_PER_MILLI }
    }

    pub fn from_secs(secs: u64) -> (span: Span)
        ensures
            span.nanos == secs * NANOS_PER_SEC,
    {
        Span { nanos: secs as u128 * NANOS_PER_SEC }
    }

    /// Whole milliseconds.
    pub fn as_millis(self) -> (millis: u128)
        ensures
            millis == self.nanos / NANOS_PER_MILLI,
    {
        self.nanos / NANOS_PER_MILLI
    }

    /// The longer of two spans.
    pub fn longest(self, other: Span) -> (span: Span)
        ensures
            span.nanos == if self.nanos >= other.nanos {
                self.nanos
            } else {
                other.nanos
            },
    {
        if self.nanos >= other.nanos {
            self
        } else {
            other
        }
    }

    /// The shorter of two spans.
    pub fn shortest(self, other: Span) -> (span: Span)
        ensures
            span.nanos == if self.nanos <= other.nanos {
                self.nanos
            } else {
                other.nanos
            },
    {
        if self.nanos <= other.nanos {
            self
        } else {
            other
        }
    }
}

/// A point on a clock that never runs backwards.
#[derive(Clone, Copy, Debug, PartialEq, Eq, Structural)]
pub struct Moment {
    pub nanos: u128,
}

impl Moment {
    /// The time from `earlier` until now, or none at all where `earlier` lies
    /// ahead.
    pub open spec fn elapsed_since(self, earlier: Moment) -> nat {
        if self.nanos >= earlier.nanos {
            (self.nanos - earlier.nanos) as nat
        } else {
            0
        }
    }

    pub fn since(self, earlier: Moment) -> (span: Span)
        ensures
            span.nanos == self.elapsed_since(earlier),
    {
        if self.nanos >= earlier.nanos {
            Span { nanos: self.nanos - earlier.nanos }
        } else {
            Span { nanos: 0 }
        }
    }

    /// The moment a span later.
    pub fn after(self, span: Span) -> (moment: Moment)
        requires
            self.nanos + span.nanos <= u128::MAX,
        ensures
            moment.nanos == self.nanos + span.nanos,
    {
        Moment { nanos: self.nanos + span.nanos }
    }
}

/// The first and the last second of the calendar.
pub const CALENDAR_START: i64 = -8_334_601_228_800;

pub const CALENDAR_END: i64 = 8_210_266_876_799;

/// A wall-clock time: seconds since the epoch, and nanoseconds into that
/// second.  The nanoseconds of a leap second go on past one second's worth.
#[derive(Clone, Copy, Debug, PartialEq, Eq, Structural)]
pub struct Timestamp {
    pub secs: i64,
    pub nanos: u32,
}

impl Timestamp {
    /// A time that the calendar holds.
    pub open spec fn wf(self) -> bool {
        &&& CALENDAR_START <= self.secs <= CALENDAR_END
        &&& self.nanos < 1_000_000_000 || (self.nanos < 2_000_000_000 && self.secs as int % 60
            == 59)
    }

    /// `self` is earlier than `other`.
    pub open spec fn earlier(self, other: Timestamp) -> bool {
        self.secs < other.secs || (self.secs == other.secs && self.nanos < other.nanos)
    }

    /// Milliseconds since the epoch.
    pub open spec fn millis(self) -> int {
        self.secs * 1000 + self.nanos as int / 1_000_000
    }

    /// Whole seconds since an earlier time, or none where it lies ahead.
    pub open spec fn seconds_since(self, earlier: Timestamp) -> int {
        let nanos = (self.secs - earlier.secs) * 1_000_000_000 + self.nanos - earlier.nanos;
        if nanos < 0 {
            0
        } else {
            nanos / 1_000_000_000
        }
    }

    pub fn is_before(self, other: Timestamp) -> (before: bool)
        ensures
            before == self.earlier(other),
    {
        self.secs < other.secs || (self.secs == other.secs && self.nanos < other.nanos)
    }

    /// Milliseconds since the epoch.
    pub fn to_millis(self) -> (millis: i64)
        requires
            self.wf(),
        ensures
            millis == self.millis(),
    {
        self.secs * 1000 + (self.nanos / 1_000_000) as i64
    }

    /// Whole seconds since an earlier time, or none where it lies ahead.
    pub fn whole_seconds_since(self, earlier: Timestamp) -> (seconds: i64)
        requires
            self.wf(),
            earlier.wf(),
        ensures
            seconds == self.seconds_since(earlier),
            seconds >= 0,
    {
        let nanos: i128 = (self.secs as i128 - earlier.secs as i128) * 1_000_000_000
            + self.nanos as i128 - earlier.nanos as i128;
        if nanos < 0 {
            0
        } else {
            (nanos / 1_000_000_000) as i64
        }
    }

    /// The millisecond that lies a minute earlier, or the one the time itself is
    /// in at the start of the calendar.
    pub open spec fn minute_before(self) -> Timestamp {
        Timestamp {
            secs: if self.secs - 60 >= CALENDAR_START {
                (self.secs - 60) as i64
            } else {
                self.secs
            },
            nanos: (self.nanos - self.nanos % 1_000_000) as u32,
        }
    }

    pub fn a_minute_before(self) -> (before: Timestamp)
        requires
            self.wf(),
        ensures
            before == self.minute_before(),
            before.wf(),
    {
        let secs: i64 = if self.secs - 60 >= CALENDAR_START {
            self.secs - 60
        } else {
            self.secs
        };
        Timestamp { secs, nanos: self.nanos - self.nanos % 1_000_000 }
    }
}

/// Times are totally ordered.
pub proof fn lemma_timestamps_are_ordered(a: Timestamp, b: Timestamp, c: Timestamp)
    ensures
        a.earlier(b) || b.earlier(a) || a == b,
        !(a.earlier(b) && b.earlier(a)),
        !a.earlier(a),
        a.earlier(b) && b.earlier(c) ==> a.earlier(c),
{
}

/// The RFC 3339 text of a time.
pub uninterp spec fn rfc3339_text(secs: i64, nanos: u32) -> Seq<char>;

/// The time that a text names by RFC 3339, if it names one.
pub uninterp spec fn rfc3339_time(text: Seq<char>) -> Option<(i64, u32)>;

/// Calls `chrono::DateTime::to_rfc3339` on the time in UTC.  The text depends on
/// the time alone.  Within the years of four digits, leap seconds apart,
/// reading it gives the time back.
#[verifier::external_body]
fn format_rfc3339(time: Timestamp) -> (text: String)
    requires
        time.wf(),
    ensures
        text@ == rfc3339_text(time.secs, time.nanos),
        -62_167_219_200 <= time.secs <= 253_402_300_799 && time.nanos < 1_000_000_000
            ==> rfc3339_time(text@) == Some((time.secs, time.nanos)),
{
    chrono::DateTime::from_timestamp(time.secs, time.nanos).unwrap().to_rfc3339()
}

/// Calls `chrono::DateTime::parse_from_rfc3339`.  The result depends on the text
/// alone, and is a time that the calendar holds.
#[verifier::external_body]
fn parse_rfc3339(text: &str) -> (time: Option<(i64, u32)>)
    ensures
        time == rfc3339_time(text@),
        time matches Some((secs, nanos)) ==> CALENDAR_START <= secs <= CALENDAR_END && (nanos
            < 1_000_000_000 || (nanos < 2_000_000_000 && secs as int % 60 == 59)),
{
    let parsed = chrono::DateTime::parse_from_rfc3339(text).ok();
    parsed.map(|time| (time.timestamp(), time.timestamp_subsec_nanos()))
}

/// The text of a time.
pub fn time_text(time: Timestamp) -> (text: String)
    requires
        time.wf(),
    ensures
        text@ == rfc3339_text(time.secs, time.nanos),
        -62_167_219_200 <= time.secs <= 253_402_300_799 && time.nanos < 1_000_000_000
            ==> rfc3339_time(text@) == Some((time.secs, time.nanos)),
{
    format_rfc3339(time)
}

/// The time that a text names, given the reading of the text.
pub open spec fn time_of(parsed: Option<(i64, u32)>) -> Option<Timestamp> {
    match parsed {
        Some((secs, nanos)) => Some(Timestamp { secs, nanos }),
        None => None,
    }
}

/// Reads a time.
pub fn parse_time(text: &str) -> (time: Option<Timestamp>)
    ensures
        time == time_of(rfc3339_time(text@)),
        time matches Some(time) ==> time.wf(),
{
    match parse_rfc3339(text) {
        Some((secs, nanos)) => Some(Timestamp { secs, nanos }),
        None => None,
    }
}

/// Milliseconds and whole seconds are those of the wall clock; a time that lies
/// ahead is no time ago.
pub proof fn lemma_times_are_measured_on_the_wall_clock(time: Timestamp, earlier: Timestamp)
    ensures
        ({
            let nanos = time.secs * 1_000_000_000 + time.nanos;
            let since = nanos - (earlier.secs * 1_000_000_000 + earlier.nanos);
            &&& time.millis() * 1_000_000 <= nanos < (time.millis() + 1) * 1_000_000
            &&& since >= 0 ==> time.seconds_since(earlier) * 1_000_000_000 <= since < (
            time.seconds_since(earlier) + 1) * 1_000_000_000
            &&& since < 0 ==> time.seconds_since(earlier) == 0
        }),
{
}

/// A minute before a time is sixty seconds earlier, at the start of its
/// millisecond, except where the calendar does not reach that far back.
pub proof fn lemma_a_minute_is_sixty_seconds(time: Timestamp)
    requires
        time.wf(),
        time.secs >= CALENDAR_START + 60,
    ensures
        time.minute_before().secs == time.secs - 60,
        time.minute_before().nanos <= time.nanos < time.minute_before().nanos + 1_000_000,
        time.minute_before().nanos % 1_000_000 == 0,
{
}

/// A moment lies as far behind as the clock has gone since, and one that lies
/// ahead not at all.
pub proof fn lemma_time_passes(now: Moment, earlier: Moment)
    ensures
        earlier.nanos <= now.nanos ==> now.elapsed_since(earlier) == now.nanos - earlier.nanos,
        earlier.nanos > now.nanos ==> now.elapsed_since(earlier) == 0,
{
}

/// A text that was read names the time it was read as.
pub proof fn lemma_a_parsed_time_is_kept(secs: i64, nanos: u32)
    ensures
        time_of(Some((secs, nanos))) == Some(Timestamp { secs, nanos }),
        time_of(None) == None::<Timestamp>,
{
}

/// A time is earlier than another exactly if it lies before it on the wall clock:
/// by its seconds, and within a second by its nanoseconds.
pub proof fn lemma_earlier_times_come_first(a: Timestamp, b: Timestamp)
    ensures
        a.secs < b.secs ==> a.earlier(b) && !b.earlier(a),
        a.secs == b.secs ==> (a.earlier(b) <==> a.nanos < b.nanos),
{
}

} // verus!
