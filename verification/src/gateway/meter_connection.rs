//! The connection to the meter, held so that losing it is not fatal.
//!
//! The meter and the gateway are separate devices on a link the gateway does
//! not control, and either can restart without the other.  A failed read is a
//! gap in the data; the connection is made again on its own schedule.

use vstd::prelude::*;

use crate::clock::{Moment, Span, NANOS_PER_MILLI, NANOS_PER_SEC};
use crate::gateway::retry;
use crate::gateway::retry::Backoff;

verus! {

/// Shortest and longest wait between attempts to reach the meter.
pub const RECONNECT_BASE_MILLIS: u64 = 100;

pub const RECONNECT_MAX_MILLIS: u64 = 5000;

/// What has to happen for the next reading.
#[derive(Clone, Copy, Debug, PartialEq, Eq, Structural)]
pub enum MeterStep {
    /// The last failure asked for a longer wait: there is no reading now.
    Wait,
    /// Connect to the meter, and read it once connected.
    Connect,
    /// Read the meter over the connection in hand.
    Read,
}

/// The state of a meter connection that re-establishes itself.
pub struct MeterConnection {
    connected: bool,
    backoff: Backoff,
    /// When the next attempt to reach the meter may be made.
    retry_at: Option<Moment>,
    /// Whether the meter has ever answered, so the first connection is not a
    /// reconnection.
    connected_before: bool,
    reconnects: u64,
}

impl MeterConnection {
    /// Whether a connection is in hand.
    pub closed spec fn connected(&self) -> bool {
        self.connected
    }

    /// When the next attempt may be made, if one failed.
    pub closed spec fn deferred_until(&self) -> Option<Moment> {
        self.retry_at
    }

    /// Whether the meter was ever reached.
    pub closed spec fn reached_before(&self) -> bool {
        self.connected_before
    }

    /// Connections made again after the first.
    pub closed spec fn reconnections(&self) -> nat {
        self.reconnects as nat
    }

    /// The nominal wait before the next attempt after a failure.
    pub closed spec fn upcoming_wait(&self) -> nat {
        self.backoff.upcoming()
    }

    /// The state of the random generator behind the jitter.
    pub closed spec fn seed(&self) -> u64 {
        self.backoff.seed()
    }

    pub closed spec fn wf(&self) -> bool {
        &&& self.backoff.wf()
        &&& self.backoff.shortest() == RECONNECT_BASE_MILLIS * NANOS_PER_MILLI
        &&& self.backoff.ceiling() == RECONNECT_MAX_MILLIS * NANOS_PER_MILLI
        &&& self.connected ==> self.connected_before
    }

    /// The wait after a failure, jitter and all, is never longer than 6.25 s, so
    /// a deferral stays within the clock.
    pub proof fn lemma_waits_are_bounded(&self)
        requires
            self.wf(),
        ensures
            RECONNECT_BASE_MILLIS * NANOS_PER_MILLI <= self.upcoming_wait() <= RECONNECT_MAX_MILLIS
                * NANOS_PER_MILLI,
            4 * retry::jittered(self.upcoming_wait(), retry::xorshift(self.seed())) <= 5
                * RECONNECT_MAX_MILLIS * NANOS_PER_MILLI,
    {
        retry::lemma_jitter_band(self.upcoming_wait(), retry::xorshift(self.seed()));
    }

    /// A connection that was never tried: connecting is deferred to the first
    /// read, so the gateway can start before the meter does.
    pub fn new() -> (meter: MeterConnection)
        ensures
            meter.wf(),
            !meter.connected(),
            meter.deferred_until() is None,
            !meter.reached_before(),
            meter.reconnections() == 0,
            meter.upcoming_wait() == RECONNECT_BASE_MILLIS * NANOS_PER_MILLI,
    {
        MeterConnection {
            connected: false,
            backoff: Backoff::new(
                Span::from_millis(RECONNECT_BASE_MILLIS),
                Span::from_millis(RECONNECT_MAX_MILLIS),
            ),
            retry_at: None,
            connected_before: false,
            reconnects: 0,
        }
    }

    /// What has to happen for the next reading.
    pub fn next_step(&mut self, now: Moment) -> (step: MeterStep)
        requires
            old(self).wf(),
        ensures
            final(self).wf(),
            step == if old(self).connected() {
                MeterStep::Read
            } else {
                match old(self).deferred_until() {
                    Some(at) => if now.nanos < at.nanos {
                        MeterStep::Wait
                    } else {
                        MeterStep::Connect
                    },
                    None => MeterStep::Connect,
                }
            },
            final(self).deferred_until() == if step == MeterStep::Connect {
                None
            } else {
                old(self).deferred_until()
            },
            final(self).connected() == old(self).connected(),
            final(self).reached_before() == old(self).reached_before(),
            final(self).reconnections() == old(self).reconnections(),
            final(self).upcoming_wait() == old(self).upcoming_wait(),
            final(self).seed() == old(self).seed(),
    {
        if self.connected {
            return MeterStep::Read;
        }
        if let Some(at) = self.retry_at {
            if now.nanos < at.nanos {
                return MeterStep::Wait;
            }
        }
        self.retry_at = None;
        MeterStep::Connect
    }

    /// Notes that the meter was reached, and says whether it had been reached
    /// before.
    pub fn connect_succeeded(&mut self) -> (again: bool)
        requires
            old(self).wf(),
            old(self).reconnections() < u64::MAX,
        ensures
            final(self).wf(),
            final(self).connected(),
            final(self).reached_before(),
            again == old(self).reached_before(),
            final(self).reconnections() == old(self).reconnections() + if again {
                1int
            } else {
                0int
            },
            final(self).deferred_until() == old(self).deferred_until(),
            final(self).upcoming_wait() == RECONNECT_BASE_MILLIS * NANOS_PER_MILLI,
            final(self).seed() == old(self).seed(),
    {
        let again: bool = self.connected_before;
        if again {
            self.reconnects = self.reconnects + 1;
        } else {
            self.connected_before = true;
        }
        self.connected = true;
        self.backoff.reset();
        again
    }

    /// Notes that the meter could not be reached.
    pub fn connect_failed(&mut self, now: Moment)
        requires
            old(self).wf(),
            !old(self).connected(),
            now.nanos + 7 * NANOS_PER_SEC <= u128::MAX,
        ensures
            final(self).wf(),
            !final(self).connected(),
            final(self).retries_after(*old(self), now),
    {
        self.schedule_retry(now);
    }

    /// Notes that a reading arrived.
    pub fn read_succeeded(&mut self)
        requires
            old(self).wf(),
        ensures
            final(self).wf(),
            final(self).upcoming_wait() == RECONNECT_BASE_MILLIS * NANOS_PER_MILLI,
            final(self).connected() == old(self).connected(),
            final(self).deferred_until() == old(self).deferred_until(),
            final(self).reached_before() == old(self).reached_before(),
            final(self).reconnections() == old(self).reconnections(),
            final(self).seed() == old(self).seed(),
    {
        self.backoff.reset();
    }

    /// Notes that a read failed.  The connection is given up: a timed-out read
    /// can still have a reply in flight, which would answer the next one.
    pub fn read_failed(&mut self, now: Moment)
        requires
            old(self).wf(),
            now.nanos + 7 * NANOS_PER_SEC <= u128::MAX,
        ensures
            final(self).wf(),
            !final(self).connected(),
            final(self).retries_after(*old(self), now),
    {
        self.connected = false;
        self.schedule_retry(now);
    }

    /// The next attempt waits for the jittered backoff, the one after for twice
    /// as long, and nothing else changed.
    pub open spec fn retries_after(&self, before: MeterConnection, now: Moment) -> bool {
        &&& self.deferred_until() == Some(
            Moment {
                nanos: (now.nanos + retry::jittered(before.upcoming_wait(), retry::xorshift(before.seed())))
                    as u128,
            },
        )
        &&& self.upcoming_wait() == retry::doubled_wait(
            before.upcoming_wait(),
            (RECONNECT_MAX_MILLIS * NANOS_PER_MILLI) as nat,
        )
        &&& self.seed() == retry::xorshift(before.seed())
        &&& self.reached_before() == before.reached_before()
        &&& self.reconnections() == before.reconnections()
    }

    fn schedule_retry(&mut self, now: Moment)
        requires
            old(self).wf(),
            now.nanos + 7 * NANOS_PER_SEC <= u128::MAX,
        ensures
            final(self).wf(),
            final(self).connected() == old(self).connected(),
            final(self).retries_after(*old(self), now),
    {
        proof {
            retry::lemma_jitter_band(self.backoff.upcoming(), retry::xorshift(self.backoff.seed()));
        }
        let delay: Span = self.backoff.next_delay();
        self.retry_at = Some(now.after(delay));
    }

    /// How often the gateway had to re-establish a connection it previously had.
    pub fn reconnects(&self) -> (reconnects: u64)
        ensures
            reconnects == self.reconnections(),
    {
        self.reconnects
    }

    /// When the next attempt may be made, if one failed.
    pub fn retry_at(&self) -> (at: Option<Moment>)
        ensures
            at == self.deferred_until(),
    {
        self.retry_at
    }
}

/// Each failure in a row doubles the wait up to five seconds, and the next
/// attempt is put off by the wait, give or take a quarter; what was counted
/// before stays counted.
pub proof fn lemma_each_failure_doubles_the_wait(
    before: MeterConnection,
    after: MeterConnection,
    now: Moment,
)
    requires
        before.wf(),
        now.nanos + 7 * NANOS_PER_SEC <= u128::MAX,
        after.retries_after(before, now),
    ensures
        after.upcoming_wait() == if 2 * before.upcoming_wait() <= 5_000_000_000 {
            2 * before.upcoming_wait()
        } else {
            5_000_000_000
        },
        after.deferred_until() is Some,
        4 * (after.deferred_until()->0.nanos - now.nanos) <= 5 * before.upcoming_wait(),
        after.deferred_until()->0.nanos - now.nanos >= (3 * (before.upcoming_wait() / 1_000_000)
            / 4) * 1_000_000,
        after.reached_before() == before.reached_before(),
        after.reconnections() == before.reconnections(),
{
    before.lemma_waits_are_bounded();
    retry::lemma_jitter_band(before.upcoming_wait(), retry::xorshift(before.seed()));
}

/// The meter is tried again after a tenth of a second at first, and after five
/// seconds at most.
pub proof fn lemma_how_soon_the_meter_is_tried_again()
    ensures
        RECONNECT_BASE_MILLIS == 100,
        RECONNECT_MAX_MILLIS == 5000,
{
}

} // verus!
