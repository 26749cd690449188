//! What the gateway can say about the link it sends over.
//!
//! Which of the available paths the packets take, how many readings are still
//! waiting and how long the last acknowledgement took are facts about this end.
//! The gateway measures them and attaches them to each batch.

use vstd::prelude::*;

use crate::binary32::Binary32;
use crate::clock::{Moment, NANOS_PER_SEC};
use crate::text;
use crate::text::{is_blank, same_text};

verus! {

/// Header names the receiver reads these from.
pub const HEADER_PATH: &'static str = "x-pq-scion-path";

pub const HEADER_QUEUED: &'static str = "x-pq-queued-readings";

pub const HEADER_ACK_LATENCY: &'static str = "x-pq-ack-latency-ms";

pub const HEADER_FAILOVERS: &'static str = "x-pq-failover-count";

pub const HEADER_DROPPED: &'static str = "x-pq-dropped-readings";

pub const HEADER_RECONNECTS: &'static str = "x-pq-modbus-reconnects";

/// How often the selected path is looked up again, in nanoseconds.
///
/// A lookup talks to the network, so it runs on its own schedule rather than on
/// every batch.
pub const PATH_REFRESH_NANOS: u128 = 5 * NANOS_PER_SEC;

/// Tracks the path in use and counts how often it changed.
pub struct ScionLink {
    current_path: Option<String>,
    failover_count: u32,
    last_refresh: Option<Moment>,
}

impl ScionLink {
    /// The path in use, as far as one was ever selected.
    pub closed spec fn path(&self) -> Option<Seq<char>> {
        match self.current_path {
            Some(path) => Some(path@),
            None => None,
        }
    }

    /// How often the path has changed.
    pub closed spec fn failovers(&self) -> nat {
        self.failover_count as nat
    }

    /// When the path was last looked up.
    pub closed spec fn refreshed(&self) -> Option<Moment> {
        self.last_refresh
    }

    pub fn new() -> (link: ScionLink)
        ensures
            link.path() is None,
            link.failovers() == 0,
            link.refreshed() is None,
    {
        ScionLink { current_path: None, failover_count: 0, last_refresh: None }
    }

    /// Whether it is time to look the path up again; if so, the next lookup is
    /// due a whole interval later.
    pub fn refresh_due(&mut self, now: Moment) -> (due: bool)
        ensures
            due == match old(self).refreshed() {
                Some(last) => now.elapsed_since(last) >= PATH_REFRESH_NANOS,
                None => true,
            },
            final(self).refreshed() == if due {
                Some(now)
            } else {
                old(self).refreshed()
            },
            final(self).path() == old(self).path(),
            final(self).failovers() == old(self).failovers(),
    {
        let due: bool = match self.last_refresh {
            Some(last) => now.since(last).nanos >= PATH_REFRESH_NANOS,
            None => true,
        };
        if due {
            self.last_refresh = Some(now);
        }
        due
    }

    /// Takes over the path that a lookup selected.  A change of path counts as
    /// a failover; the first path does not.
    pub fn select(&mut self, described: String)
        requires
            old(self).failovers() < u32::MAX,
        ensures
            final(self).path() == Some(described@),
            final(self).failovers() == old(self).failovers() + if old(self).path() is Some
                && old(self).path() != Some(described@) {
                1int
            } else {
                0int
            },
            final(self).refreshed() == old(self).refreshed(),
    {
        let changed: bool = match &self.current_path {
            Some(current) => !same_text(current.as_str(), described.as_str()),
            None => false,
        };
        if changed {
            self.failover_count = self.failover_count + 1;
        }
        self.current_path = Some(described);
    }

    pub fn current_path(&self) -> (path: Option<&str>)
        ensures
            match path {
                Some(path) => self.path() == Some(path@),
                None => self.path() is None,
            },
    {
        match &self.current_path {
            Some(path) => Some(path.as_str()),
            None => None,
        }
    }

    pub fn failover_count(&self) -> (count: u32)
        ensures
            count == self.failovers(),
    {
        self.failover_count
    }
}

/// A path through the network.
#[verifier::external_type_specification]
#[verifier::external_body]
pub struct ExScionPath(sciparse::path::ScionPath);

/// The hops a path traverses, as far as they could be written out.
pub uninterp spec fn path_hops(path: sciparse::path::ScionPath) -> Option<Seq<char>>;

/// All that is known of a path, on one line.
pub uninterp spec fn path_line(path: sciparse::path::ScionPath) -> Seq<char>;

/// Calls `ScionPath::format_interfaces` on an empty text, which writes the hops
/// of the path into it or fails.  What is written depends on the path alone.
#[verifier::external_body]
fn hops_of(path: &sciparse::path::ScionPath) -> (hops: Option<String>)
    ensures
        match hops {
            Some(hops) => path_hops(*path) == Some(hops@),
            None => path_hops(*path) is None,
        },
{
    let mut hops: String = String::new();
    path.format_interfaces(&mut hops).ok().map(|_| hops)
}

/// Calls `ScionPath::to_string`, whose text depends on the path alone and opens
/// with the word `src:`, whatever the path.
#[verifier::external_body]
fn line_of(path: &sciparse::path::ScionPath) -> (line: String)
    ensures
        line@ == path_line(*path),
        text::begins_with(line@, "src:"@),
{
    path.to_string()
}

/// How a path is shown, given its hops and its line.
pub open spec fn shown(hops: Option<Seq<char>>, line: Seq<char>) -> Seq<char> {
    match hops {
        Some(hops) => if text::only_white_space(hops) {
            line
        } else {
            hops
        },
        None => line,
    }
}

/// Shows the hops of a path, or its line where the hops could not be written out
/// or are blank.
pub fn show_path(hops: Option<String>, line: String) -> (described: String)
    ensures
        described@ == shown(
            match hops {
                Some(hops) => Some(hops@),
                None => None,
            },
            line@,
        ),
{
    match hops {
        Some(hops) => {
            if is_blank(hops.as_str()) {
                line
            } else {
                hops
            }
        },
        None => line,
    }
}

/// Renders a path as the hops it traverses.  A path never goes without a
/// description.
pub fn describe(path: &sciparse::path::ScionPath) -> (described: String)
    ensures
        described@ == shown(path_hops(*path), path_line(*path)),
        !text::only_white_space(described@),
{
    let line: String = line_of(path);
    proof {
        reveal_strlit("src:");
        assert(line@[0] == "src:"@[0]);
    }
    show_path(hops_of(path), line)
}

/// What the gateway reports about itself with each batch.
///
/// These are counters, not estimates: the queue depth includes the readings in
/// the batch itself, because they are not delivered until the receiver says so.
#[derive(Clone, Copy, Debug, PartialEq, Eq, Structural)]
pub struct DeliveryStats {
    /// Readings buffered here and not yet acknowledged by the receiver.
    pub queued_readings: usize,
    /// Round trip of the previous batch in milliseconds.
    pub last_ack_latency_ms: Option<Binary32>,
    /// Readings the gateway gave up on: evicted from a full queue, or refused.
    pub dropped_readings: u64,
    /// How often the connection to the meter had to be re-established.
    pub modbus_reconnects: u64,
}

impl Default for DeliveryStats {
    fn default() -> (stats: DeliveryStats)
        ensures
            stats == (DeliveryStats {
                queued_readings: 0,
                last_ack_latency_ms: None,
                dropped_readings: 0,
                modbus_reconnects: 0,
            }),
    {
        DeliveryStats {
            queued_readings: 0,
            last_ack_latency_ms: None,
            dropped_readings: 0,
            modbus_reconnects: 0,
        }
    }
}

/// A path is shown by its hops, unless they are unknown or blank.
pub proof fn lemma_a_path_is_shown_by_its_hops(hops: Seq<char>, line: Seq<char>)
    ensures
        shown(None, line) == line,
        (exists|i: int| 0 <= i < hops.len() && !text::white_space(#[trigger] hops[i])) ==> shown(
            Some(hops),
            line,
        ) == hops,
        (forall|i: int| 0 <= i < hops.len() ==> text::white_space(#[trigger] hops[i])) ==> shown(
            Some(hops),
            line,
        ) == line,
{
}

/// The path is looked up every five seconds.
pub proof fn lemma_how_often_the_path_is_looked_up()
    ensures
        PATH_REFRESH_NANOS == 5_000_000_000,
{
}

} // verus!
