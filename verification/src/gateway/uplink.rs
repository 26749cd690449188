//! When the connection to the receiver has to be rebuilt.
//!
//! A pooled connection outlives the receiver it points at: once the receiver
//! has restarted, every request on it times out.  So after a few batches in a
//! row failed to reach the receiver, the connection is made anew.

use vstd::prelude::*;

verus! {

/// Consecutive failed batches after which the connection is rebuilt.
///
/// More than one, because a single failure is usually the network rather than
/// the pool; not many more, because until it happens nothing is delivered.
pub const REBUILD_AFTER_FAILURES: u32 = 3;

/// The run of failures on the current connection, and how often it was rebuilt.
pub struct Uplink {
    consecutive_failures: u32,
    rebuilds: u64,
}

/// The run and the rebuild count after a number of failures in a row.
pub open spec fn after_failures(run: nat, rebuilds: nat, failures: nat) -> (nat, nat)
    decreases failures,
{
    if failures == 0 {
        (run, rebuilds)
    } else {
        let (run, rebuilds) = after_failures(run, rebuilds, (failures - 1) as nat);
        if run + 1 < REBUILD_AFTER_FAILURES {
            (run + 1, rebuilds)
        } else {
            (0, rebuilds + 1)
        }
    }
}

impl Uplink {
    /// Failures since the receiver was last reached or the connection rebuilt.
    pub closed spec fn run(&self) -> nat {
        self.consecutive_failures as nat
    }

    pub closed spec fn rebuilt(&self) -> nat {
        self.rebuilds as nat
    }

    pub open spec fn wf(&self) -> bool {
        self.run() < REBUILD_AFTER_FAILURES
    }

    pub fn new() -> (uplink: Uplink)
        ensures
            uplink.wf(),
            uplink.run() == 0,
            uplink.rebuilt() == 0,
    {
        Uplink { consecutive_failures: 0, rebuilds: 0 }
    }

    /// Records that a batch was delivered, or refused for its content rather
    /// than lost: either way the connection carried it there and back.
    pub fn note_reachable(&mut self)
        ensures
            final(self).wf(),
            final(self).run() == 0,
            final(self).rebuilt() == old(self).rebuilt(),
    {
        self.consecutive_failures = 0;
    }

    /// Records that a batch never reached the receiver, and says whether the
    /// connection is to be rebuilt now.
    pub fn note_unreachable(&mut self) -> (rebuild: bool)
        requires
            old(self).wf(),
            old(self).rebuilt() < u64::MAX,
        ensures
            final(self).wf(),
            rebuild == (old(self).run() + 1 == REBUILD_AFTER_FAILURES),
            (final(self).run(), final(self).rebuilt()) == after_failures(
                old(self).run(),
                old(self).rebuilt(),
                1,
            ),
            final(self).rebuilt() == old(self).rebuilt() + if rebuild {
                1int
            } else {
                0int
            },
    {
        proof {
            reveal_with_fuel(after_failures, 2);
        }
        if self.consecutive_failures + 1 < REBUILD_AFTER_FAILURES {
            self.consecutive_failures = self.consecutive_failures + 1;
            return false;
        }
        self.consecutive_failures = 0;
        self.rebuilds = self.rebuilds + 1;
        true
    }

    /// How often the connection to the receiver had to be rebuilt.
    pub fn rebuilds(&self) -> (rebuilds: u64)
        ensures
            rebuilds == self.rebuilt(),
    {
        self.rebuilds
    }
}

/// A lasting outage rebuilds the connection once for every full run of failed
/// batches, and not before the run is full.
pub proof fn lemma_every_full_run_rebuilds(rebuilds: nat, failures: nat)
    ensures
        after_failures(0, rebuilds, failures) == (
            failures % (REBUILD_AFTER_FAILURES as nat),
            rebuilds + failures / (REBUILD_AFTER_FAILURES as nat),
        ),
    decreases failures,
{
    if failures > 0 {
        lemma_every_full_run_rebuilds(rebuilds, (failures - 1) as nat);
    }
}

} // verus!
