//! The gateway's queue of readings that the receiver has not acknowledged yet.
//!
//! Acquisition and upload run as separate tasks, and this is the one thing they
//! share.  A reading must survive the attempt to send it: the queue hands a
//! batch to the uploader, and the readings stay queued until the receiver says
//! it has them.
//!
//! The queue is bounded.  A gateway that cannot reach the receiver for long
//! enough runs out of room and evicts the *oldest* reading, so a long outage
//! leaves a gap in the middle of the archive rather than a view frozen at the
//! moment the link went down.

use std::collections::VecDeque;

use vstd::prelude::*;

verus! {

/// A JSON value, carried through unread.
#[verifier::external_type_specification]
#[verifier::external_body]
pub struct ExJsonValue(serde_json::Value);

/// Calls `serde_json::Value::clone`, which returns an equal value.
#[verifier::external_body]
fn copy_of(value: &serde_json::Value) -> (copy: serde_json::Value)
    ensures
        copy == *value,
{
    value.clone()
}

/// A batch handed to the uploader, and the position it was taken from.
///
/// The uploader does not hold the queue while it sends, and acquisition can
/// evict the readings of this lease in the meantime.  Committing by position
/// stops the acknowledgement from removing whatever sits at the front by then.
pub struct Lease {
    /// Absolute position of the first reading in the lease.
    start: u64,
    pub readings: Vec<serde_json::Value>,
}

impl Lease {
    /// Absolute position of the first reading in the lease.
    pub closed spec fn first(&self) -> nat {
        self.start as nat
    }

    /// The readings of the lease.
    pub closed spec fn held(&self) -> Seq<serde_json::Value> {
        self.readings@
    }

    /// One past the absolute position of the last reading in the lease.
    pub open spec fn past(&self) -> nat {
        self.first() + self.held().len()
    }

    /// The readings of the lease.
    pub fn all(&self) -> (readings: &Vec<serde_json::Value>)
        ensures
            readings@ == self.held(),
    {
        &self.readings
    }

    pub fn len(&self) -> (count: usize)
        ensures
            count == self.held().len(),
    {
        self.readings.len()
    }

    pub fn is_empty(&self) -> (empty: bool)
        ensures
            empty == (self.held().len() == 0),
    {
        self.readings.len() == 0
    }

    /// One past the absolute position of the last reading in the lease, where
    /// that can still be counted.
    pub fn counted(&self) -> (end: Option<u64>)
        ensures
            match end {
                Some(end) => end == self.past(),
                None => self.past() > u64::MAX,
            },
    {
        self.start.checked_add(self.readings.len() as u64)
    }

    /// One past the absolute position of the last reading in the lease.
    fn end(&self) -> (end: u64)
        requires
            self.past() <= u64::MAX,
        ensures
            end == self.past(),
    {
        self.start + self.readings.len() as u64
    }
}

/// Readings the gateway gave up on, by reason.
#[derive(Clone, Copy, Debug, PartialEq, Eq, Structural)]
pub struct SpoolStats {
    /// Evicted to make room, because the receiver was unreachable for too long.
    pub dropped_overflow: u64,
    /// Refused by the receiver.
    pub dropped_rejected: u64,
}

impl Default for SpoolStats {
    fn default() -> (stats: SpoolStats)
        ensures
            stats == (SpoolStats { dropped_overflow: 0, dropped_rejected: 0 }),
    {
        SpoolStats { dropped_overflow: 0, dropped_rejected: 0 }
    }
}

impl SpoolStats {
    pub fn dropped_total(&self) -> (total: u64)
        requires
            self.dropped_overflow + self.dropped_rejected <= u64::MAX,
        ensures
            total == self.dropped_overflow + self.dropped_rejected,
    {
        self.dropped_overflow + self.dropped_rejected
    }
}

/// What a spool holds: the readings in order, the absolute position of the
/// first of them, and what was lost.
#[verifier::ext_equal]
pub struct Queued {
    pub readings: Seq<serde_json::Value>,
    /// Readings that have left the queue, for whatever reason.
    pub head: nat,
    /// The most readings held at once.
    pub limit: nat,
    pub overflow: nat,
    pub rejected: nat,
}

impl Queued {
    pub open spec fn wf(self) -> bool {
        &&& self.limit >= 1
        &&& self.readings.len() <= self.limit
        &&& self.overflow + self.rejected <= self.head
    }

    /// Every reading ever queued.
    pub open spec fn pushed(self) -> nat {
        self.head + self.readings.len()
    }

    /// Readings that left because the receiver acknowledged them.
    pub open spec fn acknowledged(self) -> int {
        self.head - self.overflow - self.rejected
    }

    /// The reading at an absolute position, while it is queued.
    pub open spec fn at(self, position: int) -> Option<serde_json::Value> {
        if self.head <= position < self.pushed() {
            Some(self.readings[position - self.head])
        } else {
            None
        }
    }

    /// The readings at the front, so many of them.
    pub open spec fn leased(self, size: nat) -> Seq<serde_json::Value> {
        self.readings.take(
            if size <= self.readings.len() {
                size as int
            } else {
                self.readings.len() as int
            },
        )
    }

    pub open spec fn after_push(self, reading: serde_json::Value) -> Queued {
        if self.readings.len() < self.limit {
            Queued { readings: self.readings.push(reading), ..self }
        } else {
            Queued {
                readings: self.readings.drop_first().push(reading),
                head: self.head + 1,
                overflow: self.overflow + 1,
                ..self
            }
        }
    }

    /// How many queued readings stand before an absolute position.
    pub open spec fn before(self, end: nat) -> nat {
        if end <= self.head {
            0
        } else if end >= self.pushed() {
            self.readings.len()
        } else {
            (end - self.head) as nat
        }
    }

    pub open spec fn after_commit(self, end: nat) -> Queued {
        Queued {
            readings: self.readings.skip(self.before(end) as int),
            head: self.head + self.before(end),
            ..self
        }
    }

    pub open spec fn after_reject(self, end: nat) -> Queued {
        Queued { rejected: self.rejected + self.before(end), ..self.after_commit(end) }
    }

    /// Several readings queued one after another.
    pub open spec fn after_pushes(self, readings: Seq<serde_json::Value>) -> Queued
        decreases readings.len(),
    {
        if readings.len() == 0 {
            self
        } else {
            self.after_pushes(readings.drop_last()).after_push(readings.last())
        }
    }
}

/// A bounded, in-order queue of readings awaiting acknowledgement.
pub struct Spool {
    queue: VecDeque<serde_json::Value>,
    /// Absolute position of the front of the queue, counting every reading ever
    /// pushed.
    head: u64,
    capacity: usize,
    stats: SpoolStats,
}

impl View for Spool {
    type V = Queued;

    closed spec fn view(&self) -> Queued {
        Queued {
            readings: self.queue@,
            head: self.head as nat,
            limit: self.capacity as nat,
            overflow: self.stats.dropped_overflow as nat,
            rejected: self.stats.dropped_rejected as nat,
        }
    }
}

impl Spool {
    pub fn new(capacity: usize) -> (spool: Spool)
        ensures
            spool@.wf(),
            spool@.readings == Seq::<serde_json::Value>::empty(),
            spool@.head == 0,
            spool@.overflow == 0,
            spool@.rejected == 0,
            spool@.limit == if capacity >= 1 {
                capacity
            } else {
                1
            },
    {
        let capacity: usize = if capacity >= 1 {
            capacity
        } else {
            1
        };
        let reserved: usize = if capacity <= 1024 {
            capacity
        } else {
            1024
        };
        Spool {
            queue: VecDeque::with_capacity(reserved),
            head: 0,
            capacity,
            stats: SpoolStats { dropped_overflow: 0, dropped_rejected: 0 },
        }
    }

    /// How many readings were ever queued, where that can still be counted.
    pub fn counted(&self) -> (count: Option<u64>)
        ensures
            match count {
                Some(count) => count == self@.pushed(),
                None => self@.pushed() > u64::MAX,
            },
    {
        self.head.checked_add(self.queue.len() as u64)
    }

    /// Queues a reading, evicting the oldest one if there is no room.
    pub fn push(&mut self, reading: serde_json::Value)
        requires
            old(self)@.wf(),
            old(self)@.pushed() < u64::MAX,
        ensures
            final(self)@.wf(),
            final(self)@ == old(self)@.after_push(reading),
    {
        let ghost before = self@;
        if self.queue.len() >= self.capacity {
            let oldest = self.queue.pop_front();
            self.head = self.head + 1;
            self.stats.dropped_overflow = self.stats.dropped_overflow + 1;
            assert(self.queue@ =~= before.readings.drop_first());
        }
        self.queue.push_back(reading);
        assert(self@ =~= before.after_push(reading));
    }

    /// Takes up to `max` readings from the front without removing them.
    pub fn peek(&self, max: usize) -> (lease: Lease)
        requires
            self@.wf(),
        ensures
            lease.first() == self@.head,
            lease.held() == self@.leased(max as nat),
    {
        let count: usize = if max <= self.queue.len() {
            max
        } else {
            self.queue.len()
        };
        let mut readings: Vec<serde_json::Value> = Vec::new();
        let mut taken: usize = 0;
        while taken < count
            invariant
                taken <= count <= self.queue@.len(),
                readings@ == self.queue@.take(taken as int),
            decreases count - taken,
        {
            readings.push(copy_of(&self.queue[taken]));
            taken = taken + 1;
            assert(self.queue@.take(taken as int) =~= self.queue@.take(taken - 1).push(
                self.queue@[taken - 1],
            ));
        }
        Lease { start: self.head, readings }
    }

    /// Removes the readings of an acknowledged lease.
    pub fn commit(&mut self, lease: &Lease)
        requires
            old(self)@.wf(),
            old(self)@.pushed() <= u64::MAX,
            lease.past() <= u64::MAX,
        ensures
            final(self)@.wf(),
            final(self)@ == old(self)@.after_commit(lease.past()),
    {
        let end: u64 = lease.end();
        let removed: usize = self.remove_through(end);
    }

    /// Removes the readings of a lease the receiver refused, and counts them as
    /// lost.
    pub fn reject(&mut self, lease: &Lease)
        requires
            old(self)@.wf(),
            old(self)@.pushed() <= u64::MAX,
            lease.past() <= u64::MAX,
        ensures
            final(self)@.wf(),
            final(self)@ == old(self)@.after_reject(lease.past()),
    {
        let end: u64 = lease.end();
        let removed: usize = self.remove_through(end);
        self.stats.dropped_rejected = self.stats.dropped_rejected + removed as u64;
    }

    /// Drops everything up to an absolute position, ignoring what was evicted
    /// already.
    fn remove_through(&mut self, end: u64) -> (removed: usize)
        requires
            old(self)@.wf(),
            old(self)@.pushed() <= u64::MAX,
        ensures
            final(self)@ == old(self)@.after_commit(end as nat),
            removed == old(self)@.before(end as nat),
    {
        let ghost before = self@;
        if end <= self.head {
            assert(self@ =~= before.after_commit(end as nat));
            return 0;
        }
        let ahead: u64 = end - self.head;
        let remove: usize = if ahead <= self.queue.len() as u64 {
            ahead as usize
        } else {
            self.queue.len()
        };
        let mut removed: usize = 0;
        while removed < remove
            invariant
                removed <= remove <= before.readings.len(),
                self.queue@ == before.readings.skip(removed as int),
                self.head == before.head,
                self.capacity == before.limit,
                self.stats.dropped_overflow == before.overflow,
                self.stats.dropped_rejected == before.rejected,
            decreases remove - removed,
        {
            let front = self.queue.pop_front();
            removed = removed + 1;
            assert(self.queue@ =~= before.readings.skip(removed as int));
        }
        self.head = self.head + remove as u64;
        assert(self@ =~= before.after_commit(end as nat));
        remove
    }

    /// Readings queued here and not yet acknowledged, including any in flight.
    pub fn depth(&self) -> (depth: usize)
        ensures
            depth == self@.readings.len(),
    {
        self.queue.len()
    }

    pub fn stats(&self) -> (stats: SpoolStats)
        ensures
            stats.dropped_overflow == self@.overflow,
            stats.dropped_rejected == self@.rejected,
    {
        self.stats
    }
}

/// The queue stays within its bound, and every reading ever queued is queued
/// still, acknowledged, or counted as lost.
pub proof fn lemma_nothing_is_lost_uncounted(queued: Queued, reading: serde_json::Value, end: nat)
    requires
        queued.wf(),
    ensures
        queued.pushed() == queued.readings.len() + queued.acknowledged() + queued.overflow
            + queued.rejected,
        queued.after_push(reading).wf(),
        queued.after_push(reading).pushed() == queued.pushed() + 1,
        queued.after_push(reading).acknowledged() == queued.acknowledged(),
        queued.after_commit(end).wf(),
        queued.after_commit(end).pushed() == queued.pushed(),
        queued.after_commit(end).acknowledged() == queued.acknowledged() + queued.before(end),
        queued.after_reject(end).wf(),
        queued.after_reject(end).pushed() == queued.pushed(),
        queued.after_reject(end).acknowledged() == queued.acknowledged(),
{
}

/// Queueing a reading puts it at the next position and moves no other; only
/// when the queue is full does the oldest one leave.
pub proof fn lemma_push_keeps_positions(queued: Queued, reading: serde_json::Value, position: int)
    requires
        queued.wf(),
    ensures
        queued.after_push(reading).at(position) == if position == queued.pushed() {
            Some(reading)
        } else if queued.readings.len() == queued.limit && position == queued.head {
            None
        } else {
            queued.at(position)
        },
{
}

/// An acknowledgement removes exactly the readings before the end of its lease:
/// what came later keeps its place, whatever was evicted in the meantime.
pub proof fn lemma_commit_removes_only_the_lease(queued: Queued, end: nat, position: int)
    requires
        queued.wf(),
    ensures
        queued.after_commit(end).at(position) == if position < end {
            None
        } else {
            queued.at(position)
        },
{
}

/// While nothing is acknowledged, any number of readings queued after a lease
/// was taken leaves the remainder of the lease in place, and a commit of that
/// lease afterwards removes none of the later readings.
pub proof fn lemma_late_commit_spares_newer_readings(
    queued: Queued,
    later: Seq<serde_json::Value>,
    end: nat,
    index: int,
)
    requires
        queued.wf(),
        end <= queued.pushed(),
        0 <= index < later.len(),
    ensures
        queued.after_pushes(later).wf(),
        queued.after_pushes(later).pushed() == queued.pushed() + later.len(),
        queued.after_pushes(later).after_commit(end).at(queued.pushed() + index)
            == queued.after_pushes(later).at(queued.pushed() + index),
{
    lemma_pushes_keep_invariant(queued, later);
    lemma_commit_removes_only_the_lease(
        queued.after_pushes(later),
        end,
        queued.pushed() + index,
    );
}

/// Readings that are queued later move none of those queued before; the oldest
/// ones leave, and are counted, as far as there is no room for all of them.
pub proof fn lemma_pushes_keep_positions(
    queued: Queued,
    later: Seq<serde_json::Value>,
    position: int,
)
    requires
        queued.wf(),
        position < queued.pushed(),
    ensures
        ({
            let after = queued.after_pushes(later);
            let all = queued.readings.len() + later.len();
            let gone = if all <= queued.limit {
                0int
            } else {
                all - queued.limit
            };
            &&& after.head == queued.head + gone
            &&& after.overflow == queued.overflow + gone
            &&& after.rejected == queued.rejected
            &&& after.at(position) == if position < after.head {
                None
            } else {
                queued.at(position)
            }
        }),
    decreases later.len(),
{
    if later.len() > 0 {
        let earlier = queued.after_pushes(later.drop_last());
        lemma_pushes_keep_positions(queued, later.drop_last(), position);
        lemma_pushes_keep_invariant(queued, later.drop_last());
        lemma_push_keeps_positions(earlier, later.last(), position);
    }
}

/// Any number of readings can be queued.
pub proof fn lemma_pushes_keep_invariant(queued: Queued, later: Seq<serde_json::Value>)
    requires
        queued.wf(),
    ensures
        queued.after_pushes(later).wf(),
        queued.after_pushes(later).pushed() == queued.pushed() + later.len(),
        queued.after_pushes(later).limit == queued.limit,
    decreases later.len(),
{
    if later.len() > 0 {
        lemma_pushes_keep_invariant(queued, later.drop_last());
    }
}

/// Acknowledging a lease twice removes nothing more.
pub proof fn lemma_commit_is_idempotent(queued: Queued, end: nat)
    requires
        queued.wf(),
    ensures
        queued.after_commit(end).after_commit(end) == queued.after_commit(end),
{
    assert(queued.after_commit(end).after_commit(end) =~= queued.after_commit(end));
}

/// A reading is queued behind all others.  While there is room nothing leaves;
/// once there is none, the one in front leaves, and is counted as lost.
pub proof fn lemma_a_full_queue_sheds_its_oldest_reading(queued: Queued, reading: serde_json::Value)
    requires
        queued.wf(),
    ensures
        ({
            let after = queued.after_push(reading);
            let shed = if queued.readings.len() < queued.limit {
                0int
            } else {
                1int
            };
            &&& after.readings.len() == queued.readings.len() + 1 - shed
            &&& after.readings.last() == reading
            &&& forall|i: int|
                0 <= i < after.readings.len() - 1 ==> #[trigger] after.readings[i]
                    == queued.readings[i + shed]
            &&& after.head == queued.head + shed
            &&& after.overflow == queued.overflow + shed
            &&& after.rejected == queued.rejected
            &&& after.limit == queued.limit
        }),
{
}

/// A batch that was acknowledged or refused leaves the queue as far as it is
/// still in it, and nothing else does: the readings behind it move up in their
/// order.  What was refused is counted as lost, what was acknowledged is not.
pub proof fn lemma_an_answered_batch_leaves_the_queue(queued: Queued, end: nat)
    requires
        queued.wf(),
    ensures
        ({
            let gone = if end <= queued.head {
                0int
            } else if end >= queued.head + queued.readings.len() {
                queued.readings.len() as int
            } else {
                end - queued.head
            };
            let committed = queued.after_commit(end);
            let refused = queued.after_reject(end);
            &&& committed.readings.len() == queued.readings.len() - gone
            &&& forall|i: int|
                0 <= i < committed.readings.len() ==> #[trigger] committed.readings[i]
                    == queued.readings[i + gone]
            &&& committed.head == queued.head + gone
            &&& committed.overflow == queued.overflow
            &&& committed.rejected == queued.rejected
            &&& committed.limit == queued.limit
            &&& refused == (Queued { rejected: queued.rejected + gone as nat, ..committed })
        }),
{
}

/// A lease holds the readings at the front in their order, all of them where
/// fewer are queued than were asked for.
pub proof fn lemma_a_lease_is_the_front_of_the_queue(queued: Queued, size: nat)
    ensures
        queued.leased(size).len() == if size < queued.readings.len() {
            size
        } else {
            queued.readings.len()
        },
        forall|i: int|
            0 <= i < queued.leased(size).len() ==> #[trigger] queued.leased(size)[i]
                == queued.readings[i],
{
}

impl Lease {
    /// A lease reaches from its first reading to right behind its last.
    pub proof fn lemma_a_lease_ends_behind_its_last_reading(&self)
        ensures
            self.past() == self.first() + self.held().len(),
    {
    }
}

} // verus!
