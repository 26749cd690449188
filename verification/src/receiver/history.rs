//! A bounded record of the recent past.

use vstd::prelude::*;
use vstd::slice::slice_subrange;

use crate::clock::Timestamp;

verus! {

/// Something that happened at a time.
pub struct HistoryEntry<T> {
    pub timestamp: Timestamp,
    pub data: T,
}

/// Entries in the order they were added, at most a given number of them.
pub struct History<T> {
    entries: Vec<HistoryEntry<T>>,
    limit: Option<usize>,
}

/// The newest entries, as many as the limit allows.
pub open spec fn newest<T>(entries: Seq<T>, limit: Option<usize>) -> Seq<T> {
    match limit {
        Some(limit) => if entries.len() <= limit {
            entries
        } else {
            entries.skip(entries.len() - limit)
        },
        None => entries,
    }
}

/// The number of entries before the first one that is not older than a time.
pub open spec fn older<T>(entries: Seq<HistoryEntry<T>>, cutoff: Timestamp) -> nat
    decreases entries.len(),
{
    if entries.len() == 0 || !entries[0].timestamp.earlier(cutoff) {
        0
    } else {
        1 + older(entries.drop_first(), cutoff)
    }
}

proof fn lemma_older<T>(entries: Seq<HistoryEntry<T>>, cutoff: Timestamp, count: nat)
    requires
        count <= entries.len(),
        forall|i: int| 0 <= i < count ==> (#[trigger] entries[i]).timestamp.earlier(cutoff),
        count < entries.len() ==> !entries[count as int].timestamp.earlier(cutoff),
    ensures
        older(entries, cutoff) == count,
    decreases entries.len(),
{
    if count > 0 {
        let rest = entries.drop_first();
        assert forall|i: int| 0 <= i < count - 1 implies (
        #[trigger] rest[i]).timestamp.earlier(cutoff) by {
            assert(rest[i] == entries[i + 1]);
        }
        lemma_older(rest, cutoff, (count - 1) as nat);
    }
}

impl<T> View for History<T> {
    type V = Seq<HistoryEntry<T>>;

    closed spec fn view(&self) -> Seq<HistoryEntry<T>> {
        self.entries@
    }
}

impl<T> History<T> {
    /// The most entries kept, if there is a limit.
    pub closed spec fn bound(&self) -> Option<usize> {
        self.limit
    }

    pub open spec fn wf(&self) -> bool {
        self.bound() matches Some(limit) ==> self@.len() <= limit
    }

    /// An empty record without a limit.
    pub fn new() -> (history: History<T>)
        ensures
            history.wf(),
            history@ == Seq::<HistoryEntry<T>>::empty(),
            history.bound() is None,
    {
        History { entries: Vec::new(), limit: None }
    }

    /// An empty record of at most `capacity` entries.
    pub fn bounded(capacity: usize) -> (history: History<T>)
        ensures
            history.wf(),
            history@ == Seq::<HistoryEntry<T>>::empty(),
            history.bound() == Some(capacity),
    {
        History { entries: Vec::new(), limit: Some(capacity) }
    }

    /// Adds an entry, dropping the oldest one where there is no room.
    pub fn push(&mut self, data: T, timestamp: Timestamp)
        requires
            old(self).wf(),
        ensures
            final(self).wf(),
            final(self).bound() == old(self).bound(),
            final(self)@ == newest(
                old(self)@.push(HistoryEntry { timestamp, data }),
                old(self).bound(),
            ),
    {
        let ghost all = self.entries@.push(HistoryEntry { timestamp, data });
        self.entries.push(HistoryEntry { timestamp, data });
        if let Some(limit) = self.limit {
            if self.entries.len() > limit {
                let oldest: HistoryEntry<T> = self.entries.remove(0);
                assert(self.entries@ =~= all.skip(all.len() - limit));
            }
        }
    }

    /// The entries from the first one that is not older than a time.
    pub fn since(&self, cutoff: Timestamp) -> (entries: &[HistoryEntry<T>])
        ensures
            entries@ == self@.skip(older(self@, cutoff) as int),
    {
        let mut from: usize = 0;
        while from < self.entries.len() && self.entries[from].timestamp.is_before(cutoff)
            invariant
                from <= self.entries@.len(),
                forall|i: int|
                    0 <= i < from ==> (#[trigger] self.entries@[i]).timestamp.earlier(cutoff),
            decreases self.entries@.len() - from,
        {
            from = from + 1;
        }
        proof {
            lemma_older(self.entries@, cutoff, from as nat);
            assert(self.entries@.subrange(from as int, self.entries@.len() as int)
                =~= self.entries@.skip(from as int));
        }
        slice_subrange(self.entries.as_slice(), from, self.entries.len())
    }

    /// Every entry, oldest first.
    pub fn all(&self) -> (entries: &[HistoryEntry<T>])
        ensures
            entries@ == self@,
    {
        self.entries.as_slice()
    }

    /// The newest entry.
    pub fn latest(&self) -> (entry: Option<&HistoryEntry<T>>)
        ensures
            match entry {
                Some(entry) => self@.len() > 0 && *entry == self@.last(),
                None => self@.len() == 0,
            },
    {
        if self.entries.len() == 0 {
            None
        } else {
            Some(&self.entries[self.entries.len() - 1])
        }
    }
}

/// Entries kept in the order of their times stay in that order, and the recent
/// part of them is exactly what is not older than the cutoff.
pub proof fn lemma_recent_entries_are_the_newest<T>(
    entries: Seq<HistoryEntry<T>>,
    cutoff: Timestamp,
    index: int,
)
    requires
        forall|i: int, j: int|
            0 <= i < j < entries.len() ==> !(#[trigger] entries[j]).timestamp.earlier(
                (#[trigger] entries[i]).timestamp,
            ),
        0 <= index < entries.len(),
    ensures
        older(entries, cutoff) <= entries.len(),
        entries[index].timestamp.earlier(cutoff) <==> index < older(entries, cutoff),
    decreases entries.len(),
{
    let rest = entries.drop_first();
    assert forall|i: int, j: int| 0 <= i < j < rest.len() implies !(
    #[trigger] rest[j]).timestamp.earlier((#[trigger] rest[i]).timestamp) by {
        assert(rest[j] == entries[j + 1]);
        assert(rest[i] == entries[i + 1]);
    }
    if entries[0].timestamp.earlier(cutoff) {
        if index > 0 {
            lemma_recent_entries_are_the_newest(rest, cutoff, index - 1);
            assert(rest[index - 1] == entries[index]);
        } else if rest.len() > 0 {
            lemma_recent_entries_are_the_newest(rest, cutoff, 0);
        }
    } else {
        crate::clock::lemma_timestamps_are_ordered(
            entries[index].timestamp,
            entries[0].timestamp,
            cutoff,
        );
        if index > 0 {
            assert(!entries[index].timestamp.earlier(entries[0].timestamp));
        }
    }
}

/// A full record drops its oldest entries, as many as there are too many, and
/// keeps the others in their order; a record without a limit drops none.
pub proof fn lemma_the_newest_entries_are_kept<T>(entries: Seq<T>, limit: usize)
    ensures
        newest(entries, None) == entries,
        newest(entries, Some(limit)).len() == if entries.len() <= limit {
            entries.len()
        } else {
            limit as nat
        },
        forall|i: int|
            0 <= i < newest(entries, Some(limit)).len() ==> #[trigger] newest(
                entries,
                Some(limit),
            )[i] == entries[entries.len() - newest(entries, Some(limit)).len() + i],
{
}

/// The entries before the recent part are all older than the cutoff, and the
/// first of the recent part is not.
pub proof fn lemma_the_recent_part_begins_at_the_cutoff<T>(
    entries: Seq<HistoryEntry<T>>,
    cutoff: Timestamp,
)
    ensures
        older(entries, cutoff) <= entries.len(),
        forall|i: int|
            0 <= i < older(entries, cutoff) ==> (#[trigger] entries[i]).timestamp.secs < cutoff.secs
                || entries[i].timestamp.secs == cutoff.secs && entries[i].timestamp.nanos
                < cutoff.nanos,
        older(entries, cutoff) < entries.len() ==> {
            let first = entries[older(entries, cutoff) as int].timestamp;
            first.secs > cutoff.secs || first.secs == cutoff.secs && first.nanos >= cutoff.nanos
        },
    decreases entries.len(),
{
    if entries.len() > 0 && entries[0].timestamp.earlier(cutoff) {
        let rest = entries.drop_first();
        lemma_the_recent_part_begins_at_the_cutoff(rest, cutoff);
        assert forall|i: int| 0 <= i < older(entries, cutoff) implies (
        #[trigger] entries[i]).timestamp.secs < cutoff.secs || entries[i].timestamp.secs
            == cutoff.secs && entries[i].timestamp.nanos < cutoff.nanos by {
            if i > 0 {
                assert(rest[i - 1] == entries[i]);
            }
        }
    }
}

} // verus!
