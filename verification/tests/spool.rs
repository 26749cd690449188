//! The queue of readings that the receiver has not acknowledged yet.

use serde_json::Value;

use pq_meter::gateway::spool::{Lease, Spool, SpoolStats};

fn reading(index: i64) -> Value {
    let mut members = serde_json::Map::new();
    members.insert("n".to_owned(), Value::from(index));
    Value::Object(members)
}

fn spool_of(capacity: usize, readings: i64) -> Spool {
    let mut spool = Spool::new(capacity);
    for index in 0..readings {
        spool.push(reading(index));
    }
    spool
}

fn values(lease: &Lease) -> Vec<i64> {
    lease
        .readings
        .iter()
        .map(|reading| reading["n"].as_i64().unwrap())
        .collect()
}

#[test]
fn peek_leaves_the_readings_queued_so_a_failed_send_loses_nothing() {
    let spool = spool_of(10, 5);
    let lease = spool.peek(3);
    assert_eq!(values(&lease), vec![0, 1, 2]);
    assert_eq!(spool.depth(), 5);
}

#[test]
fn commit_removes_exactly_the_acknowledged_prefix() {
    let mut spool = spool_of(10, 5);
    let lease = spool.peek(3);
    spool.commit(&lease);
    assert_eq!(spool.depth(), 2);
    assert_eq!(values(&spool.peek(10)), vec![3, 4]);
    assert_eq!(spool.stats(), SpoolStats::default());
}

#[test]
fn overflow_evicts_the_oldest_and_counts_it() {
    let spool = spool_of(3, 5);
    assert_eq!(spool.depth(), 3);
    assert_eq!(values(&spool.peek(10)), vec![2, 3, 4]);
    assert_eq!(spool.stats().dropped_overflow, 2);
}

#[test]
fn rejecting_a_lease_counts_the_readings_as_lost() {
    let mut spool = spool_of(10, 5);
    let lease = spool.peek(2);
    spool.reject(&lease);
    assert_eq!(spool.depth(), 3);
    assert_eq!(spool.stats().dropped_rejected, 2);
    assert_eq!(spool.stats().dropped_total(), 2);
}

/// The uploader does not hold the queue while it sends, so acquisition can evict
/// the readings it is sending. The acknowledgement must then remove nothing
/// rather than remove whatever moved to the front in the meantime.
#[test]
fn committing_a_lease_that_was_evicted_meanwhile_removes_nothing_newer() {
    let mut spool = spool_of(3, 3);
    let lease = spool.peek(3);
    assert_eq!(values(&lease), vec![0, 1, 2]);

    // The link is down and acquisition keeps going: the whole lease is evicted.
    for index in 3..6 {
        spool.push(reading(index));
    }
    assert_eq!(values(&spool.peek(10)), vec![3, 4, 5]);

    spool.commit(&lease);
    assert_eq!(values(&spool.peek(10)), vec![3, 4, 5]);
    assert_eq!(spool.depth(), 3);
}

/// The partial case: some of the lease survived the eviction, some did not.
#[test]
fn committing_a_partly_evicted_lease_removes_only_what_it_covered() {
    let mut spool = spool_of(4, 4);
    let lease = spool.peek(2);
    assert_eq!(values(&lease), vec![0, 1]);

    spool.push(reading(4));
    assert_eq!(values(&spool.peek(10)), vec![1, 2, 3, 4]);

    spool.commit(&lease);
    assert_eq!(values(&spool.peek(10)), vec![2, 3, 4]);
}

#[test]
fn a_zero_capacity_spool_still_holds_one_reading() {
    let spool = spool_of(0, 3);
    assert_eq!(spool.depth(), 1);
    assert_eq!(values(&spool.peek(10)), vec![2]);
}

/// A lease survives a failed attempt untouched, and is only removed once the
/// receiver has answered for it.
#[test]
fn a_failed_delivery_leaves_every_reading_queued_for_the_next_attempt() {
    let mut spool = spool_of(100, 5);

    let lease = spool.peek(3);
    // A failed delivery: the uploader does nothing to the queue at all.
    assert_eq!(spool.depth(), 5);

    // The retry sends the same readings, and this time they arrive.
    let retried = spool.peek(3);
    assert_eq!(retried.readings, lease.readings);
    spool.commit(&retried);
    assert_eq!(spool.depth(), 2);
    assert_eq!(spool.stats().dropped_total(), 0);
}

#[test]
fn committing_twice_removes_nothing_more() {
    let mut spool = spool_of(10, 5);
    let lease = spool.peek(2);
    spool.commit(&lease);
    spool.commit(&lease);
    assert_eq!(values(&spool.peek(10)), vec![2, 3, 4]);
    assert_eq!(lease.len(), 2);
    assert!(!lease.is_empty());
    assert!(spool.peek(0).is_empty());
}

#[test]
fn rejecting_a_partly_evicted_lease_counts_each_loss_once() {
    let mut spool = spool_of(3, 3);
    let lease = spool.peek(3);
    spool.push(reading(3));
    spool.reject(&lease);
    assert_eq!(values(&spool.peek(10)), vec![3]);
    assert_eq!(
        spool.stats(),
        SpoolStats { dropped_overflow: 1, dropped_rejected: 2 }
    );
    // Four were pushed: one is queued, three are counted as lost.
    assert_eq!(spool.depth() as u64 + spool.stats().dropped_total(), 4);
}
