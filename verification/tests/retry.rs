//! The waits between attempts.

use std::time::Duration;

use pq_meter::clock::{Moment, Span};
use pq_meter::gateway::retry::{seed_from, seed_from_clock, Backoff, XorShift64, FALLBACK_SEED};
use pq_meter::gateway::uplink::{Uplink, REBUILD_AFTER_FAILURES};

const BASE: Duration = Duration::from_millis(500);
const MAX: Duration = Duration::from_secs(30);

fn span(duration: Duration) -> Span {
    Span { nanos: duration.as_nanos() }
}

fn duration(span: Span) -> Duration {
    Duration::from_nanos(span.nanos as u64)
}

fn seeded(seed: u64) -> Backoff {
    Backoff::with_seed(span(BASE), span(MAX), seed)
}

/// Every delay stays within 25 % of the nominal one, which doubles each time.
#[test]
fn delays_double_and_stay_within_the_jitter_band() {
    let mut backoff = seeded(12345);
    let mut nominal = BASE;
    for _ in 0..8 {
        let delay = duration(backoff.next_delay());
        let low = nominal.mul_f64(0.75);
        let high = nominal.mul_f64(1.25);
        assert!(
            delay >= low && delay <= high,
            "{delay:?} outside {low:?}..={high:?}"
        );
        nominal = (nominal * 2).min(MAX);
    }
}

#[test]
fn delays_never_exceed_the_ceiling_plus_its_jitter() {
    let mut backoff = seeded(999);
    let mut longest = Duration::ZERO;
    for _ in 0..50 {
        longest = longest.max(duration(backoff.next_delay()));
    }
    assert!(longest <= MAX.mul_f64(1.25), "{longest:?} exceeds the ceiling");
    assert!(longest > MAX.mul_f64(0.5), "the ceiling was never approached");
}

#[test]
fn reset_goes_back_to_the_shortest_delay() {
    let mut backoff = seeded(7);
    for _ in 0..5 {
        backoff.next_delay();
    }
    backoff.reset();
    assert!(duration(backoff.next_delay()) <= BASE.mul_f64(1.25));
}

/// Two gateways that fail at the same moment must not retry at the same moment.
#[test]
fn different_seeds_produce_different_delays() {
    let mut one = seeded(1);
    let mut two = seeded(2);
    let differs = (0..8).any(|_| one.next_delay() != two.next_delay());
    assert!(differs, "jitter is identical across seeds");
}

#[test]
fn a_zero_seed_still_generates_a_sequence() {
    let mut rng = XorShift64::new(0);
    assert_ne!(rng.next(), 0);
    assert_ne!(rng.next(), 0);
}

#[test]
fn the_generator_shifts_and_mixes() {
    // One step from a state of one: 1 << 13 joins in, then >> 7, then << 17.
    let mut rng = XorShift64::new(1);
    let mut state: u64 = 1;
    for _ in 0..5 {
        state ^= state << 13;
        state ^= state >> 7;
        state ^= state << 17;
        assert_eq!(rng.next(), state);
    }
}

#[test]
fn a_delay_is_the_nominal_wait_times_the_drawn_factor() {
    let mut backoff = seeded(1);
    let mut rng = XorShift64::new(1);
    let factor = 750 + rng.next() % 501;
    assert_eq!(
        backoff.next_delay(),
        span(Duration::from_millis(500 * factor / 1000))
    );
    let factor = 750 + rng.next() % 501;
    assert_eq!(
        backoff.next_delay(),
        span(Duration::from_millis(1000 * factor / 1000))
    );
}

#[test]
fn an_empty_wait_becomes_a_millisecond_and_the_ceiling_never_undercuts_it() {
    let mut backoff = Backoff::with_seed(Span { nanos: 0 }, Span { nanos: 0 }, 5);
    for _ in 0..3 {
        let delay = duration(backoff.next_delay());
        assert!(delay <= Duration::from_millis(1));
    }
}

#[test]
fn the_clock_seeds_the_generator() {
    assert_eq!(seed_from(Some(5)), 5);
    assert_eq!(seed_from(Some(u128::from(u64::MAX) + 8)), 7);
    assert_eq!(seed_from(None), FALLBACK_SEED);
    // Well past the year 2001, and before the nanoseconds run over.
    assert!(seed_from_clock() > 1_000_000_000_000_000_000);
    let mut backoff = Backoff::new(span(BASE), span(MAX));
    let delay = duration(backoff.next_delay());
    assert!(delay >= BASE.mul_f64(0.75) && delay <= BASE.mul_f64(1.25));
}

fn fail(uplink: &mut Uplink, times: u32) {
    for _ in 0..times {
        uplink.note_unreachable();
    }
}

#[test]
fn a_run_of_failures_shorter_than_the_threshold_keeps_the_connection() {
    let mut uplink = Uplink::new();
    fail(&mut uplink, REBUILD_AFTER_FAILURES - 1);
    assert_eq!(uplink.rebuilds(), 0);
}

#[test]
fn enough_failures_in_a_row_rebuild_the_connection() {
    let mut uplink = Uplink::new();
    fail(&mut uplink, REBUILD_AFTER_FAILURES);
    assert_eq!(uplink.rebuilds(), 1);
}

/// A connection that is working again must not be rebuilt because of failures
/// that happened before it recovered.
#[test]
fn reaching_the_receiver_clears_the_run_of_failures() {
    let mut uplink = Uplink::new();
    fail(&mut uplink, REBUILD_AFTER_FAILURES - 1);
    uplink.note_reachable();
    assert!(!uplink.note_unreachable());
    assert_eq!(uplink.rebuilds(), 0);
}

/// A receiver that stays away is retried on a fresh connection each time, not
/// once.
#[test]
fn a_lasting_outage_keeps_rebuilding() {
    let mut uplink = Uplink::new();
    fail(&mut uplink, REBUILD_AFTER_FAILURES * 3);
    assert_eq!(uplink.rebuilds(), 3);
}

#[test]
fn spans_and_moments_add_up() {
    assert_eq!(Span::from_millis(1500), Span { nanos: 1_500_000_000 });
    assert_eq!(Span::from_secs(2), Span { nanos: 2_000_000_000 });
    assert_eq!(Span::from_millis(1500).as_millis(), 1500);
    let start = Moment { nanos: 10 };
    let later = start.after(Span { nanos: 5 });
    assert_eq!(later.since(start), Span { nanos: 5 });
    assert_eq!(start.since(later), Span { nanos: 0 });
}
