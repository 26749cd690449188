//! Backoff for the two things on the gateway that fail and recover: the meter
//! and the link.
//!
//! Both need the same shape: wait longer after each failure, up to a ceiling,
//! and start over once something succeeds.  The wait is jittered so that a
//! fleet of gateways coming back after a shared outage does not retry in
//! lockstep.

use vstd::arithmetic::power2::*;
use vstd::prelude::*;

use crate::clock::{Span, MAX_SPAN_NANOS, NANOS_PER_MILLI};

verus! {

/// Jitter applied to every delay, as a fraction either side of the nominal
/// wait.
pub const JITTER_NUMERATOR: u64 = 250;

pub const JITTER_DENOMINATOR: u64 = 1000;

/// The seed that stands in for zero and for a clock that cannot be read.
pub const FALLBACK_SEED: u64 = 0x9e37_79b9_7f4a_7c15;

/// The state that follows `state` in the generator.
pub open spec fn xorshift(state: u64) -> u64 {
    let a = state ^ (state << 13);
    let b = a ^ (a >> 7);
    b ^ (b << 17)
}

/// A tiny non-cryptographic generator, enough to spread retries apart.
pub struct XorShift64 {
    state: u64,
}

impl XorShift64 {
    pub closed spec fn state(&self) -> u64 {
        self.state
    }

    /// Zero is the one state this generator cannot leave.
    pub open spec fn wf(&self) -> bool {
        self.state() != 0
    }

    pub fn new(seed: u64) -> (rng: XorShift64)
        ensures
            rng.wf(),
            rng.state() == if seed == 0 {
                FALLBACK_SEED
            } else {
                seed
            },
    {
        XorShift64 {
            state: if seed == 0 {
                FALLBACK_SEED
            } else {
                seed
            },
        }
    }

    pub fn next(&mut self) -> (value: u64)
        requires
            old(self).wf(),
        ensures
            final(self).wf(),
            value == xorshift(old(self).state()),
            final(self).state() == value,
    {
        let before: u64 = self.state;
        let a: u64 = before ^ (before << 13);
        let b: u64 = a ^ (a >> 7);
        self.state = b ^ (b << 17);
        proof {
            lemma_xorshift_nonzero(before);
        }
        self.state
    }
}

/// The generator never reaches zero.
pub proof fn lemma_xorshift_nonzero(state: u64)
    requires
        state != 0,
    ensures
        xorshift(state) != 0,
{
    assert(state ^ (state << 13) != 0) by (bit_vector)
        requires
            state != 0,
    ;
    let a = state ^ (state << 13);
    assert(a ^ (a >> 7) != 0) by (bit_vector)
        requires
            a != 0,
    ;
    let b = a ^ (a >> 7);
    assert(b ^ (b << 17) != 0) by (bit_vector)
        requires
            b != 0,
    ;
}

/// The nominal wait after a number of failures in a row: doubled each time, up
/// to the ceiling.
pub open spec fn nominal_wait(base: nat, max: nat, failures: nat) -> nat
    decreases failures,
{
    if failures == 0 {
        base
    } else {
        doubled_wait(nominal_wait(base, max, (failures - 1) as nat), max)
    }
}

/// The nominal wait that follows one of `nominal` nanoseconds.
pub open spec fn doubled_wait(nominal: nat, max: nat) -> nat {
    if 2 * nominal <= max {
        2 * nominal
    } else {
        max
    }
}

/// A nominal wait spread by a random number over a quarter either side, in
/// nanoseconds of whole milliseconds.
pub open spec fn jittered(nominal: nat, random: u64) -> nat {
    let whole = nominal / (NANOS_PER_MILLI as nat);
    let millis = if whole <= u64::MAX {
        whole
    } else {
        u64::MAX as nat
    };
    let factor = (JITTER_DENOMINATOR - JITTER_NUMERATOR + random as int % (2 * JITTER_NUMERATOR
        + 1)) as nat;
    let scaled = if millis * factor <= u64::MAX {
        millis * factor
    } else {
        u64::MAX as nat
    };
    (scaled / (JITTER_DENOMINATOR as nat)) * (NANOS_PER_MILLI as nat)
}

/// Exponentially increasing, jittered delays between retries.
pub struct Backoff {
    base: Span,
    max: Span,
    next: Span,
    rng: XorShift64,
}

impl Backoff {
    /// The shortest nominal wait.
    pub closed spec fn shortest(&self) -> nat {
        self.base.nanos as nat
    }

    /// The ceiling of the nominal wait.
    pub closed spec fn ceiling(&self) -> nat {
        self.max.nanos as nat
    }

    /// The nominal wait before the next attempt.
    pub closed spec fn upcoming(&self) -> nat {
        self.next.nanos as nat
    }

    /// The state of the random generator.
    pub closed spec fn seed(&self) -> u64 {
        self.rng.state()
    }

    pub open spec fn wf(&self) -> bool {
        &&& NANOS_PER_MILLI <= self.shortest() <= self.upcoming() <= self.ceiling()
        &&& self.seed() != 0
    }

    /// A backoff whose jitter is seeded from the clock.
    pub fn new(base: Span, max: Span) -> (backoff: Backoff)
        ensures
            backoff.wf(),
            backoff.shortest() == at_least(base.nanos as nat, NANOS_PER_MILLI as nat),
            backoff.ceiling() == at_least(max.nanos as nat, backoff.shortest()),
            backoff.upcoming() == backoff.shortest(),
    {
        let seed: u64 = seed_from_clock();
        Backoff::with_seed(base, max, seed)
    }

    /// A backoff with a fixed random seed.
    pub fn with_seed(base: Span, max: Span, seed: u64) -> (backoff: Backoff)
        ensures
            backoff.wf(),
            backoff.shortest() == at_least(base.nanos as nat, NANOS_PER_MILLI as nat),
            backoff.ceiling() == at_least(max.nanos as nat, backoff.shortest()),
            backoff.upcoming() == backoff.shortest(),
            backoff.seed() == if seed == 0 {
                FALLBACK_SEED
            } else {
                seed
            },
    {
        let shortest: Span = base.longest(Span::from_millis(1));
        Backoff {
            base: shortest,
            max: max.longest(shortest),
            next: shortest,
            rng: XorShift64::new(seed),
        }
    }

    /// The delay to wait before the next attempt; the attempt after waits twice
    /// as long.
    pub fn next_delay(&mut self) -> (delay: Span)
        requires
            old(self).wf(),
            2 * old(self).upcoming() <= MAX_SPAN_NANOS,
        ensures
            final(self).wf(),
            delay.nanos == jittered(old(self).upcoming(), xorshift(old(self).seed())),
            final(self).upcoming() == doubled_wait(old(self).upcoming(), old(self).ceiling()),
            final(self).seed() == xorshift(old(self).seed()),
            final(self).shortest() == old(self).shortest(),
            final(self).ceiling() == old(self).ceiling(),
    {
        let nominal: Span = self.next;
        self.next = Span { nanos: nominal.nanos * 2 }.shortest(self.max);
        self.jitter(nominal)
    }

    /// Goes back to the shortest delay, after anything succeeds.
    pub fn reset(&mut self)
        requires
            old(self).wf(),
        ensures
            final(self).wf(),
            final(self).upcoming() == old(self).shortest(),
            final(self).shortest() == old(self).shortest(),
            final(self).ceiling() == old(self).ceiling(),
            final(self).seed() == old(self).seed(),
    {
        self.next = self.base;
    }

    /// Spreads a delay over a quarter either side of its nominal value.
    fn jitter(&mut self, delay: Span) -> (spread: Span)
        requires
            old(self).wf(),
        ensures
            final(self).wf(),
            spread.nanos == jittered(delay.nanos as nat, xorshift(old(self).seed())),
            final(self).upcoming() == old(self).upcoming(),
            final(self).seed() == xorshift(old(self).seed()),
            final(self).shortest() == old(self).shortest(),
            final(self).ceiling() == old(self).ceiling(),
    {
        let whole: u128 = delay.as_millis();
        let millis: u64 = if whole <= u64::MAX as u128 {
            whole as u64
        } else {
            u64::MAX
        };
        let random: u64 = self.rng.next();
        let factor: u64 = JITTER_DENOMINATOR - JITTER_NUMERATOR + random % (2 * JITTER_NUMERATOR
            + 1);
        let scaled: u64 = match millis.checked_mul(factor) {
            Some(product) => product,
            None => u64::MAX,
        };
        Span::from_millis(scaled / JITTER_DENOMINATOR)
    }
}

/// The larger of two lengths.
pub open spec fn at_least(value: nat, floor: nat) -> nat {
    if value >= floor {
        value
    } else {
        floor
    }
}

/// The seed for a time since the epoch, if the clock could tell one: its low 64
/// bits of nanoseconds.
pub open spec fn clock_seed(elapsed: Option<u128>) -> u64 {
    match elapsed {
        Some(nanos) => (nanos % 0x1_0000_0000_0000_0000) as u64,
        None => FALLBACK_SEED,
    }
}

/// The seed for a time since the epoch, in nanoseconds.
pub fn seed_from(elapsed: Option<u128>) -> (seed: u64)
    ensures
        seed == clock_seed(elapsed),
{
    match elapsed {
        Some(nanos) => (nanos % 0x1_0000_0000_0000_0000) as u64,
        None => FALLBACK_SEED,
    }
}

/// A seed that differs from one start to the next.
pub fn seed_from_clock() -> (seed: u64)
    ensures
        exists|elapsed: Option<u128>| seed == #[trigger] clock_seed(elapsed),
{
    let elapsed: Option<u128> = time_since_epoch();
    seed_from(elapsed)
}

/// Calls `std::time::SystemTime::elapsed` on the Unix epoch: the nanoseconds
/// since then, or nothing where the clock stands before it.  The clock may say
/// anything, so nothing is claimed of the result.
#[verifier::external_body]
fn time_since_epoch() -> (elapsed: Option<u128>) {
    std::time::UNIX_EPOCH.elapsed().ok().map(|since| since.as_nanos())
}

/// The nominal wait is the shortest one doubled once per failure, until the
/// ceiling cuts it off.
pub proof fn lemma_nominal_wait_doubles(base: nat, max: nat, failures: nat)
    requires
        base <= max,
    ensures
        nominal_wait(base, max, failures) == if base * pow2(failures) <= max {
            base * pow2(failures)
        } else {
            max
        },
        base <= nominal_wait(base, max, failures) <= max,
    decreases failures,
{
    if failures == 0 {
        vstd::arithmetic::power2::lemma2_to64();
        assert(base * pow2(0) == base) by (nonlinear_arith)
            requires
                pow2(0) == 1,
        ;
    } else {
        let fewer = (failures - 1) as nat;
        lemma_nominal_wait_doubles(base, max, fewer);
        lemma_pow2_unfold(failures);
        lemma_pow2_pos(fewer);
        assert(base * pow2(failures) == 2 * (base * pow2(fewer))) by (nonlinear_arith)
            requires
                pow2(failures) == 2 * pow2(fewer),
        ;
        if base * pow2(fewer) > max {
            assert(base * pow2(failures) > max);
        }
    }
}

/// Jitter stays within a quarter of the nominal wait: never above five quarters
/// of it, and, for a wait of whole milliseconds within reach of 64-bit
/// arithmetic, never below three quarters rounded down to a millisecond.
pub proof fn lemma_jitter_band(nominal: nat, random: u64)
    ensures
        4 * jittered(nominal, random) <= 5 * nominal,
        nominal <= 0x1_0000_0000_0000 * NANOS_PER_MILLI ==> jittered(nominal, random) >= (3 * (
        nominal / (NANOS_PER_MILLI as nat)) / 4) * NANOS_PER_MILLI,
{
    let whole = nominal / (NANOS_PER_MILLI as nat);
    let millis = if whole <= u64::MAX {
        whole
    } else {
        u64::MAX as nat
    };
    let factor = (750 + random as int % 501) as nat;
    assert(750 <= factor <= 1250);
    let product = millis * factor;
    assert(750 * millis <= product <= 1250 * millis) by (nonlinear_arith)
        requires
            750 <= factor <= 1250,
            product == millis * factor,
    ;
    let scaled = if product <= u64::MAX {
        product
    } else {
        u64::MAX as nat
    };
    assert(4 * (scaled / 1000) <= 5 * millis);
    if nominal <= 0x1_0000_0000_0000 * NANOS_PER_MILLI {
        assert(whole <= 0x1_0000_0000_0000);
        assert(scaled == product);
        assert(scaled / 1000 >= 3 * millis / 4);
    }
}

/// Whatever happened before, the first delay after a reset is at most five
/// quarters of the shortest wait.
pub proof fn lemma_reset_starts_over(base: nat, max: nat, random: u64)
    requires
        base <= max,
    ensures
        4 * jittered(nominal_wait(base, max, 0), random) <= 5 * base,
{
    lemma_jitter_band(base, random);
}

/// No delay exceeds five quarters of the ceiling.
pub proof fn lemma_ceiling_holds(base: nat, max: nat, failures: nat, random: u64)
    requires
        base <= max,
    ensures
        4 * jittered(nominal_wait(base, max, failures), random) <= 5 * max,
{
    lemma_nominal_wait_doubles(base, max, failures);
    lemma_jitter_band(nominal_wait(base, max, failures), random);
}

/// A wait of whole milliseconds is spread evenly: by a thousandth for every step
/// of the random number, from three quarters of the wait to five quarters.
pub proof fn lemma_jitter_goes_by_thousandths(millis: nat, random: u64)
    requires
        millis <= 0x1_0000_0000_0000,
    ensures
        jittered(millis * 1_000_000, random) == (millis * (750 + random as nat % 501) / 1000)
            * 1_000_000,
        random as nat % 501 == 0 ==> jittered(millis * 1_000_000, random) == (millis * 3 / 4)
            * 1_000_000,
        random as nat % 501 == 500 ==> jittered(millis * 1_000_000, random) == (millis * 5 / 4)
            * 1_000_000,
{
    let factor = 750 + random as nat % 501;
    assert((millis * 1_000_000) / 1_000_000 == millis);
    assert(millis * factor <= u64::MAX) by (nonlinear_arith)
        requires
            millis <= 0x1_0000_0000_0000,
            factor <= 1250,
    ;
    assert(factor == 750 ==> millis * factor == 750 * millis) by (nonlinear_arith);
    assert(factor == 1250 ==> millis * factor == 1250 * millis) by (nonlinear_arith);
}

/// A wait is never shorter than the shortest allowed.
pub proof fn lemma_the_larger_of_two(value: nat, floor: nat)
    ensures
        at_least(value, floor) >= floor,
        at_least(value, floor) >= value,
        at_least(value, floor) == value || at_least(value, floor) == floor,
{
}

} // verus!
