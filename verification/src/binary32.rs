//! Single-precision measurement values.
//!
//! A meter register, a threshold and a reported figure are all IEEE 754
//! binary32 values.  The library carries such a value as its interchange
//! encoding and computes with integers only: comparisons go by the order of the
//! encodings, and sums, differences and quotients are the exact results rounded
//! to nearest, ties to even.

use vstd::arithmetic::power2::*;
use vstd::prelude::*;

verus! {

/// The sign bit of an encoding.
pub const SIGN_BIT: u32 = 0x8000_0000;

/// The magnitude encoding of infinity; larger magnitudes encode NaNs.
pub const INFINITE_MAGNITUDE: u32 = 0x7f80_0000;

/// One step of the biased exponent in an encoding.
pub const EXPONENT_STEP: u32 = 0x0080_0000;

/// The NaN that arithmetic produces.
pub const QUIET_NAN: u32 = 0x7fc0_0000;

/// A binary32 value, held as its interchange encoding.
#[derive(Clone, Copy, Debug, PartialEq, Eq, Structural)]
pub struct Binary32 {
    pub bits: u32,
}

/// The value of a finite magnitude encoding, counted in units of the smallest
/// positive binary32 value, 2^-149.
pub open spec fn magnitude_units(magnitude: nat) -> nat {
    if magnitude < EXPONENT_STEP {
        magnitude
    } else {
        (magnitude % (EXPONENT_STEP as nat) + EXPONENT_STEP) as nat * pow2(
            (magnitude / (EXPONENT_STEP as nat) - 1) as nat,
        )
    }
}

/// The number of low-order binary digits that do not fit the 24-bit
/// significand of `num / den`: the least `s` with `num < den * 2^(24 + s)`.
pub open spec fn excess_digits(num: nat, den: nat) -> nat
    decreases num - den,
{
    if den == 0 || num < 0x0100_0000 * den {
        0
    } else {
        1 + excess_digits(num, 2 * den)
    }
}

/// The magnitude encoding of `num / den` units, rounded to nearest with ties
/// to even; what is too large becomes infinity.
pub open spec fn nearest_magnitude(num: nat, den: nat) -> nat {
    let digits = excess_digits(num, den);
    let step = den * pow2(digits);
    let quotient = num / step;
    let up = 2 * num > (2 * quotient + 1) * step || (2 * num == (2 * quotient + 1) * step
        && quotient % 2 == 1);
    let magnitude = digits * EXPONENT_STEP + quotient + if up {
        1int
    } else {
        0int
    };
    if magnitude < INFINITE_MAGNITUDE {
        magnitude as nat
    } else {
        INFINITE_MAGNITUDE as nat
    }
}

/// The encoding with the given sign and magnitude.
pub open spec fn signed_encoding(negative: bool, magnitude: nat) -> Binary32 {
    Binary32 {
        bits: (if negative {
            SIGN_BIT + magnitude
        } else {
            magnitude as int
        }) as u32,
    }
}

impl Binary32 {
    /// The encoding without its sign bit.
    pub open spec fn magnitude(self) -> nat {
        (self.bits % SIGN_BIT) as nat
    }

    /// Whether the sign bit is set.
    pub open spec fn negative(self) -> bool {
        self.bits >= SIGN_BIT
    }

    /// Neither a NaN nor an infinity.
    pub open spec fn finite(self) -> bool {
        self.magnitude() < INFINITE_MAGNITUDE
    }

    pub open spec fn nan(self) -> bool {
        self.magnitude() > INFINITE_MAGNITUDE
    }

    /// The value of a finite encoding in units of 2^-149.
    pub open spec fn units(self) -> int {
        if self.negative() {
            -(magnitude_units(self.magnitude()) as int)
        } else {
            magnitude_units(self.magnitude()) as int
        }
    }

    /// The position of a value that is not a NaN on the line of encodings.
    /// Both zeros stand at the origin.
    pub open spec fn position(self) -> int {
        if self.negative() {
            -(self.magnitude() as int)
        } else {
            self.magnitude() as int
        }
    }

    /// The comparison `self < other`: false as soon as a NaN takes part.
    pub open spec fn below(self, other: Binary32) -> bool {
        !self.nan() && !other.nan() && self.position() < other.position()
    }

    /// The comparison `self <= other`: false as soon as a NaN takes part.
    pub open spec fn at_most(self, other: Binary32) -> bool {
        !self.nan() && !other.nan() && self.position() <= other.position()
    }

    /// The position in the total order of all encodings, NaNs and both zeros
    /// told apart.
    pub open spec fn total_position(self) -> int {
        if self.negative() {
            -(self.magnitude() as int) - 1
        } else {
            self.magnitude() as int
        }
    }

    /// The value, or zero in place of a negative value or a NaN.
    pub open spec fn floored_at_zero(self) -> Binary32 {
        if (Binary32 { bits: 0 }).below(self) {
            self
        } else {
            Binary32 { bits: 0 }
        }
    }

    /// The value without its sign.
    pub open spec fn absolute_value(self) -> Binary32 {
        signed_encoding(false, self.magnitude())
    }

    /// The value with its sign turned.
    pub open spec fn opposite(self) -> Binary32 {
        signed_encoding(!self.negative(), self.magnitude())
    }

    /// The sum, correctly rounded.  A NaN operand and the sum of opposite
    /// infinities give a NaN; an exact zero is positive unless both operands
    /// are negative.
    pub open spec fn sum(self, other: Binary32) -> Binary32 {
        if self.nan() || other.nan() {
            Binary32 { bits: QUIET_NAN }
        } else if !self.finite() {
            if !other.finite() && self.negative() != other.negative() {
                Binary32 { bits: QUIET_NAN }
            } else {
                self
            }
        } else if !other.finite() {
            other
        } else {
            let exact = self.units() + other.units();
            if exact == 0 {
                signed_encoding(self.negative() && other.negative(), 0)
            } else if exact < 0 {
                signed_encoding(true, nearest_magnitude((-exact) as nat, 1))
            } else {
                signed_encoding(false, nearest_magnitude(exact as nat, 1))
            }
        }
    }

    /// The difference, correctly rounded.
    pub open spec fn difference(self, other: Binary32) -> Binary32 {
        self.sum(other.opposite())
    }

    /// The quotient by a finite divisor that is not zero, correctly rounded.
    pub open spec fn quotient(self, divisor: Binary32) -> Binary32 {
        if self.nan() {
            Binary32 { bits: QUIET_NAN }
        } else {
            signed_encoding(
                self.negative() != divisor.negative(),
                if self.finite() {
                    nearest_magnitude(
                        magnitude_units(self.magnitude()) * pow2(149),
                        magnitude_units(divisor.magnitude()),
                    )
                } else {
                    INFINITE_MAGNITUDE as nat
                },
            )
        }
    }

    /// The binary32 value nearest to a count.
    pub open spec fn nearest_count(count: nat) -> Binary32 {
        signed_encoding(false, nearest_magnitude(count * pow2(149), 1))
    }

    /// The binary32 value nearest to an integer.
    pub open spec fn nearest_integer(number: int) -> Binary32 {
        if number < 0 {
            signed_encoding(true, nearest_magnitude((-number) as nat * pow2(149), 1))
        } else {
            Binary32::nearest_count(number as nat)
        }
    }
}


/// `digits` is the excess of `num / den`.
spec fn is_excess(num: nat, den: nat, digits: nat) -> bool {
    &&& num < 0x0100_0000 * (den * pow2(digits))
    &&& digits > 0 ==> 0x0080_0000 * (den * pow2(digits)) <= num
}

proof fn lemma_excess_unique(num: nat, den: nat, digits: nat)
    requires
        den > 0,
        is_excess(num, den, digits),
    ensures
        excess_digits(num, den) == digits,
    decreases digits,
{
    lemma_pow2_pos(digits);
    assert(pow2(0) == 1) by {
        vstd::arithmetic::power2::lemma2_to64();
    }
    if digits == 0 {
        assert(den * pow2(0) == den) by (nonlinear_arith)
            requires
                pow2(0) == 1,
        ;
    } else {
        let rest = (digits - 1) as nat;
        lemma_pow2_unfold(digits);
        lemma_pow2_pos(rest);
        assert(den * pow2(digits) == (2 * den) * pow2(rest)) by (nonlinear_arith)
            requires
                pow2(digits) == 2 * pow2(rest),
        ;
        assert((2 * den) * pow2(rest) >= 2 * den) by (nonlinear_arith)
            requires
                pow2(rest) >= 1,
        ;
        assert(num >= 0x0100_0000 * den);
        if rest > 0 {
            assert(0x0080_0000 * ((2 * den) * pow2(rest)) <= num);
        }
        lemma_excess_unique(num, 2 * den, rest);
        assert(excess_digits(num, den) == 1 + excess_digits(num, 2 * den));
    }
}

/// What fixes the rounded magnitude: the excess digits and the quotient by the
/// step they leave.
proof fn lemma_nearest(num: nat, den: nat, digits: nat, quotient: nat)
    requires
        den > 0,
        is_excess(num, den, digits),
        quotient * (den * pow2(digits)) <= num < (quotient + 1) * (den * pow2(digits)),
    ensures
        excess_digits(num, den) == digits,
        num / (den * pow2(digits)) == quotient,
        quotient < 0x0100_0000,
{
    lemma_excess_unique(num, den, digits);
    lemma_pow2_pos(digits);
    let step = (den * pow2(digits)) as int;
    assert(step > 0) by (nonlinear_arith)
        requires
            den > 0,
            pow2(digits) > 0,
            step == den * pow2(digits),
    ;
    assert(num == quotient * step + (num - quotient * step));
    assert((quotient + 1) * step == quotient * step + step) by (nonlinear_arith);
    vstd::arithmetic::div_mod::lemma_fundamental_div_mod_converse(
        num as int,
        step,
        quotient as int,
        num - quotient * step,
    );
    assert(quotient < 0x0100_0000) by (nonlinear_arith)
        requires
            quotient * step <= num,
            num < 0x0100_0000 * step,
            step > 0,
    ;
}

/// The numerator of `significand * 2^exponent` units.
spec fn scaled_num(significand: nat, exponent: int) -> nat {
    if exponent >= 0 {
        significand * pow2(exponent as nat)
    } else {
        significand
    }
}

/// The denominator of `significand * 2^exponent` units.
spec fn scaled_den(exponent: int) -> nat {
    if exponent >= 0 {
        1
    } else {
        pow2((-exponent) as nat)
    }
}

/// Comparing a scaled value with a multiple of the step `2^digits` is
/// comparing the unscaled value with that multiple of `2^(digits - exponent)`.
proof fn lemma_scaled_compare(x: nat, den: nat, exponent: int, digits: nat, shift: nat, c: nat)
    requires
        digits == exponent + shift,
    ensures
        (scaled_num(x, exponent) < c * ((den * scaled_den(exponent)) * pow2(digits))) == (x < c * (
        den * pow2(shift))),
        (scaled_num(x, exponent) == c * ((den * scaled_den(exponent)) * pow2(digits))) == (x == c
            * (den * pow2(shift))),
{
    if exponent >= 0 {
        let e = exponent as nat;
        lemma_pow2_adds(e, shift);
        lemma_pow2_pos(e);
        let a = x as int;
        let p = pow2(e) as int;
        let y = c * (den * pow2(shift));
        assert(den * 1 == den);
        assert(c * ((den * 1) * pow2(digits)) == y * p) by (nonlinear_arith)
            requires
                pow2(digits) == p * pow2(shift),
                y == c * (den * pow2(shift)),
        ;
        assert((a * p < y * p) == (a < y)) by (nonlinear_arith)
            requires
                p > 0,
        ;
        assert((a * p == y * p) == (a == y)) by (nonlinear_arith)
            requires
                p > 0,
        ;
    } else {
        let n = (-exponent) as nat;
        assert(shift == n + digits);
        lemma_pow2_adds(n, digits);
        assert((den * pow2(n)) * pow2(digits) == den * pow2(shift)) by (nonlinear_arith)
            requires
                pow2(shift) == pow2(n) * pow2(digits),
        ;
    }
}

/// Scaling by an exponent no smaller than the excess leaves a whole multiple.
proof fn lemma_scaled_exact(x: nat, exponent: nat, digits: nat)
    requires
        digits <= exponent,
    ensures
        scaled_num(x, exponent as int) == (x * pow2((exponent - digits) as nat)) * pow2(digits),
{
    lemma_pow2_adds((exponent - digits) as nat, digits);
    assert(x * pow2(exponent) == (x * pow2((exponent - digits) as nat)) * pow2(digits))
        by (nonlinear_arith)
        requires
            pow2(exponent) == pow2((exponent - digits) as nat) * pow2(digits),
    ;
}

/// 2 to the given power.
pub(crate) fn power_of_two(exponent: u32) -> (power: u128)
    requires
        exponent < 128,
    ensures
        power == pow2(exponent as nat),
{
    proof {
        vstd::arithmetic::power2::lemma2_to64();
        lemma_128();
    }
    let mut power: u128 = 1;
    let mut done: u32 = 0;
    while done < exponent
        invariant
            done <= exponent < 128,
            power == pow2(done as nat),
            pow2(128) == 0x1_0000_0000_0000_0000_0000_0000_0000_0000,
        decreases exponent - done,
    {
        proof {
            lemma_pow2_unfold((done + 1) as nat);
            if done + 1 < 128 {
                lemma_pow2_strictly_increases((done + 1) as nat, 128);
            }
        }
        power = power * 2;
        done = done + 1;
    }
    power
}

proof fn lemma_128()
    ensures
        pow2(128) == 0x1_0000_0000_0000_0000_0000_0000_0000_0000,
        pow2(100) == 0x10_0000_0000_0000_0000_0000_0000,
{
    vstd::arithmetic::power2::lemma2_to64();
    lemma_pow2_adds(64, 64);
    lemma_pow2_adds(64, 32);
    lemma_pow2_adds(96, 4);
}

/// The number of binary digits of a positive integer.
fn digit_count(x: u128) -> (count: u32)
    requires
        0 < x < 0x10_0000_0000_0000_0000_0000_0000,
    ensures
        1 <= count <= 100,
        pow2((count - 1) as nat) <= x < pow2(count as nat),
{
    proof {
        vstd::arithmetic::power2::lemma2_to64();
        lemma_128();
    }
    let mut count: u32 = 1;
    let mut power: u128 = 2;
    while power <= x
        invariant
            1 <= count <= 100,
            power == pow2(count as nat),
            pow2((count - 1) as nat) <= x,
            x < 0x10_0000_0000_0000_0000_0000_0000,
            pow2(100) == 0x10_0000_0000_0000_0000_0000_0000,
        decreases 100 - count,
    {
        proof {
            lemma_pow2_unfold((count + 1) as nat);
            if count == 100 {
                assert(false);
            }
        }
        power = power * 2;
        count = count + 1;
    }
    count
}

/// Rounding `num / den` drops `digits` digits, leaves `quotient`, and goes up.
spec fn rounds_by(num: nat, den: nat, digits: nat, quotient: nat, up: bool) -> bool {
    let step = den * pow2(digits);
    &&& excess_digits(num, den) == digits
    &&& num / step == quotient
    &&& quotient < 0x0100_0000
    &&& up == (2 * num > (2 * quotient + 1) * step || (2 * num == (2 * quotient + 1) * step
        && quotient % 2 == 1))
}

/// The excess of `x * 2^exponent` units, where `x` has `count` digits.
spec fn excess_of(count: nat, exponent: int) -> int {
    if count + exponent - 24 > 0 {
        count + exponent - 24
    } else {
        0
    }
}

/// Puts the parts of a rounded value together.
fn assemble(digits: u32, quotient: u32, up: bool, Ghost(num): Ghost<nat>, Ghost(den): Ghost<nat>)
    -> (magnitude: u32)
    requires
        digits < 2000,
        rounds_by(num, den, digits as nat, quotient as nat, up),
    ensures
        magnitude == nearest_magnitude(num, den),
        magnitude <= INFINITE_MAGNITUDE,
{
    if digits > 254 {
        return INFINITE_MAGNITUDE;
    }
    let rounded: u32 = if up {
        quotient + 1
    } else {
        quotient
    };
    let magnitude: u32 = digits * EXPONENT_STEP + rounded;
    if magnitude < INFINITE_MAGNITUDE {
        magnitude
    } else {
        INFINITE_MAGNITUDE
    }
}

/// Where nothing is dropped, the significand is only moved up.
fn round_exact(significand: u128, count: u32, exponent: i32, digits: i32) -> (quotient: u32)
    requires
        1 <= count <= 100,
        pow2((count - 1) as nat) <= significand < pow2(count as nat),
        digits == excess_of(count as nat, exponent as int),
        digits <= exponent <= 1000,
    ensures
        rounds_by(
            scaled_num(significand as nat, exponent as int),
            scaled_den(exponent as int),
            digits as nat,
            quotient as nat,
            false,
        ),
{
    let ghost num = scaled_num(significand as nat, exponent as int);
    let ghost step = pow2(digits as nat) as int;
    let power: u128 = power_of_two((exponent - digits) as u32);
    proof {
        lemma_exact_part(significand as nat, count as nat, exponent as int, digits as nat);
        lemma_scaled_exact(significand as nat, exponent as nat, digits as nat);
        let q = significand * power;
        assert(num == q * step);
        assert(1 * pow2(digits as nat) == step);
        assert(0x0100_0000 * step > q * step && (q + 1) * step > q * step && (2 * q + 1) * step > 2
            * (q * step)) by (nonlinear_arith)
            requires
                0 <= q < 0x0100_0000,
                step > 0,
        ;
        if digits > 0 {
            assert(0x0080_0000 * step <= q * step) by (nonlinear_arith)
                requires
                    0x0080_0000 <= q,
                    step > 0,
            ;
        }
        lemma_nearest(num, 1, digits as nat, q as nat);
    }
    (significand * power) as u32
}

/// Where digits are dropped, the remainder decides which way to round.
fn round_dropped(significand: u128, count: u32, exponent: i32, digits: i32) -> (parts: (u32, bool))
    requires
        1 <= count <= 100,
        pow2((count - 1) as nat) <= significand < pow2(count as nat),
        digits == excess_of(count as nat, exponent as int),
        -1000 <= exponent < digits,
    ensures
        rounds_by(
            scaled_num(significand as nat, exponent as int),
            scaled_den(exponent as int),
            digits as nat,
            parts.0 as nat,
            parts.1,
        ),
{
    let shift: i32 = digits - exponent;
    let ghost x = significand as nat;
    proof {
        lemma_128();
        if count < 100 {
            lemma_pow2_strictly_increases(count as nat, 100);
        }
        lemma_pow2_pos((count - 1) as nat);
    }
    if shift > 101 {
        proof {
            lemma_shifted_out(x, count as nat, exponent as int, digits as nat, shift as nat);
            let step = (scaled_den(exponent as int) * pow2(0)) as int;
            assert((2 * 0 + 1) * step == step) by (nonlinear_arith);
        }
        return (0, false);
    }
    let step: u128 = power_of_two(shift as u32);
    proof {
        lemma_pow2_pos(shift as nat);
        lemma_shifted_part(x, count as nat, exponent as int, digits as nat, shift as nat);
        let q = significand / step;
        vstd::arithmetic::div_mod::lemma_fundamental_div_mod(significand as int, step as int);
        assert(step * q == q * step) by (nonlinear_arith);
        assert((2 * q + 1) * step == 2 * (q * step) + step) by (nonlinear_arith);
        lemma_pow2_strictly_increases(shift as nat, 102);
        lemma_pow2_unfold(101);
        lemma_pow2_unfold(102);
    }
    let whole: u128 = significand / step;
    let rest: u128 = significand % step;
    let up: bool = 2 * rest > step || (2 * rest == step && whole % 2 == 1);
    (whole as u32, up)
}

/// Nothing rounds to nothing.
proof fn lemma_round_zero(den: nat)
    requires
        den > 0,
    ensures
        nearest_magnitude(0, den) == 0,
{
    vstd::arithmetic::power2::lemma2_to64();
    let step = (den * pow2(0)) as int;
    assert(step > 0) by (nonlinear_arith)
        requires
            den > 0,
            pow2(0) == 1,
            step == den * pow2(0),
    ;
    assert(0 * step == 0 && (0 + 1) * step == step && (2 * 0 + 1) * step == step)
        by (nonlinear_arith);
    lemma_nearest(0, den, 0, 0);
}

/// Rounds `significand * 2^exponent` units to a magnitude encoding.
fn round_scaled(significand: u128, exponent: i32) -> (magnitude: u32)
    requires
        significand < 0x10_0000_0000_0000_0000_0000_0000,
        -1000 <= exponent <= 1000,
    ensures
        magnitude == nearest_magnitude(
            scaled_num(significand as nat, exponent as int),
            scaled_den(exponent as int),
        ),
        magnitude <= INFINITE_MAGNITUDE,
{
    let ghost num = scaled_num(significand as nat, exponent as int);
    let ghost den = scaled_den(exponent as int);
    if significand == 0 {
        proof {
            if exponent < 0 {
                lemma_pow2_pos((-exponent) as nat);
            } else {
                assert(0 * pow2(exponent as nat) == 0) by (nonlinear_arith);
            }
            lemma_round_zero(den);
        }
        return 0;
    }
    let count: u32 = digit_count(significand);
    let surplus: i32 = count as i32 + exponent - 24;
    let digits: i32 = if surplus > 0 {
        surplus
    } else {
        0
    };
    let (quotient, up): (u32, bool) = if digits <= exponent {
        (round_exact(significand, count, exponent, digits), false)
    } else {
        round_dropped(significand, count, exponent, digits)
    };
    assemble(digits as u32, quotient, up, Ghost(num), Ghost(den))
}

/// Where nothing is dropped, the whole significand is the quotient.
proof fn lemma_exact_part(x: nat, count: nat, exponent: int, digits: nat)
    requires
        1 <= count <= 100,
        pow2((count - 1) as nat) <= x < pow2(count),
        digits == if count + exponent - 24 > 0 {
            count + exponent - 24
        } else {
            0
        },
        digits <= exponent,
    ensures
        x * pow2((exponent - digits) as nat) < 0x0100_0000,
        digits > 0 ==> 0x0080_0000 <= x * pow2((exponent - digits) as nat),
        pow2(digits) > 0,
{
    let up = (exponent - digits) as nat;
    lemma_pow2_pos(digits);
    lemma_pow2_pos(up);
    vstd::arithmetic::power2::lemma2_to64();
    assert(count + up <= 24);
    lemma_pow2_adds(count, up);
    if count + up < 24 {
        lemma_pow2_strictly_increases(count + up, 24);
    }
    assert(x * pow2(up) < pow2(count) * pow2(up)) by (nonlinear_arith)
        requires
            x < pow2(count),
            pow2(up) > 0,
    ;
    if digits > 0 {
        assert(count + up == 24);
        lemma_pow2_adds((count - 1) as nat, up);
        assert(pow2((count - 1) as nat) * pow2(up) <= x * pow2(up)) by (nonlinear_arith)
            requires
                pow2((count - 1) as nat) <= x,
        ;
    }
}

/// A value far below half a unit rounds to zero.
proof fn lemma_shifted_out(x: nat, count: nat, exponent: int, digits: nat, shift: nat)
    requires
        0 < x < pow2(100),
        1 <= count <= 100,
        digits == if count + exponent - 24 > 0 {
            count + exponent - 24
        } else {
            0
        },
        digits == exponent + shift,
        shift > 101,
    ensures
        digits == 0,
        excess_digits(scaled_num(x, exponent), scaled_den(exponent)) == 0,
        scaled_num(x, exponent) / (scaled_den(exponent) * pow2(0)) == 0,
        2 * scaled_num(x, exponent) < scaled_den(exponent) * pow2(0),
{
    assert(digits == 0);
    let num = scaled_num(x, exponent);
    let den = scaled_den(exponent);
    vstd::arithmetic::power2::lemma2_to64();
    lemma_pow2_unfold(101);
    lemma_pow2_strictly_increases(101, shift);
    assert(exponent < 0);
    assert(num == x);
    assert(den == pow2(shift));
    assert(2 * num < den);
    assert(den * pow2(0) == den) by (nonlinear_arith)
        requires
            pow2(0) == 1,
    ;
    assert(is_excess(num, den, 0));
    assert((0 + 1) * (den * pow2(0)) == den) by (nonlinear_arith)
        requires
            den * pow2(0) == den,
    ;
    lemma_nearest(num, den, 0, 0);
}

/// Where digits are dropped, rounding goes by the quotient and the remainder.
proof fn lemma_shifted_part(x: nat, count: nat, exponent: int, digits: nat, shift: nat)
    requires
        1 <= count <= 100,
        pow2((count - 1) as nat) <= x < pow2(count),
        digits == if count + exponent - 24 > 0 {
            count + exponent - 24
        } else {
            0
        },
        digits == exponent + shift,
        shift > 0,
    ensures
        excess_digits(scaled_num(x, exponent), scaled_den(exponent)) == digits,
        scaled_num(x, exponent) / (scaled_den(exponent) * pow2(digits)) == x / pow2(shift),
        x / pow2(shift) < 0x0100_0000,
        (2 * scaled_num(x, exponent) > (2 * (x / pow2(shift)) + 1) * (scaled_den(exponent) * pow2(
            digits,
        ))) == (2 * x > (2 * (x / pow2(shift)) + 1) * pow2(shift)),
        (2 * scaled_num(x, exponent) == (2 * (x / pow2(shift)) + 1) * (scaled_den(exponent) * pow2(
            digits,
        ))) == (2 * x == (2 * (x / pow2(shift)) + 1) * pow2(shift)),
{
    lemma_rounding_data(x, 1, count, exponent, digits, shift);
    assert(1 * pow2(shift) == pow2(shift));
    assert(1 * scaled_den(exponent) == scaled_den(exponent));
}

/// The same for a ratio `x / den` before scaling.
proof fn lemma_rounding_data(x: nat, den: nat, count: nat, exponent: int, digits: nat, shift: nat)
    requires
        den > 0,
        count >= 1,
        den * pow2((count - 1) as nat) <= x < den * pow2(count),
        digits == if count + exponent - 24 > 0 {
            count + exponent - 24
        } else {
            0
        },
        digits == exponent + shift,
        shift > 0,
    ensures
        excess_digits(scaled_num(x, exponent), den * scaled_den(exponent)) == digits,
        scaled_num(x, exponent) / ((den * scaled_den(exponent)) * pow2(digits)) == x / (den * pow2(
            shift,
        )),
        x / (den * pow2(shift)) < 0x0100_0000,
        (2 * scaled_num(x, exponent) > (2 * (x / (den * pow2(shift))) + 1) * ((den * scaled_den(
            exponent,
        )) * pow2(digits))) == (2 * x > (2 * (x / (den * pow2(shift))) + 1) * (den * pow2(shift))),
        (2 * scaled_num(x, exponent) == (2 * (x / (den * pow2(shift))) + 1) * ((den * scaled_den(
            exponent,
        )) * pow2(digits))) == (2 * x == (2 * (x / (den * pow2(shift))) + 1) * (den * pow2(shift))),
{
    let num = scaled_num(x, exponent);
    let full = den * scaled_den(exponent);
    let step = (den * pow2(shift)) as int;
    let q = x / (step as nat);
    vstd::arithmetic::power2::lemma2_to64();
    lemma_pow2_pos(shift);
    assert(step > 0) by (nonlinear_arith)
        requires
            den > 0,
            pow2(shift) > 0,
            step == den * pow2(shift),
    ;
    if exponent < 0 {
        lemma_pow2_pos((-exponent) as nat);
    }
    assert(full > 0) by (nonlinear_arith)
        requires
            den > 0,
            scaled_den(exponent) > 0,
            full == den * scaled_den(exponent),
    ;
    // The excess.
    lemma_scaled_compare(x, den, exponent, digits, shift, 0x0100_0000);
    lemma_scaled_compare(x, den, exponent, digits, shift, 0x0080_0000);
    assert(count <= 24 + shift);
    lemma_pow2_adds(24, shift);
    if count < 24 + shift {
        lemma_pow2_strictly_increases(count, 24 + shift);
    }
    assert(den * pow2(count) <= 0x0100_0000 * step) by (nonlinear_arith)
        requires
            pow2(count) <= 0x0100_0000 * pow2(shift),
            step == den * pow2(shift),
    ;
    if digits > 0 {
        assert(count - 1 == 23 + shift);
        lemma_pow2_adds(23, shift);
        assert(den * pow2((count - 1) as nat) == 0x0080_0000 * step) by (nonlinear_arith)
            requires
                pow2((count - 1) as nat) == 0x0080_0000 * pow2(shift),
                step == den * pow2(shift),
        ;
    }
    assert(is_excess(num, full, digits));
    // The quotient.
    vstd::arithmetic::div_mod::lemma_fundamental_div_mod(x as int, step);
    assert(step * q == q * step) by (nonlinear_arith);
    assert((q + 1) * step == q * step + step) by (nonlinear_arith);
    lemma_scaled_compare(x, den, exponent, digits, shift, q);
    lemma_scaled_compare(x, den, exponent, digits, shift, (q + 1) as nat);
    lemma_nearest(num, full, digits, q);
    // The halfway point.
    lemma_scaled_compare(2 * x, den, exponent, digits, shift, (2 * q + 1) as nat);
    assert(scaled_num(2 * x, exponent) == 2 * num) by {
        if exponent >= 0 {
            assert((2 * x) * pow2(exponent as nat) == 2 * (x * pow2(exponent as nat)))
                by (nonlinear_arith);
        }
    }
}


/// A common factor does not change the rounded magnitude.
proof fn lemma_common_factor(num: nat, den: nat, k: nat)
    requires
        den > 0,
        k > 0,
    ensures
        nearest_magnitude(num * k, den * k) == nearest_magnitude(num, den),
{
    lemma_excess_common_factor(num, den, k);
    let digits = excess_digits(num, den);
    lemma_pow2_pos(digits);
    let step = (den * pow2(digits)) as int;
    let wide = ((den * k) * pow2(digits)) as int;
    assert(wide == step * k) by (nonlinear_arith)
        requires
            step == den * pow2(digits),
            wide == (den * k) * pow2(digits),
    ;
    assert(step > 0) by (nonlinear_arith)
        requires
            den > 0,
            pow2(digits) > 0,
            step == den * pow2(digits),
    ;
    let q = num as int / step;
    let r = num as int % step;
    vstd::arithmetic::div_mod::lemma_fundamental_div_mod(num as int, step);
    assert(num * k == q * wide + r * k) by (nonlinear_arith)
        requires
            num == step * q + r,
            wide == step * k,
    ;
    assert(0 <= r * k < wide) by (nonlinear_arith)
        requires
            0 <= r < step,
            k > 0,
            wide == step * k,
    ;
    vstd::arithmetic::div_mod::lemma_fundamental_div_mod_converse(
        (num * k) as int,
        wide,
        q,
        r * k,
    );
    let half = (2 * q + 1) * step;
    assert((2 * q + 1) * wide == half * k) by (nonlinear_arith)
        requires
            half == (2 * q + 1) * step,
            wide == step * k,
    ;
    let twice = 2 * num as int;
    assert(2 * (num * k) == twice * k) by (nonlinear_arith)
        requires
            twice == 2 * num,
    ;
    assert((twice * k > half * k) == (twice > half)) by (nonlinear_arith)
        requires
            k > 0,
    ;
    assert((twice * k == half * k) == (twice == half)) by (nonlinear_arith)
        requires
            k > 0,
    ;
}

proof fn lemma_excess_common_factor(num: nat, den: nat, k: nat)
    requires
        den > 0,
        k > 0,
    ensures
        excess_digits(num * k, den * k) == excess_digits(num, den),
    decreases num - den,
{
    assert(den * k > 0) by (nonlinear_arith)
        requires
            den > 0,
            k > 0,
    ;
    let bound = 0x0100_0000 * den;
    assert((num * k < 0x0100_0000 * (den * k)) == (num < bound)) by (nonlinear_arith)
        requires
            k > 0,
            bound == 0x0100_0000 * den,
    ;
    if num >= bound {
        lemma_excess_common_factor(num, 2 * den, k);
        assert((2 * den) * k == 2 * (den * k)) by (nonlinear_arith);
        assert(excess_digits(num, den) == 1 + excess_digits(num, 2 * den));
        assert(excess_digits(num * k, den * k) == 1 + excess_digits(num * k, 2 * (den * k)));
    }
}

/// Every positive integer has a number of binary digits.
proof fn lemma_digits_exist(x: nat, least: nat) -> (count: nat)
    requires
        x >= pow2(least),
    ensures
        count > least,
        pow2((count - 1) as nat) <= x < pow2(count),
    decreases x - pow2(least),
{
    lemma_pow2_pos(least);
    lemma_pow2_unfold(least + 1);
    if x < pow2(least + 1) {
        least + 1
    } else {
        lemma_digits_exist(x, least + 1)
    }
}

/// A ratio strictly between two even integers rounds like the odd integer
/// between them, as long as at least two binary digits are dropped.
proof fn lemma_sticky(num: nat, den: nat, half: nat, exponent: int)
    requires
        den > 0,
        2 * half * den < num < (2 * half + 2) * den,
        2 * half >= pow2(25),
    ensures
        nearest_magnitude(scaled_num(num, exponent), den * scaled_den(exponent))
            == nearest_magnitude(scaled_num(2 * half + 1, exponent), scaled_den(exponent)),
{
    let odd = (2 * half + 1) as nat;
    let even = (2 * half) as nat;
    let count = lemma_digits_exist(even, 25);
    let digits = (if count + exponent - 24 > 0 {
        count + exponent - 24
    } else {
        0
    }) as nat;
    let shift = (digits - exponent) as nat;
    assert(shift >= 2);
    vstd::arithmetic::power2::lemma2_to64();
    lemma_pow2_unfold(count);
    lemma_pow2_unfold((count - 1) as nat);
    lemma_pow2_unfold(shift);
    lemma_pow2_unfold((shift - 1) as nat);
    let whole = pow2((shift - 2) as nat);
    lemma_pow2_pos((shift - 2) as nat);
    let step = pow2(shift);
    // Both numbers have `count` digits before the point.
    let low = pow2((count - 2) as nat);
    assert(pow2((count - 1) as nat) == 2 * low);
    assert(pow2(count) == 4 * low);
    assert(even + 2 <= pow2(count)) by {
        assert(half < 2 * low);
    }
    assert(den * pow2((count - 1) as nat) <= num < den * pow2(count)) by (nonlinear_arith)
        requires
            den > 0,
            even * den < num,
            num < (even + 2) * den,
            pow2((count - 1) as nat) <= even,
            even + 2 <= pow2(count),
    ;
    assert(1 * pow2((count - 1) as nat) <= odd < 1 * pow2(count));
    lemma_rounding_data(num, den, count, exponent, digits, shift);
    lemma_rounding_data(odd, 1, count, exponent, digits, shift);
    assert(1 * scaled_den(exponent) == scaled_den(exponent));
    assert(1 * step == step);
    // The quotients agree.
    let q = odd / step;
    let r = odd % step;
    vstd::arithmetic::div_mod::lemma_fundamental_div_mod(odd as int, step as int);
    let qs = (q * step) as int;
    assert(step * q == qs) by (nonlinear_arith)
        requires
            qs == q * step,
    ;
    let quarter = (q * whole) as int;
    assert(qs == 4 * quarter) by (nonlinear_arith)
        requires
            qs == q * step,
            step == 4 * whole,
            quarter == q * whole,
    ;
    let wide = (den * step) as int;
    assert(wide > 0) by (nonlinear_arith)
        requires
            den > 0,
            step == 4 * whole,
            whole > 0,
            wide == den * step,
    ;
    // An odd number lies strictly between multiples of four.
    assert(qs <= even);
    assert(even + 2 <= qs + step);
    assert(q * wide == qs * den) by (nonlinear_arith)
        requires
            wide == den * step,
            qs == q * step,
    ;
    assert(qs * den <= even * den) by (nonlinear_arith)
        requires
            qs <= even,
            den > 0,
    ;
    assert((even + 2) * den <= (qs + step) * den) by (nonlinear_arith)
        requires
            even + 2 <= qs + step,
            den > 0,
    ;
    assert((qs + step) * den == qs * den + wide) by (nonlinear_arith)
        requires
            wide == den * step,
    ;
    vstd::arithmetic::div_mod::lemma_fundamental_div_mod_converse(
        num as int,
        wide,
        q as int,
        num - q * wide,
    );
    // So do the comparisons with the halfway point.
    assert((2 * q + 1) * step == 2 * (qs + 2 * whole)) by (nonlinear_arith)
        requires
            qs == q * step,
            step == 4 * whole,
    ;
    let mid = qs + 2 * whole;
    assert((2 * q + 1) * wide == 2 * (mid * den)) by (nonlinear_arith)
        requires
            wide == den * step,
            qs == q * step,
            step == 4 * whole,
            mid == qs + 2 * whole,
    ;
    assert(odd != mid);
    if odd > mid {
        assert(even >= mid);
        assert(even * den >= mid * den) by (nonlinear_arith)
            requires
                even >= mid,
                den > 0,
        ;
    } else {
        assert(even + 2 <= mid);
        assert((even + 2) * den <= mid * den) by (nonlinear_arith)
            requires
                even + 2 <= mid,
                den > 0,
        ;
    }
}

/// Larger magnitude encodings are larger values.
pub proof fn lemma_magnitude_order(a: nat, b: nat)
    requires
        a < b,
    ensures
        magnitude_units(a) < magnitude_units(b),
{
    let unit: nat = EXPONENT_STEP as nat;
    vstd::arithmetic::power2::lemma2_to64();
    if b < unit {
    } else if a < unit {
        let e = (b / unit - 1) as nat;
        lemma_pow2_pos(e);
        assert((b % unit + unit) * pow2(e) >= unit) by (nonlinear_arith)
            requires
                pow2(e) >= 1,
        ;
    } else {
        let ea = (a / unit - 1) as nat;
        let eb = (b / unit - 1) as nat;
        let ma = (a % unit + unit) as nat;
        let mb = (b % unit + unit) as nat;
        lemma_pow2_pos(ea);
        if ea == eb {
            assert(ma < mb);
            assert(ma * pow2(ea) < mb * pow2(ea)) by (nonlinear_arith)
                requires
                    ma < mb,
                    pow2(ea) > 0,
            ;
        } else {
            assert(ea < eb);
            lemma_pow2_unfold(ea + 1);
            if ea + 1 < eb {
                lemma_pow2_strictly_increases(ea + 1, eb);
            }
            assert(ma * pow2(ea) < mb * pow2(eb)) by (nonlinear_arith)
                requires
                    ma < 2 * unit,
                    unit <= mb,
                    2 * pow2(ea) <= pow2(eb),
                    pow2(ea) > 0,
            ;
        }
    }
}

/// Moving a value by a share of its distance from itself leaves it where it is.
pub proof fn lemma_mean_of_equal_values(value: Binary32, count: nat)
    requires
        value.finite(),
        value.magnitude() > 0 || !value.negative(),
        0 < count <= u64::MAX,
    ensures
        value.difference(value) == (Binary32 { bits: 0 }),
        value.sum(value.difference(value).quotient(Binary32::nearest_count(count))) == value,
{
    let zero = Binary32 { bits: 0 };
    let divisor = Binary32::nearest_count(count);
    lemma_counts_are_positive(count);
    assert(value.opposite().magnitude() == value.magnitude());
    assert(value.opposite().negative() != value.negative());
    assert(value.units() + value.opposite().units() == 0);
    assert(value.difference(value) == zero);
    assert(magnitude_units(0) * pow2(149) == 0) by (nonlinear_arith)
        requires
            magnitude_units(0) == 0,
    ;
    if divisor.magnitude() > 0 {
        lemma_magnitude_order(0, divisor.magnitude());
    }
    lemma_round_zero(magnitude_units(divisor.magnitude()));
    assert(zero.quotient(divisor) == zero);
    if value.magnitude() > 0 {
        lemma_magnitude_order(0, value.magnitude());
        lemma_representable_is_exact(value.magnitude());
    }
}

/// A tolerance below zero, or none at all, is zero; any other is what it says.
pub proof fn lemma_no_tolerance_is_negative(value: Binary32)
    ensures
        value.nan() || value.negative() ==> value.floored_at_zero() == (Binary32 { bits: 0 }),
        !value.nan() && !value.negative() ==> value.floored_at_zero() == value,
{
}

/// Turning the sign changes nothing else, and taking it off leaves a value that
/// is not below zero.
pub proof fn lemma_signs(value: Binary32)
    ensures
        value.opposite().opposite() == value,
        value.finite() ==> value.opposite().units() == -value.units(),
        value.finite() ==> value.absolute_value().units() == (if value.units() < 0 {
            -value.units()
        } else {
            value.units()
        }),
        value.finite() == value.opposite().finite(),
        value.finite() == value.absolute_value().finite(),
{
}

/// Values that are no NaN and no infinity compare as the numbers they stand
/// for.
pub proof fn lemma_order_is_numeric(a: Binary32, b: Binary32)
    requires
        a.finite(),
        b.finite(),
    ensures
        a.below(b) <==> a.units() < b.units(),
        a.at_most(b) <==> a.units() <= b.units(),
{
    let ma = a.magnitude();
    let mb = b.magnitude();
    if ma < mb {
        lemma_magnitude_order(ma, mb);
    } else if mb < ma {
        lemma_magnitude_order(mb, ma);
    }
    if ma > 0 {
        lemma_magnitude_order(0, ma);
    }
    if mb > 0 {
        lemma_magnitude_order(0, mb);
    }
}

/// A value that a magnitude encodes exactly is rounded to that encoding.
pub proof fn lemma_representable_is_exact(magnitude: nat)
    requires
        magnitude < INFINITE_MAGNITUDE,
    ensures
        nearest_magnitude(magnitude_units(magnitude), 1) == magnitude,
{
    let unit: nat = EXPONENT_STEP as nat;
    let num = magnitude_units(magnitude);
    vstd::arithmetic::power2::lemma2_to64();
    if magnitude < 2 * unit {
        if magnitude >= unit {
            assert(magnitude / unit == 1);
            assert((magnitude % unit + unit) as nat * pow2(0) == magnitude) by (nonlinear_arith)
                requires
                    pow2(0) == 1,
                    magnitude % unit + unit == magnitude,
            ;
        }
        assert(num == magnitude);
        assert(1 * pow2(0) == 1);
        assert(magnitude * (1 * pow2(0)) == magnitude) by (nonlinear_arith)
            requires
                1 * pow2(0) == 1,
        ;
        assert((magnitude + 1) * (1 * pow2(0)) == magnitude + 1) by (nonlinear_arith)
            requires
                1 * pow2(0) == 1,
        ;
        lemma_nearest(num, 1, 0, magnitude);
        assert((2 * magnitude + 1) * (1 * pow2(0)) == 2 * magnitude + 1) by (nonlinear_arith)
            requires
                1 * pow2(0) == 1,
        ;
    } else {
        let digits = (magnitude / unit - 1) as nat;
        let m = (magnitude % unit + unit) as nat;
        lemma_pow2_pos(digits);
        let step = (1 * pow2(digits)) as nat;
        assert(m * pow2(digits) == m * step);
        assert(unit * step <= m * step && m * step < (m + 1) * step && m * step < 2 * unit * step
            && 2 * (m * step) < (2 * m + 1) * step) by (nonlinear_arith)
            requires
                step > 0,
                unit <= m,
                m < 2 * unit,
        ;
        assert(0x0100_0000 * step == 2 * unit * step) by (nonlinear_arith)
            requires
                unit == 0x0080_0000,
        ;
        lemma_nearest(num, 1, digits, m);
        assert(digits * unit + m == magnitude);
    }
}

/// A positive count of 64 bits is a finite positive value.
pub proof fn lemma_counts_are_positive(count: nat)
    requires
        0 < count < 0x1_0000_0000_0000_0000,
    ensures
        Binary32::nearest_count(count).finite(),
        !Binary32::nearest_count(count).negative(),
        Binary32::nearest_count(count).magnitude() > 0,
{
    vstd::arithmetic::power2::lemma2_to64();
    lemma_pow2_pos(149);
    let size = lemma_digits_exist(count, 0);
    if size > 64 {
        if size > 65 {
            lemma_pow2_strictly_increases(64, (size - 1) as nat);
        }
        assert(false);
    }
    let num = count * pow2(149);
    let digits = (size + 125) as nat;
    let step = (1 * pow2(digits)) as int;
    lemma_pow2_pos(digits);
    lemma_pow2_adds(size, 149);
    lemma_pow2_adds((size - 1) as nat, 149);
    lemma_pow2_adds(24, digits);
    lemma_pow2_adds(23, digits);
    assert(pow2((size - 1) as nat) * pow2(149) <= num < pow2(size) * pow2(149))
        by (nonlinear_arith)
        requires
            pow2((size - 1) as nat) <= count < pow2(size),
            num == count * pow2(149),
            pow2(149) > 0,
    ;
    assert(is_excess(num, 1, digits));
    let quotient = num / (step as nat);
    vstd::arithmetic::div_mod::lemma_fundamental_div_mod(num as int, step);
    assert(step * quotient == quotient * step) by (nonlinear_arith);
    assert((quotient + 1) * step == quotient * step + step) by (nonlinear_arith);
    lemma_nearest(num, 1, digits, quotient);
    assert(digits * EXPONENT_STEP <= 189 * EXPONENT_STEP);
    assert(digits * EXPONENT_STEP >= 126 * EXPONENT_STEP);
}

impl Binary32 {
    /// The positive zero.
    pub fn zero() -> (value: Binary32)
        ensures
            value.bits == 0,
            value.units() == 0,
    {
        Binary32 { bits: 0 }
    }

    pub fn is_finite(self) -> (finite: bool)
        ensures
            finite == self.finite(),
    {
        self.bits % SIGN_BIT < INFINITE_MAGNITUDE
    }

    pub fn is_nan(self) -> (nan: bool)
        ensures
            nan == self.nan(),
    {
        self.bits % SIGN_BIT > INFINITE_MAGNITUDE
    }

    /// The encoding's place on the line of encodings.
    fn place(self) -> (place: i64)
        ensures
            place == self.position(),
    {
        let magnitude: i64 = (self.bits % SIGN_BIT) as i64;
        if self.bits >= SIGN_BIT {
            -magnitude
        } else {
            magnitude
        }
    }

    /// `self < other`.
    pub fn lt(self, other: Binary32) -> (below: bool)
        ensures
            below == self.below(other),
    {
        !self.is_nan() && !other.is_nan() && self.place() < other.place()
    }

    /// `self <= other`.
    pub fn le(self, other: Binary32) -> (at_most: bool)
        ensures
            at_most == self.at_most(other),
    {
        !self.is_nan() && !other.is_nan() && self.place() <= other.place()
    }

    /// Whether `self` precedes `other` in the total order of encodings.
    pub fn precedes(self, other: Binary32) -> (precedes: bool)
        ensures
            precedes == (self.total_position() < other.total_position()),
    {
        let here: i64 = if self.bits >= SIGN_BIT {
            -((self.bits % SIGN_BIT) as i64) - 1
        } else {
            self.bits as i64
        };
        let there: i64 = if other.bits >= SIGN_BIT {
            -((other.bits % SIGN_BIT) as i64) - 1
        } else {
            other.bits as i64
        };
        here < there
    }

    /// The value, or zero in place of a negative value or a NaN.
    pub fn at_least_zero(self) -> (value: Binary32)
        ensures
            value == self.floored_at_zero(),
    {
        let zero: Binary32 = Binary32 { bits: 0 };
        if zero.lt(self) {
            self
        } else {
            zero
        }
    }

    pub fn abs(self) -> (value: Binary32)
        ensures
            value == self.absolute_value(),
    {
        Binary32 { bits: self.bits % SIGN_BIT }
    }

    /// The value with its sign turned.
    pub fn negated(self) -> (value: Binary32)
        ensures
            value == self.opposite(),
    {
        if self.bits >= SIGN_BIT {
            Binary32 { bits: self.bits - SIGN_BIT }
        } else {
            Binary32 { bits: self.bits + SIGN_BIT }
        }
    }

    /// The sum.
    pub fn plus(self, other: Binary32) -> (value: Binary32)
        ensures
            value == self.sum(other),
    {
        if self.is_nan() || other.is_nan() {
            return Binary32 { bits: QUIET_NAN };
        }
        let negative: bool = self.bits >= SIGN_BIT;
        let other_negative: bool = other.bits >= SIGN_BIT;
        if !self.is_finite() {
            if !other.is_finite() && negative != other_negative {
                return Binary32 { bits: QUIET_NAN };
            }
            return self;
        }
        if !other.is_finite() {
            return other;
        }
        let left: u32 = self.bits % SIGN_BIT;
        let right: u32 = other.bits % SIGN_BIT;
        proof {
            if left < right {
                lemma_magnitude_order(left as nat, right as nat);
            } else if right < left {
                lemma_magnitude_order(right as nat, left as nat);
            }
            if left > 0 {
                lemma_magnitude_order(0, left as nat);
            }
        }
        let opposed: bool = negative != other_negative;
        if left == right && opposed {
            return Binary32 { bits: 0 };
        }
        if left == 0 && right == 0 {
            return if negative {
                Binary32 { bits: SIGN_BIT }
            } else {
                Binary32 { bits: 0 }
            };
        }
        let (magnitude, sign): (u32, bool) = if left >= right {
            (combine(left, right, opposed), negative)
        } else {
            (combine(right, left, opposed), other_negative)
        };
        if sign {
            Binary32 { bits: SIGN_BIT + magnitude }
        } else {
            Binary32 { bits: magnitude }
        }
    }

    /// The difference.
    pub fn minus(self, other: Binary32) -> (value: Binary32)
        ensures
            value == self.difference(other),
    {
        self.plus(other.negated())
    }

    /// The quotient by a finite divisor that is not zero.
    pub fn divided_by(self, divisor: Binary32) -> (value: Binary32)
        requires
            divisor.finite(),
            divisor.magnitude() > 0,
        ensures
            value == self.quotient(divisor),
    {
        if self.is_nan() {
            return Binary32 { bits: QUIET_NAN };
        }
        let negative: bool = (self.bits >= SIGN_BIT) != (divisor.bits >= SIGN_BIT);
        let magnitude: u32 = if self.is_finite() {
            divide(self.bits % SIGN_BIT, divisor.bits % SIGN_BIT)
        } else {
            INFINITE_MAGNITUDE
        };
        if negative {
            Binary32 { bits: SIGN_BIT + magnitude }
        } else {
            Binary32 { bits: magnitude }
        }
    }

    /// The binary32 value nearest to a count.
    pub fn from_count(count: u64) -> (value: Binary32)
        ensures
            value == Binary32::nearest_count(count as nat),
    {
        Binary32 { bits: round_scaled(count as u128, 149) }
    }

    /// The binary32 value nearest to an integer of 64 bits, signed or not.
    pub fn from_integer(number: i128) -> (value: Binary32)
        requires
            -0x8000_0000_0000_0000 <= number <= 0xffff_ffff_ffff_ffff,
        ensures
            value == Binary32::nearest_integer(number as int),
    {
        if number < 0 {
            let magnitude: u32 = round_scaled((-number) as u128, 149);
            Binary32 { bits: SIGN_BIT + magnitude }
        } else {
            Binary32::from_count(number as u64)
        }
    }
}

/// Splits a finite magnitude encoding into significand and exponent.
pub(crate) fn split_magnitude(magnitude: u32) -> (parts: (u32, u32))
    requires
        magnitude < INFINITE_MAGNITUDE,
    ensures
        parts.0 < 0x0100_0000,
        parts.1 <= 253,
        magnitude_units(magnitude as nat) == parts.0 * pow2(parts.1 as nat),
        parts.0 == 0 <==> magnitude == 0,
        parts.1 > 0 ==> parts.0 >= 0x0080_0000,
        parts.1 == (if magnitude < EXPONENT_STEP {
            0
        } else {
            magnitude / EXPONENT_STEP - 1
        }),
{
    if magnitude < EXPONENT_STEP {
        proof {
            vstd::arithmetic::power2::lemma2_to64();
            assert(magnitude * pow2(0) == magnitude) by (nonlinear_arith)
                requires
                    pow2(0) == 1,
            ;
        }
        (magnitude, 0)
    } else {
        (magnitude % EXPONENT_STEP + EXPONENT_STEP, magnitude / EXPONENT_STEP - 1)
    }
}

/// The rounded sum, or difference, of two magnitudes.
fn combine(large: u32, small: u32, subtract: bool) -> (magnitude: u32)
    requires
        small <= large < INFINITE_MAGNITUDE,
        subtract ==> small < large,
    ensures
        magnitude == nearest_magnitude(
            (magnitude_units(large as nat) + if subtract {
                -(magnitude_units(small as nat) as int)
            } else {
                magnitude_units(small as nat) as int
            }) as nat,
            1,
        ),
        magnitude <= INFINITE_MAGNITUDE,
{
    let (ls, le): (u32, u32) = split_magnitude(large);
    let (ss, se): (u32, u32) = split_magnitude(small);
    let ghost ul = magnitude_units(large as nat);
    let ghost us = magnitude_units(small as nat);
    assert(se <= le);
    proof {
        vstd::arithmetic::power2::lemma2_to64();
        if small < large {
            lemma_magnitude_order(small as nat, large as nat);
        }
        lemma_pow2_pos(se as nat);
    }
    if le - se <= 64 {
        let gap: u32 = le - se;
        let power: u128 = power_of_two(gap);
        proof {
            lemma_pow2_pos(gap as nat);
            if gap < 64 {
                lemma_pow2_strictly_increases(gap as nat, 64);
            }
            assert(ls * power < 0x0100_0000 * 0x1_0000_0000_0000_0000) by (nonlinear_arith)
                requires
                    ls < 0x0100_0000,
                    0 < power <= 0x1_0000_0000_0000_0000,
            ;
            lemma_pow2_adds(gap as nat, se as nat);
            let p = pow2(se as nat);
            assert(ul == (ls * power) * p) by (nonlinear_arith)
                requires
                    ul == ls * pow2(le as nat),
                    pow2(le as nat) == power * p,
            ;
            assert((ls * power + ss) * p == ul + us && (ls * power - ss) * p == ul - us)
                by (nonlinear_arith)
                requires
                    ul == (ls * power) * p,
                    us == ss * p,
            ;
            if subtract {
                assert(ls * power > ss) by (nonlinear_arith)
                    requires
                        (ls * power - ss) * p > 0,
                        p > 0,
                ;
            }
        }
        let aligned: u128 = ls as u128 * power;
        let exact: u128 = if subtract {
            aligned - ss as u128
        } else {
            aligned + ss as u128
        };
        round_scaled(exact, se as i32)
    } else if ss == 0 {
        proof {
            assert(us == 0) by (nonlinear_arith)
                requires
                    us == 0 * pow2(se as nat),
            ;
        }
        round_scaled(ls as u128, le as i32)
    } else {
        let head: u128 = ls as u128 * 0x100_0000_0000;
        proof {
            lemma_far_apart(ls as nat, le as nat, ss as nat, se as nat, subtract);
        }
        if subtract {
            round_scaled(head - 1, le as i32 - 40)
        } else {
            round_scaled(head + 1, le as i32 - 40)
        }
    }
}

/// A summand far below the other only shows as a sticky digit.
proof fn lemma_far_apart(ls: nat, le: nat, ss: nat, se: nat, subtract: bool)
    requires
        0x0080_0000 <= ls < 0x0100_0000,
        0 < ss < 0x0100_0000,
        le > se + 64,
    ensures
        nearest_magnitude(
            (ls * pow2(le) + if subtract {
                -(ss * pow2(se) as int)
            } else {
                ss * pow2(se) as int
            }) as nat,
            1,
        ) == nearest_magnitude(
            scaled_num(
                (ls * 0x100_0000_0000 + if subtract {
                    -1int
                } else {
                    1int
                }) as nat,
                le - 40,
            ),
            scaled_den(le - 40),
        ),
{
    let f = (le - 40) as nat;
    let den = pow2(f);
    let tail = ss * pow2(se);
    let exact = (ls * pow2(le) + if subtract {
        -(tail as int)
    } else {
        tail as int
    }) as nat;
    vstd::arithmetic::power2::lemma2_to64();
    lemma_pow2_adds(8, 32);
    lemma_pow2_adds(40, f);
    lemma_pow2_pos(f);
    lemma_pow2_pos(se);
    lemma_pow2_adds(24, se);
    if 24 + se < f {
        lemma_pow2_strictly_increases(24 + se, f);
    }
    assert(0 < tail < den) by (nonlinear_arith)
        requires
            tail == ss * pow2(se),
            0 < ss < 0x0100_0000,
            pow2(se) > 0,
            0x0100_0000 * pow2(se) <= den,
    ;
    let head = ls * 0x100_0000_0000;
    assert(ls * pow2(le) == head * den) by (nonlinear_arith)
        requires
            pow2(le) == 0x100_0000_0000 * den,
            head == ls * 0x100_0000_0000,
    ;
    let half = (if subtract {
        ls * 0x80_0000_0000 - 1
    } else {
        (ls * 0x80_0000_0000) as int
    }) as nat;
    if subtract {
        assert(2 * half == head - 2);
        assert((head - 2) * den == head * den - 2 * den) by (nonlinear_arith);
        assert(head * den >= den) by (nonlinear_arith)
            requires
                head >= 1,
                den >= 0,
        ;
        assert(2 * half * den == (head - 2) * den);
        assert((2 * half + 2) * den == head * den);
    } else {
        assert(2 * half == head);
        assert((head + 2) * den == head * den + 2 * den) by (nonlinear_arith);
        assert(2 * half * den == head * den);
        assert((2 * half + 2) * den == (head + 2) * den);
    }
    lemma_sticky(exact, den, half, f as int);
    assert(scaled_num(exact, f as int) == exact * den);
    assert(den * scaled_den(f as int) == 1 * den);
    lemma_common_factor(exact, 1, den);
}

/// The rounded quotient of two magnitudes.
fn divide(dividend: u32, divisor: u32) -> (magnitude: u32)
    requires
        dividend < INFINITE_MAGNITUDE,
        0 < divisor < INFINITE_MAGNITUDE,
    ensures
        magnitude == nearest_magnitude(
            magnitude_units(dividend as nat) * pow2(149),
            magnitude_units(divisor as nat),
        ),
        magnitude <= INFINITE_MAGNITUDE,
{
    let (ds, de): (u32, u32) = split_magnitude(dividend);
    let (vs, ve): (u32, u32) = split_magnitude(divisor);
    let wide: u128 = ds as u128 * 0x1_0000_0000_0000_0000;
    let half: u128 = wide / vs as u128;
    let rest: u128 = wide % vs as u128;
    proof {
        vstd::arithmetic::div_mod::lemma_fundamental_div_mod(wide as int, vs as int);
        assert(half <= wide) by (nonlinear_arith)
            requires
                wide == vs * half + rest,
                vs >= 1,
                rest >= 0,
                half >= 0,
        ;
        lemma_division(ds as nat, de as nat, vs as nat, ve as nat, half as nat, rest as nat);
    }
    let significand: u128 = if rest == 0 {
        2 * half
    } else {
        2 * half + 1
    };
    round_scaled(significand, de as i32 + 84 - ve as i32)
}

/// The quotient of the significands, with a sticky digit, rounds like the
/// quotient of the values.
proof fn lemma_division(ds: nat, de: nat, vs: nat, ve: nat, half: nat, rest: nat)
    requires
        ds < 0x0100_0000,
        0 < vs < 0x0100_0000,
        ds * 0x1_0000_0000_0000_0000 == vs * half + rest,
        rest < vs,
    ensures
        nearest_magnitude((ds * pow2(de)) * pow2(149), vs * pow2(ve)) == nearest_magnitude(
            scaled_num(
                if rest == 0 {
                    2 * half
                } else {
                    (2 * half + 1) as nat
                },
                de + 84 - ve,
            ),
            scaled_den(de + 84 - ve),
        ),
{
    let e = de + 84 - ve;
    let num = (2 * (ds * 0x1_0000_0000_0000_0000)) as nat;
    vstd::arithmetic::power2::lemma2_to64();
    lemma_pow2_pos(ve);
    lemma_pow2_unfold(65);
    assert(num == ds * pow2(65)) by (nonlinear_arith)
        requires
            num == 2 * (ds * 0x1_0000_0000_0000_0000),
            pow2(65) == 2 * 0x1_0000_0000_0000_0000,
    ;
    lemma_pow2_adds(de, 149);
    assert((ds * pow2(de)) * pow2(149) == ds * pow2(de + 149)) by (nonlinear_arith)
        requires
            pow2(de + 149) == pow2(de) * pow2(149),
    ;
    let k: nat = if e >= 0 {
        pow2(ve)
    } else {
        pow2((de + 84) as nat)
    };
    let a = scaled_num(num, e);
    let b = vs * scaled_den(e);
    if e >= 0 {
        lemma_pow2_adds(e as nat, ve);
        lemma_pow2_adds(65, (de + 84) as nat);
        assert(a * k == ds * pow2(de + 149)) by (nonlinear_arith)
            requires
                a == num * pow2(e as nat),
                num == ds * pow2(65),
                k == pow2(ve),
                pow2((de + 84) as nat) == pow2(e as nat) * pow2(ve),
                pow2(de + 149) == pow2(65) * pow2((de + 84) as nat),
        ;
        assert(b * k == vs * pow2(ve)) by (nonlinear_arith)
            requires
                b == vs * 1,
                k == pow2(ve),
        ;
    } else {
        lemma_pow2_pos((de + 84) as nat);
        lemma_pow2_pos((-e) as nat);
        lemma_pow2_adds(65, (de + 84) as nat);
        lemma_pow2_adds((-e) as nat, (de + 84) as nat);
        assert(a * k == ds * pow2(de + 149)) by (nonlinear_arith)
            requires
                a == ds * pow2(65),
                k == pow2((de + 84) as nat),
                pow2(de + 149) == pow2(65) * pow2((de + 84) as nat),
        ;
        assert(b * k == vs * pow2(ve)) by (nonlinear_arith)
            requires
                b == vs * pow2((-e) as nat),
                k == pow2((de + 84) as nat),
                pow2(ve) == pow2((-e) as nat) * pow2((de + 84) as nat),
        ;
    }
    assert(b > 0) by (nonlinear_arith)
        requires
            b == vs * scaled_den(e),
            vs > 0,
            scaled_den(e) > 0,
    ;
    lemma_common_factor(a, b, k);
    if rest == 0 {
        // An exact quotient: the divisor is a common factor.
        let whole = 2 * half;
        assert(num == whole * vs) by (nonlinear_arith)
            requires
                num == 2 * (ds * 0x1_0000_0000_0000_0000),
                ds * 0x1_0000_0000_0000_0000 == vs * half + 0,
                whole == 2 * half,
        ;
        assert(a == scaled_num(whole, e) * vs) by {
            if e >= 0 {
                assert(num * pow2(e as nat) == (whole * pow2(e as nat)) * vs) by (nonlinear_arith)
                    requires
                        num == whole * vs,
                ;
            }
        }
        assert(b == scaled_den(e) * vs) by (nonlinear_arith)
            requires
                b == vs * scaled_den(e),
        ;
        lemma_common_factor(scaled_num(whole, e), scaled_den(e), vs);
    } else {
        assert(ds > 0) by (nonlinear_arith)
            requires
                ds * 0x1_0000_0000_0000_0000 == vs * half + rest,
                rest > 0,
                vs * half >= 0,
        ;
        assert(half >= 0x100_0000) by (nonlinear_arith)
            requires
                ds * 0x1_0000_0000_0000_0000 == vs * half + rest,
                ds >= 1,
                rest < vs,
                vs < 0x0100_0000,
        ;
        assert(2 * half * vs < num && num < (2 * half + 2) * vs) by (nonlinear_arith)
            requires
                num == 2 * (vs * half + rest),
                0 < rest < vs,
        ;
        lemma_sticky(num, vs, half, e);
    }
}

/// A sum that can be written exactly is exact.
pub proof fn lemma_exact_sums(a: Binary32, b: Binary32, exact: Binary32)
    requires
        a.finite(),
        b.finite(),
        exact.finite(),
        exact.units() == a.units() + b.units(),
    ensures
        a.sum(b).finite(),
        a.sum(b).units() == exact.units(),
{
    lemma_representable_is_exact(exact.magnitude());
    if exact.units() != 0 {
        assert(magnitude_units(exact.magnitude()) == if exact.units() < 0 {
            -exact.units()
        } else {
            exact.units()
        });
    }
}

/// A difference that can be written exactly is exact.
pub proof fn lemma_exact_differences(a: Binary32, b: Binary32, exact: Binary32)
    requires
        a.finite(),
        b.finite(),
        exact.finite(),
        exact.units() == a.units() - b.units(),
    ensures
        a.difference(b).finite(),
        a.difference(b).units() == exact.units(),
{
    lemma_signs(b);
    lemma_exact_sums(a, b.opposite(), exact);
}

} // verus!
