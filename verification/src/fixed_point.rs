//! Measurement values written out with a fixed number of decimals.

use vstd::arithmetic::power2::*;
use vstd::prelude::*;
use vstd::string::*;

use crate::binary32;
use crate::binary32::{split_magnitude, Binary32, INFINITE_MAGNITUDE, SIGN_BIT};
use crate::text;

verus! {

/// A ratio rounded to the nearest integer, ties to the even one.
pub open spec fn nearest_even(num: nat, den: nat) -> nat {
    let quotient = num / den;
    let rest = num % den;
    if 2 * rest > den || (2 * rest == den && quotient % 2 == 1) {
        quotient + 1
    } else {
        quotient
    }
}

/// Ten to a power.
pub open spec fn decimal_scale(decimals: nat) -> nat
    decreases decimals,
{
    if decimals == 0 {
        1
    } else {
        10 * decimal_scale((decimals - 1) as nat)
    }
}

/// The low decimal digits of a number, padded with zeros.
pub open spec fn padded_digits(number: nat, width: nat) -> Seq<char>
    decreases width,
{
    if width == 0 {
        Seq::empty()
    } else {
        padded_digits(number / 10, (width - 1) as nat).push(text::digit_char(number % 10))
    }
}

/// A number of units of the last decimal, written with its decimal point.
pub open spec fn pointed(number: nat, decimals: nat) -> Seq<char> {
    let whole = text::decimal_digits(number / decimal_scale(decimals));
    if decimals == 0 {
        whole
    } else {
        whole + seq!['.'] + padded_digits(number % decimal_scale(decimals), decimals)
    }
}

/// A finite magnitude in units of the last decimal.
pub open spec fn rounded_magnitude(magnitude: nat, decimals: nat) -> nat {
    nearest_even(binary32::magnitude_units(magnitude) * decimal_scale(decimals), pow2(149))
}

/// The value written with a fixed number of decimals: the exact value rounded
/// to nearest, ties to even.
pub open spec fn fixed_text(value: Binary32, decimals: nat) -> Seq<char> {
    if value.nan() {
        seq!['N', 'a', 'N']
    } else {
        let magnitude = if value.finite() {
            pointed(rounded_magnitude(value.magnitude(), decimals), decimals)
        } else {
            seq!['i', 'n', 'f']
        };
        if value.negative() {
            seq!['-'] + magnitude
        } else {
            magnitude
        }
    }
}

/// The same with a plus sign before a value that has no minus sign.
pub open spec fn explicit_text(value: Binary32, decimals: nat) -> Seq<char> {
    if value.nan() || value.negative() {
        fixed_text(value, decimals)
    } else {
        seq!['+'] + fixed_text(value, decimals)
    }
}

/// The number that decimal digits stand for, the lowest digit first.
pub open spec fn digits_number(digits: Seq<u8>) -> nat
    decreases digits.len(),
{
    if digits.len() == 0 {
        0
    } else {
        digits[0] as nat + 10 * digits_number(digits.drop_first())
    }
}

/// Every one of them is a decimal digit.
pub open spec fn are_digits(digits: Seq<u8>) -> bool {
    forall|i: int| 0 <= i < digits.len() ==> #[trigger] digits[i] < 10
}

/// Digits, the lowest first, as they are written: the highest first.
pub open spec fn written(digits: Seq<u8>) -> Seq<char>
    decreases digits.len(),
{
    if digits.len() == 0 {
        Seq::empty()
    } else {
        written(digits.drop_first()).push(text::digit_char(digits[0] as nat))
    }
}

/// Five to a power.
pub open spec fn power_of_five(exponent: nat) -> nat
    decreases exponent,
{
    if exponent == 0 {
        1
    } else {
        5 * power_of_five((exponent - 1) as nat)
    }
}

proof fn lemma_scale_is_positive(decimals: nat)
    ensures
        decimal_scale(decimals) > 0,
    decreases decimals,
{
    if decimals > 0 {
        lemma_scale_is_positive((decimals - 1) as nat);
    }
}

proof fn lemma_scales_multiply(first: nat, second: nat)
    ensures
        decimal_scale(first + second) == decimal_scale(first) * decimal_scale(second),
    decreases first,
{
    if first > 0 {
        let fewer = (first - 1) as nat;
        lemma_scales_multiply(fewer, second);
        assert((first + second - 1) as nat == fewer + second);
        assert(10 * (decimal_scale(fewer) * decimal_scale(second)) == (10 * decimal_scale(fewer))
            * decimal_scale(second)) by (nonlinear_arith);
    } else {
        assert(1 * decimal_scale(second) == decimal_scale(second));
    }
}

/// Ten is two times five.
proof fn lemma_scale_has_two_factors(decimals: nat)
    ensures
        decimal_scale(decimals) == pow2(decimals) * power_of_five(decimals),
        power_of_five(decimals) > 0,
    decreases decimals,
{
    if decimals > 0 {
        let fewer = (decimals - 1) as nat;
        lemma_scale_has_two_factors(fewer);
        lemma_pow2_unfold(decimals);
        assert(10 * (pow2(fewer) * power_of_five(fewer)) == (2 * pow2(fewer)) * (5
            * power_of_five(fewer))) by (nonlinear_arith);
    } else {
        vstd::arithmetic::power2::lemma2_to64();
    }
}

/// Digits in two parts stand for the sum of the parts.
proof fn lemma_digits_split(digits: Seq<u8>, count: int)
    requires
        0 <= count <= digits.len(),
        are_digits(digits),
    ensures
        digits_number(digits) == digits_number(digits.take(count)) + decimal_scale(count as nat)
            * digits_number(digits.skip(count)),
        digits_number(digits.take(count)) < decimal_scale(count as nat),
    decreases count,
{
    if count == 0 {
        assert(digits.skip(0) =~= digits);
        assert(digits.take(0) =~= Seq::<u8>::empty());
        assert(1 * digits_number(digits) == digits_number(digits));
    } else {
        let rest = digits.drop_first();
        assert forall|i: int| 0 <= i < rest.len() implies #[trigger] rest[i] < 10 by {
            assert(rest[i] == digits[i + 1]);
        }
        lemma_digits_split(rest, count - 1);
        assert(digits.take(count).drop_first() =~= rest.take(count - 1));
        assert(digits.take(count)[0] == digits[0]);
        assert(rest.skip(count - 1) =~= digits.skip(count));
        let fewer = decimal_scale((count - 1) as nat);
        let high = digits_number(digits.skip(count));
        assert(10 * (fewer * high) == (10 * fewer) * high) by (nonlinear_arith);
    }
}

proof fn lemma_digit_pushed(digits: Seq<u8>, digit: u8)
    requires
        are_digits(digits),
        digit < 10,
    ensures
        are_digits(digits.push(digit)),
        digits_number(digits.push(digit)) == digits_number(digits) + decimal_scale(digits.len())
            * digit,
{
    let longer = digits.push(digit);
    lemma_digits_split(longer, digits.len() as int);
    assert(longer.take(digits.len() as int) =~= digits);
    assert(longer.skip(digits.len() as int) =~= seq![digit]);
    assert(seq![digit].drop_first() =~= Seq::<u8>::empty());
    assert(digits_number(seq![digit]) == digit) by {
        reveal_with_fuel(digits_number, 2);
    }
}

/// A number of so many digits, padded, is its digits.
proof fn lemma_padded_digits_are_written(digits: Seq<u8>)
    requires
        are_digits(digits),
    ensures
        padded_digits(digits_number(digits), digits.len()) == written(digits),
    decreases digits.len(),
{
    if digits.len() > 0 {
        let rest = digits.drop_first();
        assert forall|i: int| 0 <= i < rest.len() implies #[trigger] rest[i] < 10 by {
            assert(rest[i] == digits[i + 1]);
        }
        lemma_padded_digits_are_written(rest);
        assert(digits_number(digits) % 10 == digits[0]);
        assert(digits_number(digits) / 10 == digits_number(rest));
    }
}

/// Digits without a leading zero are the digits of their number.
proof fn lemma_leading_digits_are_written(digits: Seq<u8>)
    requires
        are_digits(digits),
        digits.len() > 0,
        digits.len() == 1 || digits.last() != 0,
    ensures
        text::decimal_digits(digits_number(digits)) == written(digits),
        digits.len() > 1 || digits[0] > 0 ==> digits_number(digits) > 0,
    decreases digits.len(),
{
    let rest = digits.drop_first();
    if digits.len() == 1 {
        assert(rest =~= Seq::<u8>::empty());
        reveal_with_fuel(digits_number, 2);
        reveal_with_fuel(written, 2);
        assert(digits_number(digits) == digits[0]);
        assert(written(digits) =~= seq![text::digit_char(digits[0] as nat)]);
    } else {
        assert forall|i: int| 0 <= i < rest.len() implies #[trigger] rest[i] < 10 by {
            assert(rest[i] == digits[i + 1]);
        }
        assert(rest.last() == digits.last());
        lemma_leading_digits_are_written(rest);
        assert(digits_number(digits) % 10 == digits[0]);
        assert(digits_number(digits) / 10 == digits_number(rest));
    }
}

/// Leading zeros add nothing.
proof fn lemma_zero_pushed(digits: Seq<u8>)
    requires
        are_digits(digits),
    ensures
        are_digits(digits.push(0)),
        digits_number(digits.push(0)) == digits_number(digits),
{
    lemma_digit_pushed(digits, 0);
    assert(decimal_scale(digits.len()) * 0 == 0);
}

/// The digits of a number, the lowest first.
fn digits_of(number: u32) -> (digits: Vec<u8>)
    ensures
        are_digits(digits@),
        digits_number(digits@) == number,
{
    let mut digits: Vec<u8> = Vec::new();
    let mut rest: u32 = number;
    assert(decimal_scale(0) == 1 && 1 * rest == rest);
    while rest > 0
        invariant
            are_digits(digits@),
            digits_number(digits@) + decimal_scale(digits@.len()) * rest == number,
        decreases rest,
    {
        let ghost before = digits@;
        let digit: u8 = (rest % 10) as u8;
        digits.push(digit);
        proof {
            lemma_digit_pushed(before, digit);
            let scale = decimal_scale(before.len());
            let higher = rest / 10;
            assert(scale * rest == scale * digit + (10 * scale) * higher) by (nonlinear_arith)
                requires
                    rest == 10 * higher + digit,
            ;
        }
        rest = rest / 10;
    }
    assert(decimal_scale(digits@.len()) * 0 == 0);
    digits
}

/// A number times a digit.
fn times(digits: &Vec<u8>, factor: u8) -> (product: Vec<u8>)
    requires
        are_digits(digits@),
        factor < 10,
    ensures
        are_digits(product@),
        digits_number(product@) == factor * digits_number(digits@),
{
    let mut product: Vec<u8> = Vec::new();
    let mut carry: u8 = 0;
    let mut at: usize = 0;
    proof {
        assert(digits@.take(0) =~= Seq::<u8>::empty());
        assert(decimal_scale(0) * 0 == 0);
        assert(factor * 0 == 0);
    }
    while at < digits.len()
        invariant
            at <= digits@.len(),
            product@.len() == at,
            carry < 10,
            factor < 10,
            are_digits(digits@),
            are_digits(product@),
            digits_number(product@) + decimal_scale(at as nat) * carry == factor * digits_number(
                digits@.take(at as int),
            ),
        decreases digits@.len() - at,
    {
        let ghost before = product@;
        let ghost taken = digits@.take(at as int);
        let ghost carried = carry;
        let digit: u8 = digits[at];
        assert(digit * factor <= 81) by (nonlinear_arith)
            requires
                digit <= 9,
                factor <= 9,
        ;
        let sum: u8 = digit * factor + carry;
        product.push(sum % 10);
        carry = sum / 10;
        proof {
            lemma_digit_pushed(before, sum % 10);
            assert(digits@.take(at + 1) =~= taken.push(digit));
            lemma_digit_pushed(taken, digit);
            let scale = decimal_scale(at as nat);
            let low = (sum % 10) as int;
            let high = carry as int;
            let lower = digits_number(taken);
            assert(scale * low + (10 * scale) * high == scale * carried + factor * (scale * digit))
                by (nonlinear_arith)
                requires
                    10 * high + low == digit * factor + carried,
            ;
            assert(factor * (lower + scale * digit) == factor * lower + factor * (scale * digit))
                by (nonlinear_arith);
        }
        at = at + 1;
    }
    assert(digits@.take(at as int) =~= digits@);
    if carry > 0 {
        let ghost before = product@;
        product.push(carry);
        proof {
            lemma_digit_pushed(before, carry);
        }
    } else {
        assert(decimal_scale(at as nat) * 0 == 0);
    }
    product
}

/// One more than a number.
fn plus_one(digits: &Vec<u8>) -> (sum: Vec<u8>)
    requires
        are_digits(digits@),
    ensures
        are_digits(sum@),
        digits_number(sum@) == digits_number(digits@) + 1,
{
    let mut sum: Vec<u8> = Vec::new();
    let mut carry: u8 = 1;
    let mut at: usize = 0;
    proof {
        assert(digits@.take(0) =~= Seq::<u8>::empty());
        assert(decimal_scale(0) * 1 == 1);
    }
    while at < digits.len()
        invariant
            at <= digits@.len(),
            sum@.len() == at,
            carry <= 1,
            are_digits(digits@),
            are_digits(sum@),
            digits_number(sum@) + decimal_scale(at as nat) * carry == digits_number(
                digits@.take(at as int),
            ) + 1,
        decreases digits@.len() - at,
    {
        let ghost before = sum@;
        let ghost taken = digits@.take(at as int);
        let ghost carried = carry;
        let digit: u8 = digits[at];
        let total: u8 = digit + carry;
        sum.push(total % 10);
        carry = total / 10;
        proof {
            lemma_digit_pushed(before, total % 10);
            assert(digits@.take(at + 1) =~= taken.push(digit));
            lemma_digit_pushed(taken, digit);
            let scale = decimal_scale(at as nat);
            let low = (total % 10) as int;
            let high = carry as int;
            assert(scale * low + (10 * scale) * high == scale * carried + scale * digit)
                by (nonlinear_arith)
                requires
                    10 * high + low == digit + carried,
            ;
        }
        at = at + 1;
    }
    assert(digits@.take(at as int) =~= digits@);
    if carry > 0 {
        let ghost before = sum@;
        sum.push(carry);
        proof {
            lemma_digit_pushed(before, carry);
        }
    } else {
        assert(decimal_scale(at as nat) * 0 == 0);
    }
    sum
}

/// Digits with zeros in front of them, at least so many.
fn widen(digits: &mut Vec<u8>, count: usize)
    requires
        are_digits(old(digits)@),
    ensures
        are_digits(final(digits)@),
        digits_number(final(digits)@) == digits_number(old(digits)@),
        final(digits)@.len() == if old(digits)@.len() >= count {
            old(digits)@.len()
        } else {
            count as nat
        },
{
    let ghost number = digits_number(digits@);
    let ghost length = digits@.len();
    while digits.len() < count
        invariant
            are_digits(digits@),
            digits_number(digits@) == number,
            digits@.len() == length || length < digits@.len() <= count,
        decreases count - digits@.len(),
    {
        proof {
            lemma_zero_pushed(digits@);
        }
        digits.push(0);
    }
}

/// A number without its low digits, rounded to the nearest one, ties to the even
/// one.
fn round_off(digits: &Vec<u8>, count: usize) -> (rounded: Vec<u8>)
    requires
        are_digits(digits@),
        0 < count <= digits@.len(),
    ensures
        are_digits(rounded@),
        digits_number(rounded@) == nearest_even(
            digits_number(digits@),
            decimal_scale(count as nat),
        ),
{
    let mut low_is_zero: bool = true;
    let mut at: usize = 0;
    assert(digits@.take(0) =~= Seq::<u8>::empty());
    while at < count - 1
        invariant
            at <= count - 1,
            count <= digits@.len(),
            are_digits(digits@),
            low_is_zero == (digits_number(digits@.take(at as int)) == 0),
        decreases count - at,
    {
        let digit: u8 = digits[at];
        proof {
            let taken = digits@.take(at as int);
            assert(digits@.take(at + 1) =~= taken.push(digit));
            lemma_digit_pushed(taken, digit);
            lemma_scale_is_positive(at as nat);
            let scale = decimal_scale(at as nat);
            assert((scale * digit == 0) == (digit == 0)) by (nonlinear_arith)
                requires
                    scale > 0,
            ;
        }
        if digit != 0 {
            low_is_zero = false;
        }
        at = at + 1;
    }
    let top: u8 = digits[count - 1];
    let mut kept: Vec<u8> = Vec::new();
    let mut next: usize = count;
    assert(digits@.subrange(count as int, count as int) =~= Seq::<u8>::empty());
    while next < digits.len()
        invariant
            count <= next <= digits@.len(),
            kept@ == digits@.subrange(count as int, next as int),
        decreases digits@.len() - next,
    {
        kept.push(digits[next]);
        next = next + 1;
        assert(kept@ =~= digits@.subrange(count as int, next as int));
    }
    let odd: bool = kept.len() > 0 && kept[0] % 2 == 1;
    proof {
        let number = digits_number(digits@);
        let scale = decimal_scale(count as nat);
        let tenth = decimal_scale((count - 1) as nat);
        let low = digits_number(digits@.take(count - 1));
        let rest = digits_number(digits@.take(count as int));
        let quotient = digits_number(digits@.skip(count as int));
        assert(kept@ =~= digits@.skip(count as int));
        lemma_digits_split(digits@, count as int);
        lemma_digits_split(digits@, count - 1);
        assert(digits@.take(count as int) =~= digits@.take(count - 1).push(top));
        lemma_digit_pushed(digits@.take(count - 1), top);
        lemma_scale_is_positive(count as nat);
        assert(number == quotient * scale + rest) by (nonlinear_arith)
            requires
                number == rest + scale * quotient,
        ;
        vstd::arithmetic::div_mod::lemma_fundamental_div_mod_converse(
            number as int,
            scale as int,
            quotient as int,
            rest as int,
        );
        assert(rest == low + tenth * top);
        assert(scale == 10 * tenth);
        assert(low < tenth);
        assert((2 * rest > scale) == (top > 5 || top == 5 && low > 0)) by (nonlinear_arith)
            requires
                rest == low + tenth * top,
                scale == 10 * tenth,
                0 <= low < tenth,
                top < 10,
        ;
        assert((2 * rest == scale) == (top == 5 && low == 0)) by (nonlinear_arith)
            requires
                rest == low + tenth * top,
                scale == 10 * tenth,
                0 <= low < tenth,
                top < 10,
        ;
        if kept@.len() > 0 {
            assert(quotient == kept@[0] + 10 * digits_number(kept@.drop_first()));
        }
        assert(odd == (quotient % 2 == 1));
    }
    if top > 5 || (top == 5 && (!low_is_zero || odd)) {
        plus_one(&kept)
    } else {
        kept
    }
}

/// Appends digits, from one place up to another, the highest first.
fn push_digits(text: &mut String, digits: &Vec<u8>, from: usize, to: usize)
    requires
        are_digits(digits@),
        from <= to <= digits@.len(),
    ensures
        final(text)@ == old(text)@ + written(digits@.subrange(from as int, to as int)),
{
    let ghost before = text@;
    let mut at: usize = to;
    assert(digits@.subrange(to as int, to as int) =~= Seq::<u8>::empty());
    assert(before + Seq::<char>::empty() =~= before);
    while at > from
        invariant
            from <= at <= to <= digits@.len(),
            are_digits(digits@),
            text@ == before + written(digits@.subrange(at as int, to as int)),
        decreases at,
    {
        at = at - 1;
        let digit: u8 = digits[at];
        let ghost higher = digits@.subrange(at + 1, to as int);
        text.push((48 + digit) as char);
        proof {
            let part = digits@.subrange(at as int, to as int);
            assert(part.drop_first() =~= higher);
            assert(part[0] == digit);
            assert(text@ =~= before + written(higher).push(text::digit_char(digit as nat)));
        }
    }
}

/// A number times a power of ten.
fn shifted(digits: &Vec<u8>, count: usize) -> (product: Vec<u8>)
    requires
        are_digits(digits@),
    ensures
        are_digits(product@),
        digits_number(product@) == decimal_scale(count as nat) * digits_number(digits@),
{
    let mut product: Vec<u8> = Vec::new();
    let mut zeros: usize = 0;
    while zeros < count
        invariant
            zeros <= count,
            product@.len() == zeros,
            are_digits(product@),
            digits_number(product@) == 0,
        decreases count - zeros,
    {
        proof {
            lemma_zero_pushed(product@);
        }
        product.push(0);
        zeros = zeros + 1;
    }
    let ghost low = product@;
    let mut at: usize = 0;
    assert(low + digits@.take(0) =~= low);
    while at < digits.len()
        invariant
            at <= digits@.len(),
            are_digits(digits@),
            are_digits(low),
            product@ == low + digits@.take(at as int),
        decreases digits@.len() - at,
    {
        product.push(digits[at]);
        at = at + 1;
        assert(product@ =~= low + digits@.take(at as int));
    }
    proof {
        assert(digits@.take(at as int) =~= digits@);
        assert forall|i: int| 0 <= i < product@.len() implies #[trigger] product@[i] < 10 by {
            if i >= low.len() {
                assert(product@[i] == digits@[i - low.len()]);
            }
        }
        lemma_digits_split(product@, count as int);
        assert(product@.take(count as int) =~= low);
        assert(product@.skip(count as int) =~= digits@);
    }
    product
}

/// A whole number divides evenly.
proof fn lemma_whole_ratio(whole: nat, den: nat)
    requires
        den > 0,
    ensures
        nearest_even(whole * den, den) == whole,
{
    assert(whole * den == whole * den + 0);
    vstd::arithmetic::div_mod::lemma_fundamental_div_mod_converse(
        (whole * den) as int,
        den as int,
        whole as int,
        0,
    );
}

/// A common factor of numerator and denominator does not matter.
proof fn lemma_reduced_ratio(num: nat, den: nat, k: nat)
    requires
        den > 0,
        k > 0,
    ensures
        nearest_even(num * k, den * k) == nearest_even(num, den),
{
    let q = (num / den) as int;
    let r = (num % den) as int;
    let d = den as int;
    vstd::arithmetic::div_mod::lemma_fundamental_div_mod(num as int, d);
    assert(num * k == q * (den * k) + r * k) by (nonlinear_arith)
        requires
            num == d * q + r,
            d == den,
    ;
    assert(0 <= r * k < den * k) by (nonlinear_arith)
        requires
            0 <= r < d,
            k > 0,
            d == den,
    ;
    vstd::arithmetic::div_mod::lemma_fundamental_div_mod_converse(
        (num * k) as int,
        (den * k) as int,
        q,
        r * k,
    );
    let twice = 2 * r;
    assert((2 * (r * k) > den * k) == (twice > d)) by (nonlinear_arith)
        requires
            k > 0,
            twice == 2 * r,
            d == den,
    ;
    assert((2 * (r * k) == den * k) == (twice == d)) by (nonlinear_arith)
        requires
            k > 0,
            twice == 2 * r,
            d == den,
    ;
}

/// The digits of a finite magnitude in units of the last decimal, the lowest
/// first.
fn rounded_digits(magnitude: u32, decimals: usize) -> (digits: Vec<u8>)
    requires
        magnitude < INFINITE_MAGNITUDE,
    ensures
        are_digits(digits@),
        digits_number(digits@) == rounded_magnitude(magnitude as nat, decimals as nat),
{
    let (significand, exponent): (u32, u32) = split_magnitude(magnitude);
    let ghost units = binary32::magnitude_units(magnitude as nat);
    let ghost scale = decimal_scale(decimals as nat);
    let ghost rounded = rounded_magnitude(magnitude as nat, decimals as nat);
    let mut digits: Vec<u8> = digits_of(significand);
    proof {
        lemma_pow2_pos(149);
        lemma_scale_is_positive(decimals as nat);
    }
    if exponent >= 149 {
        let up: u32 = exponent - 149;
        let mut doubled: u32 = 0;
        proof {
            vstd::arithmetic::power2::lemma2_to64();
        }
        while doubled < up
            invariant
                doubled <= up,
                are_digits(digits@),
                digits_number(digits@) == significand * pow2(doubled as nat),
            decreases up - doubled,
        {
            let ghost before = digits_number(digits@);
            digits = times(&digits, 2);
            proof {
                lemma_pow2_unfold((doubled + 1) as nat);
                let power = pow2(doubled as nat);
                assert(2 * (significand * power) == significand * (2 * power))
                    by (nonlinear_arith);
            }
            doubled = doubled + 1;
        }
        let scaled: Vec<u8> = shifted(&digits, decimals);
        proof {
            let whole = (significand * pow2(up as nat)) as nat;
            lemma_pow2_adds(up as nat, 149);
            let one = pow2(149);
            let power = pow2(up as nat);
            assert(units * scale == (whole * scale) * one) by (nonlinear_arith)
                requires
                    units == significand * (power * one),
                    whole == significand * power,
            ;
            lemma_whole_ratio(whole * scale, one);
            assert(scale * whole == whole * scale) by (nonlinear_arith);
        }
        return scaled;
    }
    let down: u32 = 149 - exponent;
    let mut fives: u32 = 0;
    assert(significand * 1 == significand);
    while fives < down
        invariant
            fives <= down,
            are_digits(digits@),
            digits_number(digits@) == significand * power_of_five(fives as nat),
        decreases down - fives,
    {
        digits = times(&digits, 5);
        proof {
            let power = power_of_five(fives as nat);
            assert(5 * (significand * power) == significand * (5 * power)) by (nonlinear_arith);
        }
        fives = fives + 1;
    }
    let ghost number = digits_number(digits@);
    proof {
        let e = exponent as nat;
        let d = down as nat;
        let five = power_of_five(d);
        lemma_pow2_pos(e);
        lemma_pow2_pos(d);
        lemma_pow2_adds(d, e);
        lemma_scale_has_two_factors(d);
        let wide = (significand * scale) as nat;
        let power = pow2(e);
        assert(units * scale == wide * power) by (nonlinear_arith)
            requires
                units == significand * power,
                wide == significand * scale,
        ;
        lemma_reduced_ratio(wide, pow2(d), pow2(e));
        lemma_reduced_ratio(wide, pow2(d), five);
        assert(wide * five == number * scale) by (nonlinear_arith)
            requires
                wide == significand * scale,
                number == significand * five,
        ;
        assert(rounded == nearest_even(number * scale, decimal_scale(d)));
    }
    let places: usize = down as usize;
    if decimals >= places {
        let more: usize = decimals - places;
        let scaled: Vec<u8> = shifted(&digits, more);
        proof {
            lemma_scales_multiply(more as nat, places as nat);
            lemma_scale_is_positive(places as nat);
            let extra = decimal_scale(more as nat);
            let base = decimal_scale(places as nat);
            assert(number * (extra * base) == (number * extra) * base) by (nonlinear_arith);
            lemma_whole_ratio(number * extra, base);
            assert(extra * number == number * extra) by (nonlinear_arith);
        }
        scaled
    } else {
        let dropped: usize = places - decimals;
        widen(&mut digits, dropped);
        proof {
            lemma_scales_multiply(dropped as nat, decimals as nat);
            lemma_scale_is_positive(dropped as nat);
            lemma_reduced_ratio(number, decimal_scale(dropped as nat), scale);
        }
        round_off(&digits, dropped)
    }
}

/// Writes a number of units of the last decimal with its decimal point.
fn push_pointed(text: &mut String, number: Vec<u8>, decimals: usize)
    requires
        are_digits(number@),
    ensures
        final(text)@ == old(text)@ + pointed(digits_number(number@), decimals as nat),
{
    let ghost before = text@;
    let ghost value = digits_number(number@);
    let mut digits: Vec<u8> = number;
    widen(&mut digits, decimals);
    if digits.len() == decimals {
        proof {
            lemma_zero_pushed(digits@);
        }
        digits.push(0);
    }
    let mut top: usize = digits.len();
    assert(digits@.take(top as int) =~= digits@);
    while top > decimals + 1 && digits[top - 1] == 0
        invariant
            decimals < top <= digits@.len(),
            are_digits(digits@),
            digits_number(digits@) == value,
            digits_number(digits@.take(top as int)) == value,
        decreases top,
    {
        proof {
            let kept = digits@.take(top - 1);
            assert(digits@.take(top as int) =~= kept.push(0));
            lemma_zero_pushed(kept);
        }
        top = top - 1;
    }
    let ghost kept = digits@.take(top as int);
    let ghost whole = digits@.subrange(decimals as int, top as int);
    let ghost low = digits@.subrange(0, decimals as int);
    proof {
        lemma_digits_split(kept, decimals as int);
        assert(kept.take(decimals as int) =~= low);
        assert(kept.skip(decimals as int) =~= whole);
        lemma_scale_is_positive(decimals as nat);
        let scale = decimal_scale(decimals as nat);
        let high = digits_number(whole);
        let rest = digits_number(low);
        assert(value == high * scale + rest) by (nonlinear_arith)
            requires
                value == rest + scale * high,
        ;
        vstd::arithmetic::div_mod::lemma_fundamental_div_mod_converse(
            value as int,
            scale as int,
            high as int,
            rest as int,
        );
        assert(whole.last() == digits@[top - 1]);
        lemma_leading_digits_are_written(whole);
        lemma_padded_digits_are_written(low);
        reveal_strlit(".");
    }
    push_digits(text, &digits, decimals, top);
    if decimals > 0 {
        text.append(".");
        push_digits(text, &digits, 0, decimals);
    }
    assert(text@ =~= before + pointed(value, decimals as nat));
}

/// Writes a value with a fixed number of decimals.
pub fn fixed(value: Binary32, decimals: usize) -> (text: String)
    ensures
        text@ == fixed_text(value, decimals as nat),
{
    proof {
        reveal_strlit("NaN");
        reveal_strlit("inf");
        reveal_strlit("-");
    }
    if value.is_nan() {
        let text: String = "NaN".to_owned();
        assert(text@ =~= seq!['N', 'a', 'N']);
        return text;
    }
    let mut text: String = String::new();
    if value.bits >= SIGN_BIT {
        text.append("-");
    }
    if value.is_finite() {
        let digits: Vec<u8> = rounded_digits(value.bits % SIGN_BIT, decimals);
        push_pointed(&mut text, digits, decimals);
    } else {
        text.append("inf");
    }
    assert(text@ =~= fixed_text(value, decimals as nat));
    text
}

/// Writes a value with a fixed number of decimals and an explicit sign.
pub fn explicit(value: Binary32, decimals: usize) -> (text: String)
    ensures
        text@ == explicit_text(value, decimals as nat),
{
    let plain: String = fixed(value, decimals);
    if value.is_nan() || value.bits >= SIGN_BIT {
        return plain;
    }
    proof {
        reveal_strlit("+");
    }
    let mut text: String = "+".to_owned();
    text.append(plain.as_str());
    assert(text@ =~= explicit_text(value, decimals as nat));
    text
}

proof fn lemma_padded_digits_count(number: nat, width: nat)
    requires
        number < decimal_scale(width),
    ensures
        padded_digits(number, width).len() == width,
        text::all_digits(padded_digits(number, width)),
        text::digits_value(padded_digits(number, width)) == number,
    decreases width,
{
    if width > 0 {
        lemma_padded_digits_count(number / 10, (width - 1) as nat);
        let before = padded_digits(number / 10, (width - 1) as nat);
        let digit = text::digit_char(number % 10);
        assert(digit as int == 48 + number % 10);
        text::lemma_digits_count_by_tens(before, digit);
        assert forall|i: int| 0 <= i < before.push(digit).len() implies '0' <= (
        #[trigger] before.push(digit)[i]) <= '9' by {
            if i < before.len() {
                assert('0' <= before[i] <= '9');
            }
        }
    }
}

proof fn lemma_digits_behind_others(first: Seq<char>, second: Seq<char>)
    requires
        text::all_digits(second),
    ensures
        text::digits_value(first + second) == text::digits_value(first) * decimal_scale(
            second.len(),
        ) + text::digits_value(second),
    decreases second.len(),
{
    if second.len() > 0 {
        let fewer = second.drop_last();
        let digit = second.last();
        assert forall|i: int| 0 <= i < fewer.len() implies '0' <= (#[trigger] fewer[i]) <= '9' by {
            assert(fewer[i] == second[i]);
        }
        assert('0' <= second[second.len() - 1] <= '9');
        lemma_digits_behind_others(first, fewer);
        assert(first + second =~= (first + fewer).push(digit));
        assert(second =~= fewer.push(digit));
        text::lemma_digits_count_by_tens(first + fewer, digit);
        text::lemma_digits_count_by_tens(fewer, digit);
        let value = text::digits_value(first);
        let scale = decimal_scale(fewer.len());
        assert(decimal_scale(second.len()) == 10 * scale);
        assert(10 * (value * scale) == value * (10 * scale)) by (nonlinear_arith);
    } else {
        assert(first + second =~= first);
        assert(decimal_scale(0) == 1);
        assert(second =~= Seq::<char>::empty());
        assert(text::digits_value(second) == 0);
    }
}

proof fn lemma_rounding_is_nearest(num: nat, den: nat)
    requires
        den > 0,
    ensures
        -(den as int) <= 2 * (nearest_even(num, den) * den - num) <= den,
{
    let quotient = num / den;
    let rest = num % den;
    vstd::arithmetic::div_mod::lemma_fundamental_div_mod(num as int, den as int);
    assert(den * quotient == quotient * den) by (nonlinear_arith);
    assert((quotient + 1) * den == quotient * den + den) by (nonlinear_arith);
}

proof fn lemma_scale_is_a_power_of_ten(decimals: nat)
    ensures
        decimal_scale(decimals) == vstd::arithmetic::power::pow(10, decimals),
    decreases decimals,
{
    reveal(vstd::arithmetic::power::pow);
    if decimals > 0 {
        lemma_scale_is_a_power_of_ten((decimals - 1) as nat);
    }
}

/// A number is written with exactly as many decimals as were asked for, behind a
/// point, and its digits are those of the exact value in units of the last
/// decimal, off by no more than half a unit; a minus sign stands before a
/// negative one.
pub proof fn lemma_decimals_are_the_nearest(value: Binary32, decimals: nat)
    requires
        value.finite(),
    ensures
        exists|whole: Seq<char>, part: Seq<char>|
            {
                let exact = binary32::magnitude_units(value.magnitude())
                    * vstd::arithmetic::power::pow(10, decimals);
                let shown = text::digits_value(#[trigger] (whole + part)) * pow2(149);
                &&& whole.len() > 0 && text::all_digits(whole)
                &&& part.len() == decimals && text::all_digits(part)
                &&& fixed_text(value, decimals) == (if value.negative() {
                    seq!['-']
                } else {
                    Seq::empty()
                }) + whole + (if decimals > 0 {
                    seq!['.']
                } else {
                    Seq::empty()
                }) + part
                &&& -(pow2(149) as int) <= 2 * (shown - exact) <= pow2(149)
            },
{
    let number = rounded_magnitude(value.magnitude(), decimals);
    let scale = decimal_scale(decimals);
    let whole = text::decimal_digits(number / scale);
    let part = padded_digits(number % scale, decimals);
    lemma_scale_is_positive(decimals);
    lemma_scale_is_a_power_of_ten(decimals);
    text::lemma_decimal_digits(number / scale);
    lemma_padded_digits_count(number % scale, decimals);
    lemma_digits_behind_others(whole, part);
    vstd::arithmetic::div_mod::lemma_fundamental_div_mod(number as int, scale as int);
    assert(scale * (number / scale) == (number / scale) * scale) by (nonlinear_arith);
    assert(text::digits_value(whole + part) == number);
    lemma_pow2_pos(149);
    lemma_rounding_is_nearest(binary32::magnitude_units(value.magnitude()) * scale, pow2(149));
    let sign = if value.negative() {
        seq!['-']
    } else {
        Seq::<char>::empty()
    };
    let point = if decimals > 0 {
        seq!['.']
    } else {
        Seq::<char>::empty()
    };
    assert(fixed_text(value, decimals) =~= sign + whole + point + part);
}

/// With its sign spelled out, a number that is not negative has a plus sign, and
/// is otherwise written as ever.
pub proof fn lemma_explicit_signs(value: Binary32, decimals: nat)
    ensures
        value.finite() && !value.negative() ==> explicit_text(value, decimals) == seq!['+']
            + fixed_text(value, decimals),
        value.negative() ==> explicit_text(value, decimals) == fixed_text(value, decimals),
        value.nan() ==> fixed_text(value, decimals) == seq!['N', 'a', 'N'],
{
}

} // verus!
