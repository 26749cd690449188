//! Text handling: the small part of string processing that the protocol needs,
//! stated over sequences of characters.

use vstd::prelude::*;
use vstd::string::*;
use vstd::utf8::*;

verus! {

/// `String::push` appends one character to the end.
pub assume_specification[ String::push ](buffer: &mut String, c: char)
    ensures
        final(buffer)@ == old(buffer)@.push(c),
;

/// The characters with the Unicode property White_Space.
pub open spec fn white_space(c: char) -> bool {
    ||| '\u{9}' <= c <= '\u{d}'
    ||| c == ' '
    ||| c == '\u{85}'
    ||| c == '\u{a0}'
    ||| c == '\u{1680}'
    ||| '\u{2000}' <= c <= '\u{200a}'
    ||| c == '\u{2028}'
    ||| c == '\u{2029}'
    ||| c == '\u{202f}'
    ||| c == '\u{205f}'
    ||| c == '\u{3000}'
}

pub fn is_white_space(c: char) -> (white: bool)
    ensures
        white == white_space(c),
{
    ('\u{9}' <= c && c <= '\u{d}') || c == ' ' || c == '\u{85}' || c == '\u{a0}' || c == '\u{1680}'
        || ('\u{2000}' <= c && c <= '\u{200a}') || c == '\u{2028}' || c == '\u{2029}' || c
        == '\u{202f}' || c == '\u{205f}' || c == '\u{3000}'
}

/// Nothing but white space.
pub open spec fn only_white_space(text: Seq<char>) -> bool {
    forall|i: int| 0 <= i < text.len() ==> white_space(#[trigger] text[i])
}

/// The characters of a text.
pub fn chars_of(text: &str) -> (chars: Vec<char>)
    ensures
        chars@ == text@,
{
    let mut chars: Vec<char> = Vec::new();
    for c in iter: text.chars()
        invariant
            chars@ == iter.seq().take(iter.index() as int),
            iter.seq() == text@,
    {
        chars.push(c);
    }
    chars
}


/// The text made of the characters from `from` up to `to`.
pub fn text_of(chars: &Vec<char>, from: usize, to: usize) -> (text: String)
    requires
        from <= to <= chars@.len(),
    ensures
        text@ == chars@.subrange(from as int, to as int),
{
    let mut text: String = String::new();
    let mut at: usize = from;
    while at < to
        invariant
            from <= at <= to <= chars@.len(),
            text@ == chars@.subrange(from as int, at as int),
        decreases to - at,
    {
        text.push(chars[at]);
        at = at + 1;
        assert(chars@.subrange(from as int, at as int) =~= chars@.subrange(
            from as int,
            at - 1,
        ).push(chars@[at - 1]));
    }
    text
}

/// Whether two texts are the same.
pub fn same_text(left: &str, right: &str) -> (same: bool)
    ensures
        same == (left@ == right@),
{
    let a: &[u8] = left.as_bytes();
    let b: &[u8] = right.as_bytes();
    proof {
        encode_utf8_decode_utf8(left@);
        encode_utf8_decode_utf8(right@);
        assert(a@ == encode_utf8(left@));
        assert(b@ == encode_utf8(right@));
    }
    if a.len() != b.len() {
        return false;
    }
    let mut at: usize = 0;
    while at < a.len()
        invariant
            a@.len() == b@.len(),
            at <= a@.len(),
            forall|i: int| 0 <= i < at ==> a@[i] == b@[i],
            left@ == right@ ==> a@ == b@,
        decreases a@.len() - at,
    {
        if a[at] != b[at] {
            return false;
        }
        at = at + 1;
    }
    assert(a@ =~= b@);
    true
}

/// Whether a text holds nothing but white space.
pub fn is_blank(text: &str) -> (blank: bool)
    ensures
        blank == only_white_space(text@),
{
    let chars: Vec<char> = chars_of(text);
    let mut at: usize = 0;
    while at < chars.len()
        invariant
            chars@ == text@,
            at <= chars@.len(),
            forall|i: int| 0 <= i < at ==> white_space(#[trigger] chars@[i]),
        decreases chars@.len() - at,
    {
        if !is_white_space(chars[at]) {
            return false;
        }
        at = at + 1;
    }
    true
}

/// A text without the white space at its start.
pub open spec fn without_leading(text: Seq<char>) -> Seq<char>
    decreases text.len(),
{
    if text.len() > 0 && white_space(text[0]) {
        without_leading(text.drop_first())
    } else {
        text
    }
}

/// A text without the white space at its end.
pub open spec fn without_trailing(text: Seq<char>) -> Seq<char>
    decreases text.len(),
{
    if text.len() > 0 && white_space(text.last()) {
        without_trailing(text.drop_last())
    } else {
        text
    }
}

/// A text without the white space around it.
pub open spec fn trimmed(text: Seq<char>) -> Seq<char> {
    without_trailing(without_leading(text))
}

/// The text without the white space around it.
pub fn trim(text: &str) -> (inner: String)
    ensures
        inner@ == trimmed(text@),
{
    let chars: Vec<char> = chars_of(text);
    let mut from: usize = 0;
    assert(chars@.skip(0) =~= chars@);
    while from < chars.len() && is_white_space(chars[from])
        invariant
            from <= chars@.len(),
            without_leading(chars@) == without_leading(chars@.skip(from as int)),
        decreases chars@.len() - from,
    {
        assert(chars@.skip(from as int).drop_first() =~= chars@.skip(from + 1));
        from = from + 1;
    }
    let mut to: usize = chars.len();
    assert(chars@.skip(from as int) =~= chars@.subrange(from as int, to as int));
    while from < to && is_white_space(chars[to - 1])
        invariant
            from <= to <= chars@.len(),
            without_leading(chars@) == chars@.skip(from as int),
            without_trailing(chars@.skip(from as int)) == without_trailing(
                chars@.subrange(from as int, to as int),
            ),
        decreases to,
    {
        assert(chars@.subrange(from as int, to as int).drop_last() =~= chars@.subrange(
            from as int,
            to - 1,
        ));
        to = to - 1;
    }
    text_of(&chars, from, to)
}

/// `text` begins with `prefix`.
pub open spec fn begins_with(text: Seq<char>, prefix: Seq<char>) -> bool {
    prefix.len() <= text.len() && text.take(prefix.len() as int) == prefix
}

/// What follows `prefix` in `text`, if `text` begins with it.
pub fn strip_prefix(text: &str, prefix: &str) -> (rest: Option<String>)
    ensures
        match rest {
            Some(rest) => begins_with(text@, prefix@) && rest@ == text@.skip(prefix@.len() as int),
            None => !begins_with(text@, prefix@),
        },
{
    let chars: Vec<char> = chars_of(text);
    let start: Vec<char> = chars_of(prefix);
    if chars.len() < start.len() {
        return None;
    }
    let mut at: usize = 0;
    while at < start.len()
        invariant
            chars@ == text@,
            start@ == prefix@,
            start@.len() <= chars@.len(),
            at <= start@.len(),
            forall|i: int| 0 <= i < at ==> chars@[i] == start@[i],
        decreases start@.len() - at,
    {
        if chars[at] != start[at] {
            assert(chars@.take(start@.len() as int)[at as int] != start@[at as int]);
            return None;
        }
        at = at + 1;
    }
    assert(chars@.take(start@.len() as int) =~= start@);
    let length: usize = chars.len();
    let rest: String = text_of(&chars, start.len(), length);
    assert(chars@.subrange(start@.len() as int, length as int) =~= chars@.skip(
        start@.len() as int,
    ));
    Some(rest)
}

/// The position of the first newline, or the length of the text.
pub open spec fn line_end(text: Seq<char>) -> nat
    decreases text.len(),
{
    if text.len() == 0 || text[0] == '\n' {
        0
    } else {
        1 + line_end(text.drop_first())
    }
}

/// A line without the carriage return that was part of its ending.
pub open spec fn without_return(line: Seq<char>) -> Seq<char> {
    if line.len() > 0 && line.last() == '\r' {
        line.drop_last()
    } else {
        line
    }
}

/// The lines of a text, without their endings; the ending of the last one is
/// optional.
pub open spec fn lines_of(text: Seq<char>) -> Seq<Seq<char>>
    decreases text.len(),
{
    if text.len() == 0 {
        Seq::empty()
    } else {
        let end = line_end(text) as int;
        if end >= text.len() {
            seq![text]
        } else {
            seq![without_return(text.take(end))] + lines_of(text.skip(end + 1))
        }
    }
}

proof fn lemma_line_end(text: Seq<char>, end: nat)
    requires
        end <= text.len(),
        forall|i: int| 0 <= i < end ==> text[i] != '\n',
        end < text.len() ==> text[end as int] == '\n',
    ensures
        line_end(text) == end,
    decreases text.len(),
{
    if end > 0 {
        lemma_line_end(text.drop_first(), (end - 1) as nat);
    }
}

/// The texts in a sequence.
pub open spec fn texts(parts: Seq<String>) -> Seq<Seq<char>> {
    parts.map_values(|part: String| part@)
}

/// Splits a text into lines.
pub fn lines(text: &str) -> (lines: Vec<String>)
    ensures
        texts(lines@) == lines_of(text@),
{
    let chars: Vec<char> = chars_of(text);
    let mut lines: Vec<String> = Vec::new();
    let mut from: usize = 0;
    assert(chars@.skip(0) =~= chars@);
    assert(texts(lines@) + lines_of(chars@) =~= lines_of(chars@));
    while from < chars.len()
        invariant
            chars@ == text@,
            from <= chars@.len(),
            texts(lines@) + lines_of(chars@.skip(from as int)) == lines_of(text@),
        decreases chars@.len() - from,
    {
        let ghost rest = chars@.skip(from as int);
        let ghost done = texts(lines@);
        let mut end: usize = from;
        while end < chars.len() && chars[end] != '\n'
            invariant
                from <= end <= chars@.len(),
                forall|i: int| from <= i < end ==> chars@[i] != '\n',
            decreases chars@.len() - end,
        {
            end = end + 1;
        }
        proof {
            lemma_line_end(rest, (end - from) as nat);
            assert(rest.take(end - from) =~= chars@.subrange(from as int, end as int));
        }
        if end >= chars.len() {
            let line: String = text_of(&chars, from, end);
            assert(line@ =~= rest);
            lines.push(line);
            from = end;
            assert(texts(lines@) =~= done.push(line@));
            assert(chars@.skip(from as int) =~= Seq::<char>::empty());
            assert(done + seq![rest] =~= texts(lines@) + lines_of(chars@.skip(from as int)));
        } else {
            let stop: usize = if from < end && chars[end - 1] == '\r' {
                end - 1
            } else {
                end
            };
            let line: String = text_of(&chars, from, stop);
            assert(line@ =~= without_return(rest.take(end - from)));
            lines.push(line);
            from = end + 1;
            assert(texts(lines@) =~= done.push(line@));
            assert(chars@.skip(from as int) =~= rest.skip(line_end(rest) as int + 1));
            assert(texts(lines@) + lines_of(chars@.skip(from as int)) =~= done + (seq![line@]
                + lines_of(chars@.skip(from as int))));
        }
    }
    assert(chars@.skip(from as int) =~= Seq::<char>::empty());
    assert(texts(lines@) + Seq::<Seq<char>>::empty() =~= texts(lines@));
    lines
}

/// Texts put together with a separator between them.
pub open spec fn joined(parts: Seq<Seq<char>>, separator: Seq<char>) -> Seq<char>
    decreases parts.len(),
{
    if parts.len() == 0 {
        Seq::empty()
    } else if parts.len() == 1 {
        parts[0]
    } else {
        joined(parts.drop_last(), separator) + separator + parts.last()
    }
}

/// Puts texts together with a separator between them.
pub fn join(parts: &Vec<String>, separator: &str) -> (text: String)
    ensures
        text@ == joined(texts(parts@), separator@),
{
    let mut text: String = String::new();
    let mut at: usize = 0;
    while at < parts.len()
        invariant
            at <= parts@.len(),
            text@ == joined(texts(parts@).take(at as int), separator@),
        decreases parts@.len() - at,
    {
        let ghost all = texts(parts@);
        assert(all.take(at + 1).drop_last() =~= all.take(at as int));
        assert(all.take(at + 1).last() == parts@[at as int]@);
        if at > 0 {
            text.append(separator);
        }
        text.append(parts[at].as_str());
        proof {
            if at == 0 {
                assert(text@ =~= parts@[0]@);
            }
        }
        at = at + 1;
    }
    assert(texts(parts@).take(at as int) =~= texts(parts@));
    text
}

/// The character of a decimal or hexadecimal digit.
pub open spec fn digit_char(digit: nat) -> char {
    if digit < 10 {
        (48 + digit) as char
    } else {
        (87 + digit) as char
    }
}

fn digit_of(digit: u64) -> (c: char)
    requires
        digit < 16,
    ensures
        c == digit_char(digit as nat),
{
    if digit < 10 {
        (48 + digit as u8) as char
    } else {
        (87 + digit as u8) as char
    }
}

/// A number in decimal digits.
pub open spec fn decimal_digits(number: nat) -> Seq<char>
    decreases number,
{
    if number < 10 {
        seq![digit_char(number)]
    } else {
        decimal_digits(number / 10).push(digit_char(number % 10))
    }
}

/// Writes a number in decimal digits.
pub fn decimal(number: u64) -> (text: String)
    ensures
        text@ == decimal_digits(number as nat),
{
    wide_decimal(number as u128)
}

/// Writes a large number in decimal digits.
pub fn wide_decimal(number: u128) -> (text: String)
    ensures
        text@ == decimal_digits(number as nat),
    decreases number,
{
    if number < 10 {
        let mut text: String = String::new();
        text.push(digit_of(number as u64));
        assert(text@ =~= seq![digit_char(number as nat)]);
        text
    } else {
        let mut text: String = wide_decimal(number / 10);
        text.push(digit_of((number % 10) as u64));
        text
    }
}

/// An integer in decimal, with a minus sign where it is negative.
pub open spec fn signed_digits(number: int) -> Seq<char> {
    if number < 0 {
        seq!['-'] + decimal_digits((-number) as nat)
    } else {
        decimal_digits(number as nat)
    }
}

/// Writes an integer in decimal.
pub fn signed_decimal(number: i64) -> (text: String)
    ensures
        text@ == signed_digits(number as int),
{
    if number < 0 {
        let magnitude: u64 = (-(number as i128)) as u64;
        let mut text: String = String::new();
        text.push('-');
        text.append(decimal(magnitude).as_str());
        assert(text@ =~= signed_digits(number as int));
        text
    } else {
        decimal(number as u64)
    }
}

/// The low digits of a number in base sixteen.
pub open spec fn hex_digits(number: nat, width: nat) -> Seq<char>
    decreases width,
{
    if width == 0 {
        Seq::empty()
    } else {
        hex_digits(number / 16, (width - 1) as nat).push(digit_char(number % 16))
    }
}

/// Writes the low digits of a number in base sixteen, padded with zeros.
pub fn hex(number: u64, width: u32) -> (text: String)
    ensures
        text@ == hex_digits(number as nat, width as nat),
    decreases width,
{
    if width == 0 {
        String::new()
    } else {
        let mut text: String = hex(number / 16, width - 1);
        text.push(digit_of(number % 16));
        text
    }
}

/// Only decimal digits.
pub open spec fn all_digits(text: Seq<char>) -> bool {
    forall|i: int| 0 <= i < text.len() ==> '0' <= #[trigger] text[i] <= '9'
}

/// The number that decimal digits stand for.
pub open spec fn digits_value(text: Seq<char>) -> nat
    decreases text.len(),
{
    if text.len() == 0 {
        0
    } else {
        10 * digits_value(text.drop_last()) + (text.last() as nat - 48) as nat
    }
}

/// The number that a text writes out, if it is one of at most `max`: decimal
/// digits, with an optional plus sign before them.
pub open spec fn unsigned_value(text: Seq<char>, max: nat) -> Option<nat> {
    let digits = if text.len() > 0 && text[0] == '+' {
        text.drop_first()
    } else {
        text
    };
    if digits.len() > 0 && all_digits(digits) && digits_value(digits) <= max {
        Some(digits_value(digits))
    } else {
        None
    }
}

proof fn lemma_more_digits_are_larger(text: Seq<char>, count: int)
    requires
        all_digits(text),
        0 <= count <= text.len(),
    ensures
        digits_value(text.take(count)) <= digits_value(text),
    decreases text.len(),
{
    if count < text.len() {
        assert(text.drop_last().take(count) =~= text.take(count));
        lemma_more_digits_are_larger(text.drop_last(), count);
    } else {
        assert(text.take(count) =~= text);
    }
}

/// Reads a number of at most `max`.
pub fn parse_unsigned(text: &str, max: u64) -> (number: Option<u64>)
    ensures
        match number {
            Some(number) => unsigned_value(text@, max as nat) == Some(number as nat),
            None => unsigned_value(text@, max as nat) is None,
        },
{
    let chars: Vec<char> = chars_of(text);
    let start: usize = if chars.len() > 0 && chars[0] == '+' {
        1
    } else {
        0
    };
    let ghost digits = chars@.skip(start as int);
    assert(start == 0 ==> digits =~= text@);
    assert(start == 1 ==> digits =~= text@.drop_first());
    if chars.len() == start {
        return None;
    }
    let mut number: u64 = 0;
    let mut at: usize = start;
    assert(digits.take(0) =~= Seq::<char>::empty());
    while at < chars.len()
        invariant
            start <= at <= chars@.len(),
            digits == chars@.skip(start as int),
            forall|i: int| 0 <= i < at - start ==> '0' <= #[trigger] digits[i] <= '9',
            number == digits_value(digits.take(at - start)),
            number <= max,
            unsigned_value(text@, max as nat) == (if digits.len() > 0 && all_digits(digits)
                && digits_value(digits) <= max {
                Some(digits_value(digits))
            } else {
                None
            }),
        decreases chars@.len() - at,
    {
        let c: char = chars[at];
        assert(digits[at - start] == c);
        if !('0' <= c && c <= '9') {
            return None;
        }
        let digit: u64 = c as u64 - 48;
        let ghost longer = digits.take(at + 1 - start);
        assert(longer.drop_last() =~= digits.take(at - start));
        let next: u128 = 10 * number as u128 + digit as u128;
        if next > max as u128 {
            proof {
                if all_digits(digits) {
                    lemma_more_digits_are_larger(digits, at + 1 - start);
                }
            }
            return None;
        }
        number = next as u64;
        at = at + 1;
    }
    assert(digits.take(at - start) =~= digits);
    Some(number)
}

/// Writing a number out and reading it back gives the number.
pub proof fn lemma_decimal_round_trip(number: nat, max: nat)
    requires
        number <= max,
    ensures
        unsigned_value(decimal_digits(number), max) == Some(number),
{
    lemma_decimal_digits(number);
}

/// The decimal digits of a number stand for it.
pub proof fn lemma_decimal_digits(number: nat)
    ensures
        decimal_digits(number).len() > 0,
        all_digits(decimal_digits(number)),
        digits_value(decimal_digits(number)) == number,
    decreases number,
{
    let digits = decimal_digits(number);
    if number < 10 {
        assert(digits.drop_last() =~= Seq::<char>::empty());
        assert(digits_value(digits.drop_last()) == 0);
        assert(digits.last() as nat == 48 + number);
    } else {
        lemma_decimal_digits(number / 10);
        assert(digits.drop_last() =~= decimal_digits(number / 10));
    }
}

proof fn lemma_leading(text: Seq<char>) -> (cut: int)
    ensures
        0 <= cut <= text.len(),
        without_leading(text) == text.skip(cut),
        forall|i: int| 0 <= i < cut ==> white_space(#[trigger] text[i]),
        cut < text.len() ==> !white_space(text[cut]),
    decreases text.len(),
{
    if text.len() > 0 && white_space(text[0]) {
        let rest = text.drop_first();
        let cut = lemma_leading(rest);
        assert(rest.skip(cut) =~= text.skip(cut + 1));
        assert forall|i: int| 0 <= i < cut + 1 implies white_space(#[trigger] text[i]) by {
            if i > 0 {
                assert(rest[i - 1] == text[i]);
            }
        }
        cut + 1
    } else {
        assert(text.skip(0) =~= text);
        0
    }
}

proof fn lemma_trailing(text: Seq<char>) -> (kept: int)
    ensures
        0 <= kept <= text.len(),
        without_trailing(text) == text.take(kept),
        forall|i: int| kept <= i < text.len() ==> white_space(#[trigger] text[i]),
        kept > 0 ==> !white_space(text[kept - 1]),
    decreases text.len(),
{
    if text.len() > 0 && white_space(text.last()) {
        let rest = text.drop_last();
        let kept = lemma_trailing(rest);
        assert(rest.take(kept) =~= text.take(kept));
        assert forall|i: int| kept <= i < text.len() implies white_space(#[trigger] text[i]) by {
            if i < rest.len() {
                assert(rest[i] == text[i]);
            }
        }
        kept
    } else {
        assert(text.take(text.len() as int) =~= text);
        text.len() as int
    }
}

/// Trimming cuts white space off both ends, all of it, and nothing else.
pub proof fn lemma_trimming_cuts_white_space_off_the_ends(text: Seq<char>)
    ensures
        exists|start: int, end: int|
            0 <= start <= end <= text.len() && trimmed(text) == #[trigger] text.subrange(
                start,
                end,
            ) && (forall|i: int|
                0 <= i < start || end <= i < text.len() ==> white_space(#[trigger] text[i])) && (
            start < end ==> !white_space(text[start]) && !white_space(text[end - 1])),
{
    let start = lemma_leading(text);
    let rest = text.skip(start);
    let kept = lemma_trailing(rest);
    let end = start + kept;
    assert(trimmed(text) =~= text.subrange(start, end));
    assert forall|i: int| 0 <= i < start || end <= i < text.len() implies white_space(
        #[trigger] text[i],
    ) by {
        if i >= end {
            assert(rest[i - start] == text[i]);
        }
    }
    if start < end {
        assert(rest[0] == text[start]);
        assert(rest[kept - 1] == text[end - 1]);
    }
}

/// The texts are those of the strings, in their order.
pub proof fn lemma_texts(parts: Seq<String>, at: int)
    requires
        0 <= at < parts.len(),
    ensures
        texts(parts).len() == parts.len(),
        texts(parts)[at] == parts[at]@,
{
}

/// Putting texts together keeps all of them in their order, with the separator
/// between each two and nowhere else.
pub proof fn lemma_joining_keeps_every_part(
    parts: Seq<Seq<char>>,
    last: Seq<char>,
    separator: Seq<char>,
)
    ensures
        joined(Seq::empty(), separator) == Seq::<char>::empty(),
        joined(seq![last], separator) == last,
        parts.len() > 0 ==> joined(parts.push(last), separator) == joined(parts, separator)
            + separator + last,
{
    if parts.len() > 0 {
        assert(parts.push(last).drop_last() =~= parts);
    }
}

/// The first line of a text reaches to its first line break, a carriage return
/// before the break belongs to it, and the other lines are those of the rest; a
/// text without a line break is one line.
pub proof fn lemma_lines_end_at_line_breaks(line: Seq<char>, rest: Seq<char>)
    requires
        forall|i: int| 0 <= i < line.len() ==> #[trigger] line[i] != '\n',
    ensures
        lines_of(Seq::empty()) == Seq::<Seq<char>>::empty(),
        line.len() > 0 ==> lines_of(line) == seq![line],
        line.len() == 0 || line.last() != '\r' ==> lines_of(line.push('\n') + rest) == seq![line]
            + lines_of(rest),
        line.len() > 0 && line.last() == '\r' ==> lines_of(line.push('\n') + rest)
            == seq![line.drop_last()] + lines_of(rest),
{
    let text = line.push('\n') + rest;
    lemma_line_end(line, line.len());
    assert forall|i: int| 0 <= i < line.len() implies text[i] != '\n' by {
        assert(text[i] == line[i]);
    }
    lemma_line_end(text, line.len());
    assert(text.take(line.len() as int) =~= line);
    assert(text.skip(line.len() as int + 1) =~= rest);
}

/// A count is written in decimal digits alone, a plus sign before them or not,
/// and is no larger than it may be; every other text is no count.
pub proof fn lemma_what_is_a_count(text: Seq<char>, max: nat)
    ensures
        unsigned_value(text, max) is Some ==> unsigned_value(text, max)->0 <= max,
        text.len() == 0 ==> unsigned_value(text, max) is None,
        text == seq!['+'] ==> unsigned_value(text, max) is None,
        (exists|i: int|
            0 <= i < text.len() && !('0' <= (#[trigger] text[i]) <= '9') && (i > 0 || text[i]
                != '+')) ==> unsigned_value(text, max) is None,
        text.len() > 0 && all_digits(text) ==> unsigned_value(text, max) == (if digits_value(text)
            <= max {
            Some(digits_value(text))
        } else {
            None
        }) && unsigned_value(seq!['+'] + text, max) == unsigned_value(text, max),
{
    if text.len() > 0 && all_digits(text) {
        assert((seq!['+'] + text).drop_first() =~= text);
        assert('0' <= text[0]);
    }
    if text == seq!['+'] {
        assert(text.drop_first().len() == 0);
    }
    if exists|i: int|
        0 <= i < text.len() && !('0' <= (#[trigger] text[i]) <= '9') && (i > 0 || text[i] != '+') {
        let i = choose|i: int|
            0 <= i < text.len() && !('0' <= (#[trigger] text[i]) <= '9') && (i > 0 || text[i]
                != '+');
        if text[0] == '+' {
            assert(text.drop_first()[i - 1] == text[i]);
        }
    }
}

/// Each digit counts ten times as much as the one behind it.
pub proof fn lemma_digits_count_by_tens(text: Seq<char>, digit: char)
    requires
        '0' <= digit <= '9',
    ensures
        digits_value(Seq::empty()) == 0,
        digits_value(text.push(digit)) == 10 * digits_value(text) + (digit as int - '0' as int),
{
    assert(text.push(digit).drop_last() =~= text);
}

/// A negative number is written like its opposite, with a minus sign before it.
pub proof fn lemma_signed_numbers(number: int)
    ensures
        number >= 0 ==> signed_digits(number) == decimal_digits(number as nat),
        number < 0 ==> signed_digits(number) == seq!['-'] + decimal_digits((-number) as nat),
{
}

/// Within ASCII, white space is the space, the tab and the line breaks; no letter,
/// digit or punctuation mark is.
pub proof fn lemma_ascii_white_space(c: char)
    requires
        c as int <= 0x7f,
    ensures
        white_space(c) <==> c as int == 0x20 || 0x09 <= c as int <= 0x0d,
{
}

} // verus!
