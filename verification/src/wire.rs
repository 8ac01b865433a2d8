//! The wire grammar as a mathematical model.
//!
//! A message on the wire is a run of fields separated by single spaces and
//! ended by a line feed, which a carriage return may precede. Inside a field
//! every byte stands for itself except the four reserved bytes; a span that
//! holds reserved bytes travels behind an escape header `{N}`, where `N` is
//! the span's length in decimal.

use vstd::prelude::*;
use crate::error::DecodeError;

verus! {

/// Separates two fields.
pub const SPACE: u8 = 0x20;

/// Ends a message.
pub const LINE_FEED: u8 = 0x0A;

/// May stand directly before the line feed that ends a message.
pub const CARRIAGE_RETURN: u8 = 0x0D;

/// Opens an escape header.
pub const ESCAPE_OPEN: u8 = 0x7B;

/// Closes an escape header.
pub const ESCAPE_CLOSE: u8 = 0x7D;

/// The bytes that the grammar gives a meaning of their own: they cannot
/// stand verbatim inside a field.
pub open spec fn is_reserved(byte: u8) -> bool {
    byte == SPACE || byte == LINE_FEED || byte == CARRIAGE_RETURN || byte == ESCAPE_OPEN
}

/// Whether `byte` may stand verbatim inside a field.
pub fn is_safe_byte(byte: u8) -> (safe: bool)
    ensures
        safe == !is_reserved(byte),
{
    byte != CARRIAGE_RETURN && byte != LINE_FEED && byte != SPACE && byte != ESCAPE_OPEN
}

/// Whether `byte` is an ASCII decimal digit.
pub open spec fn is_digit(byte: u8) -> bool {
    0x30 <= byte <= 0x39
}

/// The number that a run of ASCII digits denotes, most significant first.
/// The empty run denotes zero. The value is not bounded by any machine type.
pub open spec fn decimal_value(digits: Seq<u8>) -> nat
    decreases digits.len(),
{
    if digits.len() == 0 {
        0
    } else {
        decimal_value(digits.drop_last()) * 10 + (digits.last() - 0x30) as nat
    }
}

/// The first position at or after `i` that holds no digit; the length of
/// `s` if the digits run to its end.
pub open spec fn digits_end(s: Seq<u8>, i: int) -> int
    decreases s.len() - i,
{
    if 0 <= i < s.len() && is_digit(s[i]) {
        digits_end(s, i + 1)
    } else {
        i
    }
}

/// What the decoder finds at one position of its input.
pub enum Token {
    /// A byte that stands for itself.
    Literal { byte: u8 },
    /// The space between two fields.
    Separator,
    /// The end of the message, `width` bytes wide: a line feed, or a
    /// carriage return and a line feed.
    Terminator { width: int },
    /// An escape sequence whose payload is the `len` bytes from `start` on.
    Escape { start: int, len: int },
    /// The input ends before the token does.
    Truncated,
    /// The input cannot be continued to a message.
    Invalid { error: DecodeError },
}

/// The escape sequence that opens at position `i`, where `s[i]` is `{`.
///
/// The digits after the brace give the payload's length; a run of no digits
/// counts as zero. A length beyond `usize::MAX` is an error as soon as the
/// digits read so far exceed it, whether or not the header is complete. The
/// byte after the digits must be `}`. The payload follows it and is taken
/// as it is, reserved bytes included.
pub open spec fn escape_at(s: Seq<u8>, i: int) -> Token {
    let close = digits_end(s, i + 1);
    let len = decimal_value(s.subrange(i + 1, close));
    if len > usize::MAX {
        Token::Invalid { error: DecodeError::LengthOverflow }
    } else if close >= s.len() {
        Token::Truncated
    } else if s[close] != ESCAPE_CLOSE {
        Token::Invalid { error: DecodeError::IllegalLengthCharacter }
    } else if close + 1 + len > s.len() {
        Token::Truncated
    } else {
        Token::Escape { start: close + 1, len: len as int }
    }
}

/// The token that starts at position `i` of `s`.
pub open spec fn token_at(s: Seq<u8>, i: int) -> Token
    recommends
        0 <= i < s.len(),
{
    let byte = s[i];
    if byte == SPACE {
        Token::Separator
    } else if byte == LINE_FEED {
        Token::Terminator { width: 1 }
    } else if byte == CARRIAGE_RETURN {
        if i + 1 >= s.len() {
            Token::Truncated
        } else if s[i + 1] == LINE_FEED {
            Token::Terminator { width: 2 }
        } else {
            Token::Invalid { error: DecodeError::MissingLineFeed }
        }
    } else if byte == ESCAPE_OPEN {
        escape_at(s, i)
    } else {
        Token::Literal { byte }
    }
}

/// What a buffer holds, read from its first byte.
pub enum Outcome {
    /// The first `consumed` bytes are one whole message with these fields.
    Complete { fields: Seq<Seq<u8>>, consumed: int },
    /// The buffer is the beginning of a message, but not all of it.
    Incomplete,
    /// The buffer is not the beginning of any message.
    Malformed { error: DecodeError },
}

/// Reads tokens from position `i` on. `fields` are the fields already
/// closed and `current` is the part of the open field read so far.
pub open spec fn scan(s: Seq<u8>, i: int, fields: Seq<Seq<u8>>, current: Seq<u8>) -> Outcome
    decreases s.len() - i,
    via scan_decreases
{
    if i < 0 || i >= s.len() {
        Outcome::Incomplete
    } else {
        match token_at(s, i) {
            Token::Literal { byte } => scan(s, i + 1, fields, current.push(byte)),
            Token::Separator => scan(s, i + 1, fields.push(current), Seq::empty()),
            Token::Terminator { width } => Outcome::Complete {
                fields: fields.push(current),
                consumed: i + width,
            },
            Token::Escape { start, len } => scan(
                s,
                start + len,
                fields,
                current + s.subrange(start, start + len),
            ),
            Token::Truncated => Outcome::Incomplete,
            Token::Invalid { error } => Outcome::Malformed { error },
        }
    }
}

#[via_fn]
proof fn scan_decreases(s: Seq<u8>, i: int, fields: Seq<Seq<u8>>, current: Seq<u8>) {
    if 0 <= i < s.len() {
        lemma_digits_end_bounds(s, i + 1);
    }
}

/// What the decoder makes of the buffered bytes `s`.
pub open spec fn decoded(s: Seq<u8>) -> Outcome {
    scan(s, 0, Seq::empty(), Seq::empty())
}

/// Whether a field holds a reserved byte, so that it cannot travel verbatim.
pub open spec fn needs_escape(field: Seq<u8>) -> bool {
    exists|i: int| 0 <= i < field.len() && is_reserved(#[trigger] field[i])
}

/// The decimal digits of `n` in ASCII, most significant first, without
/// leading zeros; zero is the single digit `0`.
pub open spec fn decimal_digits(n: nat) -> Seq<u8>
    decreases n,
{
    if n < 10 {
        seq![(0x30 + n) as u8]
    } else {
        decimal_digits(n / 10).push((0x30 + n % 10) as u8)
    }
}

/// One field on the wire: verbatim if it holds no reserved byte, else the
/// whole field behind one escape header that gives its length.
pub open spec fn encoded_field(field: Seq<u8>) -> Seq<u8> {
    if needs_escape(field) {
        seq![ESCAPE_OPEN] + decimal_digits(field.len()) + seq![ESCAPE_CLOSE] + field
    } else {
        field
    }
}

/// The fields on the wire, in order, with one space between neighbours.
pub open spec fn encoded_fields(fields: Seq<Seq<u8>>) -> Seq<u8>
    decreases fields.len(),
{
    if fields.len() == 0 {
        Seq::empty()
    } else if fields.len() == 1 {
        encoded_field(fields[0])
    } else {
        encoded_fields(fields.drop_last()) + seq![SPACE] + encoded_field(fields.last())
    }
}

/// A message on the wire: its fields and one line feed.
pub open spec fn encoded(fields: Seq<Seq<u8>>) -> Seq<u8> {
    encoded_fields(fields) + seq![LINE_FEED]
}

/// The run of digits from `i` on ends between `i` and the end of `s`,
/// holds digits only, and stops at a byte that is none.
pub proof fn lemma_digits_end_bounds(s: Seq<u8>, i: int)
    requires
        0 <= i <= s.len(),
    ensures
        i <= digits_end(s, i) <= s.len(),
        forall|k: int| i <= k < digits_end(s, i) ==> is_digit(#[trigger] s[k]),
        digits_end(s, i) < s.len() ==> !is_digit(s[digits_end(s, i)]),
    decreases s.len() - i,
{
    if i < s.len() && is_digit(s[i]) {
        lemma_digits_end_bounds(s, i + 1);
    }
}

/// A run of digits denotes at least what any of its prefixes denotes.
pub proof fn lemma_decimal_value_grows(s: Seq<u8>, from: int, mid: int, to: int)
    requires
        0 <= from <= mid <= to <= s.len(),
    ensures
        decimal_value(s.subrange(from, mid)) <= decimal_value(s.subrange(from, to)),
    decreases to - mid,
{
    if mid < to {
        lemma_decimal_value_grows(s, from, mid, to - 1);
        assert(s.subrange(from, to).drop_last() =~= s.subrange(from, to - 1));
    }
}

} // verus!
