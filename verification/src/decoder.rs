//! The incremental decoder on plain bytes.
//!
//! The decoder keeps no state between calls: it reads the buffer from its
//! first byte each time and either finds one whole message, asks for more
//! bytes, or rejects the buffer.

use vstd::prelude::*;
use crate::bytes::append_span;
use crate::error::DecodeError;
use crate::message::{field_views, lemma_field_views_push, Message};
use crate::wire::{
    decimal_value, decoded, digits_end, escape_at, lemma_decimal_value_grows,
    lemma_digits_end_bounds, scan, Outcome, Token, CARRIAGE_RETURN, ESCAPE_CLOSE, ESCAPE_OPEN,
    LINE_FEED, SPACE,
};

verus! {

/// What [`parse_message`] returns, in the terms of the wire model.
pub open spec fn outcome_of(result: Result<Option<(Message, usize)>, DecodeError>) -> Outcome {
    match result {
        Ok(Some((message, consumed))) => Outcome::Complete {
            fields: message@,
            consumed: consumed as int,
        },
        Ok(None) => Outcome::Incomplete,
        Err(error) => Outcome::Malformed { error },
    }
}

/// An escape header as the decoder reads it.
enum Header {
    /// The payload lies in `start..end`, inside the input.
    Payload { start: usize, end: usize },
    /// The input ends inside the header or inside the payload.
    Truncated,
    /// The header is not one.
    Invalid { error: DecodeError },
}

impl Header {
    /// The token that this header stands for.
    spec fn token(self) -> Token {
        match self {
            Header::Payload { start, end } => Token::Escape {
                start: start as int,
                len: end - start,
            },
            Header::Truncated => Token::Truncated,
            Header::Invalid { error } => Token::Invalid { error },
        }
    }
}

/// Reads the escape header whose brace stands at `open`.
fn read_header(input: &[u8], open: usize) -> (header: Header)
    requires
        open < input@.len(),
    ensures
        header.token() == escape_at(input@, open as int),
        header matches Header::Payload { start, end } ==> open < start <= end <= input@.len(),
{
    let n: usize = input.len();
    let first: usize = open + 1;
    let mut at: usize = first;
    let mut len: usize = 0;
    assert(input@.subrange(first as int, first as int) =~= Seq::<u8>::empty());
    while at < n && input[at] >= 0x30 && input[at] <= 0x39
        invariant
            n == input@.len(),
            first == open + 1,
            first <= at <= n,
            len == decimal_value(input@.subrange(first as int, at as int)),
            digits_end(input@, first as int) == digits_end(input@, at as int),
        decreases n - at,
    {
        let digit: usize = (input[at] - 0x30) as usize;
        proof {
            let grown = input@.subrange(first as int, at + 1);
            assert(grown.drop_last() =~= input@.subrange(first as int, at as int));
            assert(decimal_value(grown) == len * 10 + digit);
            lemma_digits_end_bounds(input@, at + 1);
            lemma_decimal_value_grows(
                input@,
                first as int,
                at + 1,
                digits_end(input@, first as int),
            );
        }
        let tens: usize = match len.checked_mul(10) {
            Some(tens) => tens,
            None => {
                return Header::Invalid { error: DecodeError::LengthOverflow };
            },
        };
        len = match tens.checked_add(digit) {
            Some(sum) => sum,
            None => {
                return Header::Invalid { error: DecodeError::LengthOverflow };
            },
        };
        at += 1;
    }
    if at >= n {
        return Header::Truncated;
    }
    if input[at] != ESCAPE_CLOSE {
        return Header::Invalid { error: DecodeError::IllegalLengthCharacter };
    }
    let start: usize = at + 1;
    if len > n - start {
        return Header::Truncated;
    }
    Header::Payload { start, end: start + len }
}

/// Looks for one whole message at the start of `input`.
///
/// - `Ok(Some((message, consumed)))`: the first `consumed` bytes, through
///   the terminating line feed, are one message with these fields. A line
///   that holds nothing but its terminator is a message of one empty field.
/// - `Ok(None)`: the input is the beginning of a message and more bytes are
///   needed. An escaped payload that reaches exactly to the end of the input
///   is taken in, but the message is still open, so the answer is the same
///   as if the payload were cut short.
/// - `Err(error)`: the input is malformed, in the way that `error` names.
///
/// Which of the three it is, and with what fields and count, is exactly what
/// [`decoded`] says of the input's bytes.
pub fn parse_message(input: &[u8]) -> (result: Result<Option<(Message, usize)>, DecodeError>)
    ensures
        outcome_of(result) == decoded(input@),
        result matches Ok(Some((_, consumed))) ==> {
            &&& 0 < consumed <= input@.len()
            &&& input@[consumed - 1] == LINE_FEED
        },
{
    let n: usize = input.len();
    let mut fields: Vec<Vec<u8>> = Vec::new();
    let mut current: Vec<u8> = Vec::new();
    let mut at: usize = 0;
    assert(field_views(fields@) =~= Seq::<Seq<u8>>::empty());
    while at < n
        invariant
            n == input@.len(),
            at <= n,
            decoded(input@) == scan(input@, at as int, field_views(fields@), current@),
        decreases n - at,
    {
        let byte: u8 = input[at];
        if byte == SPACE {
            proof {
                lemma_field_views_push(fields@, current);
            }
            fields.push(current);
            current = Vec::new();
            at += 1;
        } else if byte == LINE_FEED {
            proof {
                lemma_field_views_push(fields@, current);
            }
            fields.push(current);
            return Ok(Some((Message { fields }, at + 1)));
        } else if byte == CARRIAGE_RETURN {
            if at + 1 >= n {
                return Ok(None);
            }
            if input[at + 1] != LINE_FEED {
                return Err(DecodeError::MissingLineFeed);
            }
            proof {
                lemma_field_views_push(fields@, current);
            }
            fields.push(current);
            return Ok(Some((Message { fields }, at + 2)));
        } else if byte == ESCAPE_OPEN {
            match read_header(input, at) {
                Header::Payload { start, end } => {
                    append_span(&mut current, input, start, end);
                    at = end;
                },
                Header::Truncated => {
                    return Ok(None);
                },
                Header::Invalid { error } => {
                    return Err(error);
                },
            }
        } else {
            current.push(byte);
            at += 1;
        }
    }
    Ok(None)
}

} // verus!
