//! What holds of the wire grammar: every statement here is about the model
//! in [`crate::wire`], which the contracts of the decoder and the encoder
//! are written in.

use vstd::prelude::*;
use crate::error::DecodeError;
use crate::message::Message;
use crate::wire::{
    decimal_digits, decimal_value, decoded, digits_end, encoded, encoded_field, encoded_fields,
    escape_at, is_digit, is_reserved, lemma_decimal_value_grows, lemma_digits_end_bounds,
    needs_escape, scan, token_at, Outcome, Token, ESCAPE_CLOSE, ESCAPE_OPEN, LINE_FEED, SPACE,
};

verus! {

/// Whether every field is short enough for its length to be a `usize`, as
/// the fields of every message in memory are.
pub open spec fn lengths_fit(fields: Seq<Seq<u8>>) -> bool {
    forall|k: int| 0 <= k < fields.len() ==> (#[trigger] fields[k]).len() <= usize::MAX
}

/// A scan that finds a message ends on a line feed inside the input, after
/// the position it started from, and closes at least one field.
pub proof fn lemma_scan_complete_within(
    s: Seq<u8>,
    i: int,
    fields: Seq<Seq<u8>>,
    current: Seq<u8>,
)
    requires
        0 <= i,
        scan(s, i, fields, current) is Complete,
    ensures
        i < scan(s, i, fields, current)->consumed <= s.len(),
        s[scan(s, i, fields, current)->consumed - 1] == LINE_FEED,
        scan(s, i, fields, current)->fields.len() > fields.len(),
    decreases s.len() - i,
{
    match token_at(s, i) {
        Token::Literal { byte } => {
            lemma_scan_complete_within(s, i + 1, fields, current.push(byte));
        },
        Token::Separator => {
            lemma_scan_complete_within(s, i + 1, fields.push(current), Seq::empty());
        },
        Token::Escape { start, len } => {
            lemma_digits_end_bounds(s, i + 1);
            lemma_scan_complete_within(
                s,
                start + len,
                fields,
                current + s.subrange(start, start + len),
            );
        },
        _ => {},
    }
}

/// A message that the decoder finds takes up at least one byte and no more
/// than the buffer holds, ends on a line feed, and has at least one field.
pub proof fn lemma_complete_within(s: Seq<u8>)
    requires
        decoded(s) is Complete,
    ensures
        0 < decoded(s)->consumed <= s.len(),
        s[decoded(s)->consumed - 1] == LINE_FEED,
        decoded(s)->fields.len() >= 1,
{
    lemma_scan_complete_within(s, 0, Seq::empty(), Seq::empty());
}

/// Bytes that arrive later do not shorten a run of digits, and do not touch
/// one that has already ended.
proof fn lemma_digits_end_append(s: Seq<u8>, t: Seq<u8>, i: int)
    requires
        0 <= i <= s.len(),
    ensures
        digits_end(s, i) < s.len() ==> digits_end(s + t, i) == digits_end(s, i),
        digits_end(s, i) >= s.len() ==> s.len() <= digits_end(s + t, i) <= (s + t).len(),
    decreases s.len() - i,
{
    lemma_digits_end_bounds(s + t, i);
    if i < s.len() {
        assert((s + t)[i] == s[i]);
        if is_digit(s[i]) {
            lemma_digits_end_append(s, t, i + 1);
        }
    }
}

/// A token that is whole in `s` is the same token when more bytes follow.
proof fn lemma_token_stable(s: Seq<u8>, t: Seq<u8>, i: int)
    requires
        0 <= i < s.len(),
        !(token_at(s, i) is Truncated),
    ensures
        token_at(s + t, i) == token_at(s, i),
{
    let st = s + t;
    assert(st[i] == s[i]);
    if s[i] == ESCAPE_OPEN {
        let close = digits_end(s, i + 1);
        let far = digits_end(st, i + 1);
        lemma_digits_end_bounds(s, i + 1);
        lemma_digits_end_append(s, t, i + 1);
        assert(st.subrange(i + 1, close) =~= s.subrange(i + 1, close));
        if decimal_value(s.subrange(i + 1, close)) > usize::MAX {
            lemma_decimal_value_grows(st, i + 1, close, far);
        } else {
            assert(close < s.len());
            assert(st[close] == s[close]);
        }
    } else if i + 1 < s.len() {
        assert(st[i + 1] == s[i + 1]);
    }
}

/// Once a scan has an answer, bytes that arrive later do not change it.
pub proof fn lemma_scan_stable(
    s: Seq<u8>,
    t: Seq<u8>,
    i: int,
    fields: Seq<Seq<u8>>,
    current: Seq<u8>,
)
    requires
        0 <= i,
        !(scan(s, i, fields, current) is Incomplete),
    ensures
        scan(s + t, i, fields, current) == scan(s, i, fields, current),
    decreases s.len() - i,
{
    lemma_token_stable(s, t, i);
    match token_at(s, i) {
        Token::Literal { byte } => {
            lemma_scan_stable(s, t, i + 1, fields, current.push(byte));
        },
        Token::Separator => {
            lemma_scan_stable(s, t, i + 1, fields.push(current), Seq::empty());
        },
        Token::Escape { start, len } => {
            lemma_digits_end_bounds(s, i + 1);
            assert((s + t).subrange(start, start + len) =~= s.subrange(start, start + len));
            lemma_scan_stable(s, t, start + len, fields, current + s.subrange(start, start + len));
        },
        _ => {},
    }
}

/// The decoder's answer is final once it is not "need more data": if the
/// buffer `s` decodes to a message or is malformed, then `s` followed by any
/// further bytes `t` decodes to the same message with the same count of
/// consumed bytes, or is malformed in the same way.
pub proof fn lemma_decoded_stable(s: Seq<u8>, t: Seq<u8>)
    requires
        !(decoded(s) is Incomplete),
    ensures
        decoded(s + t) == decoded(s),
{
    lemma_scan_stable(s, t, 0, Seq::empty(), Seq::empty());
}

/// A length in decimal is at least one digit, holds digits only, and
/// denotes the length it was written from.
pub proof fn lemma_decimal_digits(n: nat)
    ensures
        decimal_digits(n).len() >= 1,
        forall|k: int| 0 <= k < decimal_digits(n).len() ==> is_digit(#[trigger] decimal_digits(n)[k]),
        decimal_value(decimal_digits(n)) == n,
    decreases n,
{
    if n < 10 {
        let digits = decimal_digits(n);
        assert(digits.drop_last() =~= Seq::<u8>::empty());
        assert(decimal_value(digits.drop_last()) == 0);
    } else {
        lemma_decimal_digits(n / 10);
        let digits = decimal_digits(n);
        assert(digits.drop_last() =~= decimal_digits(n / 10));
    }
}

/// A run of `k` digits from `i` on that is followed by a byte that is no
/// digit, or by the end of the input, ends at `i + k`.
proof fn lemma_digits_end_run(s: Seq<u8>, i: int, k: int)
    requires
        0 <= i,
        0 <= k,
        i + k <= s.len(),
        forall|j: int| i <= j < i + k ==> is_digit(#[trigger] s[j]),
        i + k < s.len() ==> !is_digit(s[i + k]),
    ensures
        digits_end(s, i) == i + k,
    decreases k,
{
    if k > 0 {
        lemma_digits_end_run(s, i + 1, k - 1);
    }
}

/// Bytes that are not reserved are read as they stand, one by one.
proof fn lemma_scan_verbatim(
    s: Seq<u8>,
    i: int,
    k: int,
    fields: Seq<Seq<u8>>,
    current: Seq<u8>,
)
    requires
        0 <= i,
        0 <= k,
        i + k <= s.len(),
        forall|j: int| i <= j < i + k ==> !is_reserved(#[trigger] s[j]),
    ensures
        scan(s, i, fields, current) == scan(s, i + k, fields, current + s.subrange(i, i + k)),
    decreases k,
{
    if k == 0 {
        assert(current + s.subrange(i, i) =~= current);
    } else {
        assert(!is_reserved(s[i]));
        lemma_scan_verbatim(s, i + 1, k - 1, fields, current.push(s[i]));
        assert(current.push(s[i]) + s.subrange(i + 1, i + k) =~= current + s.subrange(i, i + k));
    }
}

/// Where the input holds a field as the encoder writes it, the decoder
/// reads that field's bytes into the open field and goes on behind it.
proof fn lemma_scan_field(
    s: Seq<u8>,
    i: int,
    field: Seq<u8>,
    fields: Seq<Seq<u8>>,
    current: Seq<u8>,
)
    requires
        0 <= i,
        field.len() <= usize::MAX,
        i + encoded_field(field).len() < s.len(),
        s.subrange(i, i + encoded_field(field).len()) == encoded_field(field),
    ensures
        scan(s, i, fields, current) == scan(
            s,
            i + encoded_field(field).len(),
            fields,
            current + field,
        ),
{
    let wire = encoded_field(field);
    assert forall|j: int| 0 <= j < wire.len() implies s[i + j] == wire[j] by {
        assert(s.subrange(i, i + wire.len())[j] == s[i + j]);
    }
    if needs_escape(field) {
        let digits = decimal_digits(field.len());
        lemma_decimal_digits(field.len());
        let close = i + 1 + digits.len();
        assert(s[i] == wire[0]);
        assert forall|j: int| i + 1 <= j < close implies is_digit(#[trigger] s[j]) by {
            assert(s[j] == wire[j - i]);
            assert(wire[j - i] == digits[j - i - 1]);
        }
        assert(s[close] == wire[close - i]);
        assert(s[close] == ESCAPE_CLOSE);
        lemma_digits_end_run(s, i + 1, digits.len() as int);
        assert(s.subrange(i + 1, close) =~= digits) by {
            assert forall|j: int| 0 <= j < digits.len() implies s[i + 1 + j] == digits[j] by {
                assert(s[i + 1 + j] == wire[1 + j]);
            }
        }
        assert(s.subrange(close + 1, close + 1 + field.len()) =~= field) by {
            assert forall|j: int| 0 <= j < field.len() implies s[close + 1 + j] == field[j] by {
                assert(s[close + 1 + j] == wire[close + 1 + j - i]);
            }
        }
        assert(escape_at(s, i) == Token::Escape { start: close + 1, len: field.len() as int });
    } else {
        assert forall|j: int| i <= j < i + field.len() implies !is_reserved(#[trigger] s[j]) by {
            assert(s[j] == field[j - i]);
        }
        lemma_scan_verbatim(s, i, field.len() as int, fields, current);
    }
}

/// After the first `k` encoded fields the decoder has closed `k - 1` of
/// them and holds the last one open.
proof fn lemma_scan_fields(s: Seq<u8>, all: Seq<Seq<u8>>, k: int)
    requires
        1 <= k <= all.len(),
        lengths_fit(all),
        encoded_fields(all.take(k)).len() < s.len(),
        s.subrange(0, encoded_fields(all.take(k)).len() as int) == encoded_fields(all.take(k)),
    ensures
        decoded(s) == scan(
            s,
            encoded_fields(all.take(k)).len() as int,
            all.take(k - 1),
            all[k - 1],
        ),
    decreases k,
{
    let done = all.take(k);
    let wire = encoded_fields(done);
    let field = all[k - 1];
    assert(done.last() == field);
    if k == 1 {
        assert(all.take(0) =~= Seq::<Seq<u8>>::empty());
        assert(Seq::<u8>::empty() + field =~= field);
        lemma_scan_field(s, 0, field, Seq::empty(), Seq::empty());
    } else {
        let before = all.take(k - 1);
        assert(done.drop_last() =~= before);
        let head = encoded_fields(before);
        let at = head.len() as int;
        assert(wire == head + seq![SPACE] + encoded_field(field));
        assert(s.subrange(0, at) =~= head) by {
            assert forall|j: int| 0 <= j < at implies s[j] == head[j] by {
                assert(s.subrange(0, wire.len() as int)[j] == wire[j]);
            }
        }
        lemma_scan_fields(s, all, k - 1);
        assert(s[at] == SPACE) by {
            assert(s.subrange(0, wire.len() as int)[at] == wire[at]);
        }
        assert(before.take(k - 2) =~= all.take(k - 2));
        assert(all.take(k - 2).push(all[k - 2]) =~= before);
        assert(s.subrange(at + 1, at + 1 + encoded_field(field).len()) =~= encoded_field(field)) by {
            assert forall|j: int| 0 <= j < encoded_field(field).len() implies s[at + 1 + j]
                == encoded_field(field)[j] by {
                assert(s.subrange(0, wire.len() as int)[at + 1 + j] == wire[at + 1 + j]);
            }
        }
        lemma_scan_field(s, at + 1, field, before, Seq::empty());
        assert(Seq::<u8>::empty() + field =~= field);
    }
}

/// Decoding undoes encoding: a buffer that begins with the encoding of a
/// message of at least one field decodes to exactly those fields and
/// consumes exactly the encoding, whatever bytes `rest` follow it.
///
/// A message of no fields is left out: on the wire it is a bare line feed,
/// which is also the encoding of the message of one empty field, and that
/// is how it decodes.
pub proof fn lemma_round_trip(fields: Seq<Seq<u8>>, rest: Seq<u8>)
    requires
        fields.len() >= 1,
        lengths_fit(fields),
    ensures
        decoded(encoded(fields) + rest) == (Outcome::Complete {
            fields,
            consumed: encoded(fields).len() as int,
        }),
{
    let s = encoded(fields) + rest;
    let wire = encoded_fields(fields);
    let n = fields.len() as int;
    assert(fields.take(n) =~= fields);
    assert(s.subrange(0, wire.len() as int) =~= wire);
    lemma_scan_fields(s, fields, n);
    assert(s[wire.len() as int] == LINE_FEED);
    assert(fields.take(n - 1).push(fields[n - 1]) =~= fields);
}

/// The fields of a message in memory are short enough for their lengths to
/// be written down.
pub proof fn lemma_message_lengths_fit(message: Message)
    ensures
        lengths_fit(message@),
{
    assert forall|k: int| 0 <= k < message@.len() implies (#[trigger] message@[k]).len()
        <= usize::MAX by {
        let field = message.fields@[k];
        assert(message@[k] == field@);
        assert(field.len() == field@.len());
    }
}

/// Decoding undoes encoding, for messages in memory: what the encoder
/// writes for a message of at least one field, followed by any bytes at
/// all, decodes to a message with the same fields, and the decoder consumes
/// exactly what the encoder wrote.
pub proof fn lemma_message_round_trip(message: Message, rest: Seq<u8>)
    requires
        message@.len() >= 1,
    ensures
        decoded(encoded(message@) + rest) == (Outcome::Complete {
            fields: message@,
            consumed: encoded(message@).len() as int,
        }),
{
    lemma_message_lengths_fit(message);
    lemma_round_trip(message@, rest);
}

/// Feeding an encoded message piece by piece gives "need more data" until
/// its last byte has arrived: no proper prefix of an encoding decodes to a
/// message or is rejected. Together with the round trip this makes feeding
/// a message in chunks of any size equal to feeding it at once.
pub proof fn lemma_prefix_incomplete(fields: Seq<Seq<u8>>, k: int)
    requires
        lengths_fit(fields),
        0 <= k < encoded(fields).len(),
    ensures
        decoded(encoded(fields).take(k)) is Incomplete,
{
    let wire = encoded(fields);
    let head = wire.take(k);
    if fields.len() == 0 {
        assert(wire.len() == 1);
    } else if !(decoded(head) is Incomplete) {
        assert(head + wire.skip(k) =~= wire);
        lemma_decoded_stable(head, wire.skip(k));
        assert(wire + Seq::<u8>::empty() =~= wire);
        lemma_round_trip(fields, Seq::empty());
        lemma_complete_within(head);
    }
}

/// A scan that finds a message has read nothing behind the message's last
/// byte: it finds the same on the input cut off there.
pub proof fn lemma_scan_local(s: Seq<u8>, i: int, fields: Seq<Seq<u8>>, current: Seq<u8>)
    requires
        0 <= i,
        scan(s, i, fields, current) is Complete,
    ensures
        scan(s.take(scan(s, i, fields, current)->consumed), i, fields, current) == scan(
            s,
            i,
            fields,
            current,
        ),
    decreases s.len() - i,
{
    let end = scan(s, i, fields, current)->consumed;
    let head = s.take(end);
    lemma_scan_complete_within(s, i, fields, current);
    assert(head[i] == s[i]);
    match token_at(s, i) {
        Token::Literal { byte } => {
            lemma_scan_local(s, i + 1, fields, current.push(byte));
        },
        Token::Separator => {
            lemma_scan_local(s, i + 1, fields.push(current), Seq::empty());
        },
        Token::Terminator { width } => {
            if width == 2 {
                assert(head[i + 1] == s[i + 1]);
            }
        },
        Token::Escape { start, len } => {
            let payload = s.subrange(start, start + len);
            lemma_digits_end_bounds(s, i + 1);
            lemma_scan_complete_within(s, start + len, fields, current + payload);
            let close = start - 1;
            assert forall|j: int| i + 1 <= j < close implies is_digit(#[trigger] head[j]) by {
                assert(head[j] == s[j]);
            }
            assert(head[close] == s[close]);
            lemma_digits_end_run(head, i + 1, close - (i + 1));
            assert(head.subrange(i + 1, close) =~= s.subrange(i + 1, close));
            assert(head.subrange(start, start + len) =~= payload);
            lemma_scan_local(s, start + len, fields, current + payload);
        },
        _ => {},
    }
}

/// The decoder does not look behind the message it finds: the answer for a
/// buffer that decodes to a message is the answer for the message's own
/// bytes, so it is the same whatever follows them.
pub proof fn lemma_decoded_local(s: Seq<u8>, other_tail: Seq<u8>)
    requires
        decoded(s) is Complete,
    ensures
        decoded(s.take(decoded(s)->consumed)) == decoded(s),
        decoded(s.take(decoded(s)->consumed) + other_tail) == decoded(s),
{
    lemma_scan_local(s, 0, Seq::empty(), Seq::empty());
    lemma_decoded_stable(s.take(decoded(s)->consumed), other_tail);
}

/// An escape length that does not fit in `usize` is rejected, never cut
/// down or wrapped: where an escape opens at `i` and the digits up to `upto`
/// already denote more than `usize::MAX`, the scan ends with
/// `LengthOverflow`, whatever digits or other bytes follow.
pub proof fn lemma_scan_rejects_overflow(
    s: Seq<u8>,
    i: int,
    upto: int,
    fields: Seq<Seq<u8>>,
    current: Seq<u8>,
)
    requires
        0 <= i < upto <= s.len(),
        s[i] == ESCAPE_OPEN,
        forall|j: int| i < j < upto ==> is_digit(#[trigger] s[j]),
        decimal_value(s.subrange(i + 1, upto)) > usize::MAX,
    ensures
        scan(s, i, fields, current) == (Outcome::Malformed { error: DecodeError::LengthOverflow }),
{
    lemma_digits_end_from(s, i + 1, upto);
    lemma_digits_end_bounds(s, upto);
    lemma_decimal_value_grows(s, i + 1, upto, digits_end(s, i + 1));
}

/// A run of digits that reaches from `i` to `upto` ends where the run from
/// `upto` on ends.
proof fn lemma_digits_end_from(s: Seq<u8>, i: int, upto: int)
    requires
        0 <= i <= upto <= s.len(),
        forall|j: int| i <= j < upto ==> is_digit(#[trigger] s[j]),
    ensures
        digits_end(s, i) == digits_end(s, upto),
    decreases upto - i,
{
    if i < upto {
        lemma_digits_end_from(s, i + 1, upto);
    }
}

/// A buffer that begins with an escape header whose digits denote more than
/// `usize::MAX` is malformed, whatever follows the digits.
pub proof fn lemma_decoded_rejects_overflow(digits: Seq<u8>, rest: Seq<u8>)
    requires
        forall|j: int| 0 <= j < digits.len() ==> is_digit(#[trigger] digits[j]),
        decimal_value(digits) > usize::MAX,
    ensures
        decoded(seq![ESCAPE_OPEN] + digits + rest) == (Outcome::Malformed {
            error: DecodeError::LengthOverflow,
        }),
{
    let s = seq![ESCAPE_OPEN] + digits + rest;
    let upto = 1 + digits.len() as int;
    assert(s.subrange(1, upto) =~= digits);
    assert forall|j: int| 0 < j < upto implies is_digit(#[trigger] s[j]) by {
        assert(s[j] == digits[j - 1]);
    }
    lemma_scan_rejects_overflow(s, 0, upto, Seq::empty(), Seq::empty());
}

} // verus!
