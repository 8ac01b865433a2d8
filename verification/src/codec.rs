//! The codec that a framed transport drives: bytes in, messages out, and
//! back.

#![allow(deprecated)]

use vstd::prelude::*;
use tokio_core::io::EasyBuf;
use crate::buffer::buffered;
use crate::decoder::parse_message;
use crate::encoder::push_field;
use crate::error::DecodeError;
use crate::message::Message;
use crate::wire::{decoded, encoded, encoded_fields, Outcome, LINE_FEED, SPACE};

verus! {

/// The PlainTalk codec. It holds no state: all that passes from one call to
/// the next is what is left in the buffer.
pub struct PlainTalkCodec;

/// The bytes that the pre-sizing of [`PlainTalkCodec::encode`] asks for:
/// each field's length and one more for the byte that follows the field.
spec fn size_hint(fields: Seq<Seq<u8>>) -> nat
    decreases fields.len(),
{
    if fields.len() == 0 {
        0
    } else {
        size_hint(fields.drop_last()) + fields.last().len() + 1
    }
}

/// Computes [`size_hint`], or `None` if it does not fit in `usize`.
fn wire_size_hint(msg: &Message) -> (hint: Option<usize>)
    ensures
        match hint {
            Some(total) => total == size_hint(msg@),
            None => size_hint(msg@) > usize::MAX,
        },
{
    let count: usize = msg.fields.len();
    let mut total: usize = 0;
    let mut at: usize = 0;
    assert(msg@.take(0) =~= Seq::<Seq<u8>>::empty());
    while at < count
        invariant
            count == msg.fields@.len(),
            at <= count,
            total == size_hint(msg@.take(at as int)),
            size_hint(msg@.take(at as int)) <= size_hint(msg@),
        decreases count - at,
    {
        proof {
            assert(msg@.take(at + 1).drop_last() =~= msg@.take(at as int));
            lemma_size_hint_grows(msg@, at + 1);
        }
        let with_field: usize = match total.checked_add(msg.fields[at].len()) {
            Some(sum) => sum,
            None => {
                return None;
            },
        };
        total = match with_field.checked_add(1) {
            Some(sum) => sum,
            None => {
                return None;
            },
        };
        at += 1;
    }
    assert(msg@.take(count as int) =~= msg@);
    Some(total)
}

/// The hint for the first `upto` fields is no more than the hint for all.
proof fn lemma_size_hint_grows(fields: Seq<Seq<u8>>, upto: int)
    requires
        0 <= upto <= fields.len(),
    ensures
        size_hint(fields.take(upto)) <= size_hint(fields),
    decreases fields.len() - upto,
{
    if upto < fields.len() {
        lemma_size_hint_grows(fields, upto + 1);
        assert(fields.take(upto + 1).drop_last() =~= fields.take(upto));
    } else {
        assert(fields.take(upto) =~= fields);
    }
}

impl PlainTalkCodec {
    /// Takes one message off the front of `buf`, if a whole one is there.
    ///
    /// The buffer is read from its first byte on every call, so the call can
    /// be repeated whenever bytes have arrived.
    ///
    /// - A whole message: returns it and removes its bytes, through the
    ///   terminating line feed, from the buffer. What follows them stays.
    /// - The beginning of a message: returns `Ok(None)` and leaves the
    ///   buffer as it is.
    /// - Malformed input: returns the error and leaves the buffer as it is.
    pub fn decode(&mut self, buf: &mut EasyBuf) -> (result: Result<Option<Message>, DecodeError>)
        ensures
            match decoded(buffered(*old(buf))) {
                Outcome::Complete { fields, consumed } => {
                    &&& result matches Ok(Some(message))
                    &&& message@ == fields
                    &&& buffered(*final(buf)) == buffered(*old(buf)).skip(consumed)
                },
                Outcome::Incomplete => {
                    &&& result matches Ok(None)
                    &&& *final(buf) == *old(buf)
                },
                Outcome::Malformed { error } => {
                    &&& result matches Err(reported)
                    &&& reported == error
                    &&& *final(buf) == *old(buf)
                },
            },
    {
        let parsed = parse_message(buf.as_slice());
        match parsed {
            Ok(Some((message, consumed))) => {
                let _ = buf.drain_to(consumed);
                Ok(Some(message))
            },
            Ok(None) => Ok(None),
            Err(error) => Err(error),
        }
    }

    /// Appends `msg` on the wire to `buf`: its fields in order with one
    /// space between neighbours, each escaped as a whole if it holds a
    /// reserved byte, and one line feed. What `buf` held before stays in
    /// front. This cannot fail.
    pub fn encode(&mut self, msg: Message, buf: &mut Vec<u8>)
        ensures
            final(buf)@ == old(buf)@ + encoded(msg@),
    {
        match wire_size_hint(&msg) {
            Some(hint) => {
                buf.reserve(hint);
            },
            None => {},
        }
        let count: usize = msg.fields.len();
        let mut at: usize = 0;
        assert(msg@.take(0) =~= Seq::<Seq<u8>>::empty());
        assert(buf@ =~= old(buf)@ + encoded_fields(msg@.take(0)));
        while at < count
            invariant
                count == msg.fields@.len(),
                at <= count,
                buf@ == old(buf)@ + encoded_fields(msg@.take(at as int)),
            decreases count - at,
        {
            if at > 0 {
                buf.push(SPACE);
            }
            push_field(buf, msg.fields[at].as_slice());
            proof {
                let done = msg@.take(at + 1);
                assert(done.drop_last() =~= msg@.take(at as int));
                assert(done.last() == msg.fields@[at as int]@);
                assert(buf@ =~= old(buf)@ + encoded_fields(done));
            }
            at += 1;
        }
        assert(msg@.take(count as int) =~= msg@);
        buf.push(LINE_FEED);
        assert(buf@ =~= old(buf)@ + encoded(msg@));
    }
}

} // verus!
