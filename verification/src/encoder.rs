//! Writing fields to the wire.

use vstd::prelude::*;
use crate::bytes::append_span;
use crate::wire::{
    decimal_digits, encoded_field, is_reserved, is_safe_byte, needs_escape, ESCAPE_CLOSE,
    ESCAPE_OPEN,
};

verus! {

/// Whether `field` holds a reserved byte and so has to be escaped.
pub fn field_needs_escape(field: &[u8]) -> (any: bool)
    ensures
        any == needs_escape(field@),
{
    let n: usize = field.len();
    let mut at: usize = 0;
    while at < n
        invariant
            n == field@.len(),
            at <= n,
            forall|i: int| 0 <= i < at ==> !is_reserved(#[trigger] field@[i]),
        decreases n - at,
    {
        if !is_safe_byte(field[at]) {
            return true;
        }
        at += 1;
    }
    false
}

/// Appends `n` in decimal.
pub(crate) fn push_decimal(buf: &mut Vec<u8>, n: usize)
    ensures
        final(buf)@ == old(buf)@ + decimal_digits(n as nat),
    decreases n,
{
    if n >= 10 {
        push_decimal(buf, n / 10);
    }
    buf.push(0x30 + (n % 10) as u8);
    assert(buf@ =~= old(buf)@ + decimal_digits(n as nat));
}

/// Appends one field as it goes on the wire: behind an escape header that
/// covers all of it if any of its bytes is reserved, verbatim if none is.
pub(crate) fn push_field(buf: &mut Vec<u8>, field: &[u8])
    ensures
        final(buf)@ == old(buf)@ + encoded_field(field@),
{
    if field_needs_escape(field) {
        buf.push(ESCAPE_OPEN);
        push_decimal(buf, field.len());
        buf.push(ESCAPE_CLOSE);
    }
    append_span(buf, field, 0, field.len());
    assert(field@.subrange(0, field@.len() as int) =~= field@);
    assert(buf@ =~= old(buf)@ + encoded_field(field@));
}

} // verus!
