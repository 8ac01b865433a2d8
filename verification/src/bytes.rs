//! Copying between byte buffers.

use vstd::prelude::*;

verus! {

/// Appends the bytes `input[start..end]` to `field`.
pub(crate) fn append_span(field: &mut Vec<u8>, input: &[u8], start: usize, end: usize)
    requires
        start <= end <= input@.len(),
    ensures
        final(field)@ == old(field)@ + input@.subrange(start as int, end as int),
{
    let mut at: usize = start;
    assert(input@.subrange(start as int, start as int) =~= Seq::<u8>::empty());
    assert(field@ + Seq::<u8>::empty() =~= field@);
    while at < end
        invariant
            start <= at <= end <= input@.len(),
            field@ == old(field)@ + input@.subrange(start as int, at as int),
        decreases end - at,
    {
        field.push(input[at]);
        at += 1;
        assert(field@ =~= old(field)@ + input@.subrange(start as int, at as int));
    }
}

} // verus!
