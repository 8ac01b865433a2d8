//! The read buffer that a framed transport hands to its codec.
//!
//! `EasyBuf` belongs to `tokio-core`. Nothing in this module is proved: it
//! states what the decoder relies on, as the buffer's source shows it.

#![allow(deprecated)]

use vstd::prelude::*;
use tokio_core::io::EasyBuf;

verus! {

/// `tokio_core::io::EasyBuf`, a reference-counted window onto a byte vector.
/// Its fields are private; the library sees it only through [`buffered`].
#[verifier::external_type_specification]
#[verifier::external_body]
pub struct ExEasyBuf(EasyBuf);

/// The bytes inside the buffer's window, in order: what
/// `EasyBuf::as_slice` shows.
pub uninterp spec fn buffered(buf: EasyBuf) -> Seq<u8>;

/// `EasyBuf::as_slice` returns the window `[start, end)` of the underlying
/// vector, which is what [`buffered`] names.
pub assume_specification[ EasyBuf::as_slice ](buf: &EasyBuf) -> (bytes: &[u8])
    ensures
        bytes@ == buffered(*buf),
;

/// `EasyBuf::drain_to` moves the window's start forward by `at`, so that the
/// buffer keeps the bytes from `at` on, and returns a buffer over the first
/// `at` bytes. It panics when `at` exceeds the window's length, which the
/// precondition rules out.
pub assume_specification[ EasyBuf::drain_to ](buf: &mut EasyBuf, at: usize) -> (head: EasyBuf)
    requires
        at <= buffered(*old(buf)).len(),
    ensures
        buffered(*final(buf)) == buffered(*old(buf)).skip(at as int),
        buffered(head) == buffered(*old(buf)).take(at as int),
;

} // verus!
