//! The ways in which buffered input can fail to be PlainTalk.

use vstd::prelude::*;

verus! {

/// Why a buffer was rejected as malformed. Each of these is fatal to the
/// stream: the framing offers no point at which to pick up again.
#[derive(Clone, Copy, Debug, PartialEq, Eq, Structural)]
pub enum DecodeError {
    /// A carriage return was followed by a byte other than a line feed.
    MissingLineFeed,
    /// The decimal length of an escape sequence does not fit in `usize`.
    LengthOverflow,
    /// The digits of an escape length were followed by a byte other than `}`.
    IllegalLengthCharacter,
}

impl DecodeError {
    /// The text of [`DecodeError::message`].
    pub open spec fn message_text(self) -> Seq<char> {
        match self {
            DecodeError::MissingLineFeed => "expected \\n after \\r"@,
            DecodeError::LengthOverflow => "escape sequence too long"@,
            DecodeError::IllegalLengthCharacter =>
                "escape sequence length containing illegal characters"@,
        }
    }

    /// A short description of the error, fit for a log line or for the
    /// payload of an I/O error.
    pub fn message(&self) -> (text: &'static str)
        ensures
            text@ == self.message_text(),
    {
        match self {
            DecodeError::MissingLineFeed => "expected \\n after \\r",
            DecodeError::LengthOverflow => "escape sequence too long",
            DecodeError::IllegalLengthCharacter =>
                "escape sequence length containing illegal characters",
        }
    }
}

} // verus!
