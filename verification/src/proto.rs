//! The protocol that a server binds to its connections.

use vstd::prelude::*;
use crate::codec::PlainTalkCodec;

verus! {

/// PlainTalk as a request/response protocol: requests and responses are
/// both [`crate::message::Message`]s, one request is answered by one
/// response, and each connection is framed by a codec of its own. Binding
/// the protocol to a byte stream is the transport's work; what the
/// protocol settles is which codec frames it.
pub struct PlainTalkProto;

impl PlainTalkProto {
    /// The codec for a new connection.
    pub fn codec(&self) -> (codec: PlainTalkCodec)
        ensures
            codec == PlainTalkCodec,
    {
        PlainTalkCodec
    }
}

} // verus!
