//! PlainTalk: a line-delimited, length-escaped wire protocol for binary-safe
//! messages, with a resumable decoder and an encoder whose behaviour is
//! stated and proved against a mathematical model of the wire grammar.

pub mod buffer;
pub mod bytes;
pub mod codec;
pub mod decoder;
pub mod encoder;
pub mod error;
pub mod message;
pub mod proto;
pub mod theorems;
pub mod wire;

pub use codec::PlainTalkCodec;
pub use error::DecodeError;
pub use message::Message;
pub use proto::PlainTalkProto;
pub use wire::is_safe_byte;
