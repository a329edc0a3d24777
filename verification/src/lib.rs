//! Core engine of a symmetric, line-framed JSON RPC protocol.
//!
//! Either peer of a full-duplex byte stream can originate calls and serve
//! them. Messages are single-line JSON envelopes; callbacks cross the wire
//! as `__callback__<token>` strings; responses are correlated to requests
//! by opaque string ids.

pub mod framing;
pub mod ids;
pub mod json;
pub mod laws;
pub mod message;
pub mod parse;
pub mod peer;
pub mod roundtrip;
pub mod ser;
pub mod text;

pub use ids::generate_uuid;
pub use json::JsonValue;
pub use message::{deserialize_message, serialize_message, Message, MessageType, Response};
pub use peer::{Action, Arg, CallOutcome, IncomingArg, PeerCore, RpcApi, RpcError};

use vstd::prelude::*;

verus! {

/// The marker in front of a callback token on the wire.
pub const CALLBACK_PREFIX: &'static str = "__callback__";

/// A full-duplex line-framed channel, implemented by the program
/// around the library: a stdio pipe pair, a socket, or anything that
/// can carry one text line at a time.
pub trait Transport: Send + Sync {
    /// One complete line, its newline stripped; nothing once the
    /// channel has closed or failed.
    fn read(&self) -> Option<String>;

    /// Write one framed message, flushed before returning.
    fn write(&self, message: &str) -> Result<(), String>;

    /// Close the channel; idempotent.
    fn close(&self);
}

} // verus!
