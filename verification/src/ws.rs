//! BEEP carried in WebSocket frames (RFC 6455): the framing, the opening handshake and the
//! conversion between a byte stream and frames, with no I/O of its own.
//!
//! # Leniency
//!
//! This binding carries a byte stream. Message boundaries and the difference between text and
//! binary frames mean nothing to it: the payload of every data frame is more of the stream, and
//! that of a text frame is not checked to be UTF-8.

use vstd::prelude::*;

pub mod codec;
pub mod digest;
pub mod error;
pub mod frame;
pub mod grammar;
pub mod handshake;
pub mod reading;
pub mod server;
pub mod stream;

verus! {

/// The path a server conventionally answers on.
///
/// Nothing enforces it, and it is here so that both ends of an example agree.
pub const DEFAULT_PATH: &'static str = "/";

} // verus!
