//! What can go wrong carrying BEEP over WebSocket.

use crate::decimal;
use crate::error::{joined, numbered};
use crate::ws::frame::ProtocolError;
use vstd::prelude::*;

verus! {

/// Why a BEEP session over WebSocket could not be established or kept.
#[derive(Debug, Clone, PartialEq, Eq)]
#[non_exhaustive]
pub enum Error {
    /// The transport underneath failed, and this is what it said.
    Io(String),
    /// The BEEP session itself failed, once the transport was up, and this is what it said.
    Session(String),
    /// The opening HTTP exchange was not a valid WebSocket handshake.
    Handshake {
        /// What was wrong with it.
        reason: &'static str,
    },
    /// The server answered the handshake with something other than `101`.
    NotUpgraded {
        /// The status it gave, absent if the status line could not be read.
        status: Option<u16>,
    },
    /// The peer's framing is one RFC 6455 does not allow.
    Protocol(ProtocolError),
    /// The operating system had no randomness for a masking key or a handshake nonce.
    ///
    /// Masking keys must be unpredictable, so there is no fallback here worth having: a
    /// predictable key would be worse than a refused connection.
    Entropy,
}

impl Error {
    /// The text that describes an error.
    pub open spec fn text(self) -> Seq<char> {
        match self {
            Error::Io(said) => "websocket transport failed: "@ + said@,
            Error::Session(said) => "beep session failed: "@ + said@,
            Error::Handshake { reason } => "websocket handshake failed: "@ + reason@,
            Error::NotUpgraded { status: Some(code) } => "server answered "@
                + decimal::decimal_text(code as nat) + " instead of 101"@,
            Error::NotUpgraded { status: None } => "the server's answer had no readable status"@,
            Error::Protocol(error) => "websocket framing error: "@ + error.text(),
            Error::Entropy =>
                "the operating system had no randomness for a websocket masking key"@,
        }
    }

    /// Describes the error for a person.
    pub fn message(&self) -> (out: String)
        ensures
            out@ == self.text(),
    {
        proof {
            reveal_strlit("");
        }
        match self {
            Error::Io(said) => joined("websocket transport failed: ", said.as_str(), ""),
            Error::Session(said) => joined("beep session failed: ", said.as_str(), ""),
            Error::Handshake { reason } => joined("websocket handshake failed: ", reason, ""),
            Error::NotUpgraded { status: Some(code) } => numbered(
                "server answered ",
                *code as u64,
                " instead of 101",
            ),
            Error::NotUpgraded { status: None } =>
                "the server's answer had no readable status".to_owned(),
            Error::Protocol(error) => joined(
                "websocket framing error: ",
                error.message().as_str(),
                "",
            ),
            Error::Entropy =>
                "the operating system had no randomness for a websocket masking key".to_owned(),
        }
    }
}

impl From<ProtocolError> for Error {
    fn from(error: ProtocolError) -> (r: Error) {
        Error::Protocol(error)
    }
}

impl vstd::std_specs::convert::FromSpecImpl<ProtocolError> for Error {
    open spec fn obeys_from_spec() -> bool {
        true
    }

    open spec fn from_spec(error: ProtocolError) -> Error {
        Error::Protocol(error)
    }
}

} // verus!
