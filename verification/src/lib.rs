//! BEEP (RFC 3080 and RFC 3081) as a library of state machines that perform no I/O.

pub mod channel;
pub mod codec;
pub mod decimal;
pub mod error;
pub mod frame;
pub mod greeting;
pub mod head;
pub mod interop;
pub mod management;
pub mod mime;
pub mod octets;
pub mod session;
pub mod text;
pub mod tls;
pub mod upgrade;
pub mod window;
pub mod ws;
pub mod xml;
