//! Errors produced by the protocol core.

#[allow(unused_imports)]
use crate::decimal;
use vstd::prelude::*;

verus! {

/// An error detected while building or decoding BEEP protocol elements.
///
/// Every variant describes a condition that is fatal for the session: a peer that produces
/// any of these has its connection shut down. The core reports the condition and leaves the
/// decision to the transport layer.
#[derive(Debug, Clone, PartialEq, Eq)]
#[allow(inconsistent_fields)]
#[non_exhaustive]
pub enum Error {
    /// The frame header did not start with one of `MSG`, `RPY`, `ERR`, `ANS`, `NUL`, `SEQ`.
    UnknownFrameType,
    /// No `CRLF` was found within the maximum header length.
    HeaderTooLong {
        /// The limit that was exceeded, in bytes.
        limit: usize,
    },
    /// A bare `LF` appeared in the header where `CRLF` was required.
    BareNewlineInHeader,
    /// The header was structurally wrong.
    MalformedHeader {
        /// What was expected at the point the parse failed.
        reason: &'static str,
    },
    /// A numeric header field contained a byte that is not an ASCII digit.
    InvalidDigit {
        /// Name of the header field being parsed.
        field: &'static str,
    },
    /// A header field the frame type requires was absent or empty.
    MissingField {
        /// Name of the missing header field.
        field: &'static str,
    },
    /// A numeric header field parsed correctly but exceeded the range BEEP allows for it.
    ValueOutOfRange {
        /// Name of the header field.
        field: &'static str,
        /// Largest value the field accepts.
        max: u32,
    },
    /// The continuation indicator was neither `.` nor `*`.
    InvalidContinuation {
        /// The byte that was found instead.
        found: u8,
    },
    /// The frame declared a payload larger than the configured limit.
    FrameTooLarge {
        /// Size announced in the header.
        size: u32,
        /// Configured maximum.
        limit: u32,
    },
    /// The five byte `END\r\n` trailer was not present where the header said it would be.
    MissingTrailer,
    /// A payload that had to be valid UTF-8 was not.
    NotUtf8,
    /// The XML of a channel-management message could not be parsed.
    Xml {
        /// What was expected at the point the parse failed.
        reason: &'static str,
    },
    /// A channel-management message had a root element other than the expected one.
    UnexpectedElement,
    /// A greeting frame did not carry `Content-Type: application/beep+xml`.
    NotBeepXml,
    /// A frame offered as the greeting did not have the shape a greeting must have.
    ///
    /// A greeting is an `RPY` on channel 0 with message number 0 and sequence number 0.
    NotAGreeting {
        /// Which of those expectations was violated.
        reason: &'static str,
    },
    /// A frame fell outside the window this end advertised.
    OutsideWindow {
        /// Sequence number the frame announced.
        seqno: u32,
        /// Payload length the frame announced.
        len: u32,
        /// First sequence number beyond the advertised window.
        limit: u32,
    },
    /// A frame arrived with a sequence number other than the one expected next.
    ///
    /// BEEP numbers octets contiguously within a channel, so a gap or an overlap is a
    /// protocol violation rather than something to be reordered.
    UnexpectedSeqNo {
        /// Sequence number the frame announced.
        found: u32,
        /// Sequence number the channel was waiting for.
        expected: u32,
    },
    /// A message number still awaiting its reply was used for a new message.
    MsgNoInUse {
        /// The message number that is still outstanding.
        msgno: u32,
    },
    /// Every message number is currently outstanding.
    MsgNoExhausted,
    /// A reply arrived for a message number this end never sent, or already completed.
    UnknownMsgNo {
        /// The message number the reply referred to.
        msgno: u32,
    },
    /// A fragment of one message arrived while another was still being reassembled.
    ///
    /// BEEP sends the fragments of a message contiguously on its channel.
    InterleavedFragment,
    /// Nothing more may be sent until a `SEQ` frame advances the window.
    ChannelStalled,
    /// The channel number is already in use, or is not one this peer may allocate.
    ChannelNumber {
        /// What is wrong with it.
        reason: &'static str,
    },
    /// A frame arrived for a channel that is not open.
    NoSuchChannel {
        /// The channel the frame referred to.
        channel: u32,
    },
}

impl Error {
    /// The text that describes an error.
    pub open spec fn text(self) -> Seq<char> {
        match self {
            Error::UnknownFrameType => "unknown BEEP frame type"@,
            Error::HeaderTooLong { limit } => "no CRLF found within "@ + decimal::decimal_text(
                limit as nat,
            ) + " bytes of frame header"@,
            Error::BareNewlineInHeader => "bare LF in frame header, CRLF required"@,
            Error::MalformedHeader { reason } => "malformed frame header: "@ + reason@,
            Error::InvalidDigit { field } => "non-digit byte in header field '"@ + field@ + "'"@,
            Error::MissingField { field } => "missing header field '"@ + field@ + "'"@,
            Error::ValueOutOfRange { field, max } => "header field '"@ + field@
                + "' exceeds its maximum of "@ + decimal::decimal_text(max as nat),
            Error::InvalidContinuation { found } => "invalid continuation indicator "@
                + decimal::hex_octet(found) + ", expected '.' or '*'"@,
            Error::FrameTooLarge { size, limit } => "frame payload of "@ + decimal::decimal_text(
                size as nat,
            ) + " bytes exceeds the limit of "@ + decimal::decimal_text(limit as nat),
            Error::MissingTrailer => "frame trailer 'END' CRLF not found"@,
            Error::NotUtf8 => "payload is not valid UTF-8"@,
            Error::Xml { reason } => "malformed XML: "@ + reason@,
            Error::UnexpectedElement => "unexpected root element"@,
            Error::NotBeepXml => "expected Content-Type: application/beep+xml"@,
            Error::NotAGreeting { reason } => "not a greeting frame: "@ + reason@,
            Error::OutsideWindow { seqno, len, limit } => "frame at seqno "@
                + decimal::decimal_text(seqno as nat) + " of "@ + decimal::decimal_text(len as nat)
                + " octets runs past the advertised window limit "@ + decimal::decimal_text(
                limit as nat,
            ),
            Error::UnexpectedSeqNo { found, expected } => "expected seqno "@
                + decimal::decimal_text(expected as nat) + ", found "@ + decimal::decimal_text(
                found as nat,
            ),
            Error::MsgNoInUse { msgno } => "message number "@ + decimal::decimal_text(msgno as nat)
                + " is still awaiting its reply"@,
            Error::MsgNoExhausted => "no message number is free on this channel"@,
            Error::UnknownMsgNo { msgno } => "no message "@ + decimal::decimal_text(msgno as nat)
                + " is outstanding on this channel"@,
            Error::InterleavedFragment =>
                "a new message began while another was still being reassembled"@,
            Error::ChannelStalled => "channel stalled, waiting for a SEQ frame"@,
            Error::ChannelNumber { reason } => "invalid channel number: "@ + reason@,
            Error::NoSuchChannel { channel } => "channel "@ + decimal::decimal_text(channel as nat)
                + " is not open"@,
        }
    }

    /// Describes the error for a person.
    pub fn message(&self) -> (out: String)
        ensures
            out@ == self.text(),
    {
        proof {
            reveal_strlit("");
        }
        match self {
            Error::UnknownFrameType => "unknown BEEP frame type".to_owned(),
            Error::HeaderTooLong { limit } => numbered(
                "no CRLF found within ",
                *limit as u64,
                " bytes of frame header",
            ),
            Error::BareNewlineInHeader => "bare LF in frame header, CRLF required".to_owned(),
            Error::MalformedHeader { reason } => joined("malformed frame header: ", reason, ""),
            Error::InvalidDigit { field } => joined(
                "non-digit byte in header field '",
                field,
                "'",
            ),
            Error::MissingField { field } => joined("missing header field '", field, "'"),
            Error::ValueOutOfRange { field, max } => {
                let mut out = joined("header field '", field, "' exceeds its maximum of ");
                decimal::push_decimal(&mut out, *max as u64);
                out
            },
            Error::InvalidContinuation { found } => {
                let mut out = "invalid continuation indicator ".to_owned();
                decimal::push_hex(&mut out, *found);
                out.push_str(", expected '.' or '*'");
                out
            },
            Error::FrameTooLarge { size, limit } => {
                let mut out = numbered(
                    "frame payload of ",
                    *size as u64,
                    " bytes exceeds the limit of ",
                );
                decimal::push_decimal(&mut out, *limit as u64);
                out
            },
            Error::MissingTrailer => "frame trailer 'END' CRLF not found".to_owned(),
            Error::NotUtf8 => "payload is not valid UTF-8".to_owned(),
            Error::Xml { reason } => joined("malformed XML: ", reason, ""),
            Error::UnexpectedElement => "unexpected root element".to_owned(),
            Error::NotBeepXml => "expected Content-Type: application/beep+xml".to_owned(),
            Error::NotAGreeting { reason } => joined("not a greeting frame: ", reason, ""),
            Error::OutsideWindow { seqno, len, limit } => {
                let mut out = numbered("frame at seqno ", *seqno as u64, " of ");
                decimal::push_decimal(&mut out, *len as u64);
                out.push_str(" octets runs past the advertised window limit ");
                decimal::push_decimal(&mut out, *limit as u64);
                out
            },
            Error::UnexpectedSeqNo { found, expected } => {
                let mut out = numbered("expected seqno ", *expected as u64, ", found ");
                decimal::push_decimal(&mut out, *found as u64);
                out
            },
            Error::MsgNoInUse { msgno } => numbered(
                "message number ",
                *msgno as u64,
                " is still awaiting its reply",
            ),
            Error::MsgNoExhausted => "no message number is free on this channel".to_owned(),
            Error::UnknownMsgNo { msgno } => numbered(
                "no message ",
                *msgno as u64,
                " is outstanding on this channel",
            ),
            Error::InterleavedFragment =>
                "a new message began while another was still being reassembled".to_owned(),
            Error::ChannelStalled => "channel stalled, waiting for a SEQ frame".to_owned(),
            Error::ChannelNumber { reason } => joined("invalid channel number: ", reason, ""),
            Error::NoSuchChannel { channel } => numbered(
                "channel ",
                *channel as u64,
                " is not open",
            ),
        }
    }
}

/// `before`, `text` and `after` in one string.
pub(crate) fn joined(before: &str, text: &str, after: &str) -> (out: String)
    ensures
        out@ == before@ + text@ + after@,
        after@.len() == 0 ==> out@ == before@ + text@,
{
    let mut out = before.to_owned();
    out.push_str(text);
    out.push_str(after);
    assert(after@.len() == 0 ==> out@ =~= before@ + text@);
    out
}

/// `before`, `n` in decimal and `after` in one string.
pub(crate) fn numbered(before: &str, n: u64, after: &str) -> (out: String)
    ensures
        out@ == before@ + decimal::decimal_text(n as nat) + after@,
{
    let mut out = before.to_owned();
    decimal::push_decimal(&mut out, n);
    out.push_str(after);
    out
}

} // verus!
