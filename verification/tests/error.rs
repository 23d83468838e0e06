//! What errors say.

use vortice::error::Error;

#[test]
fn every_error_describes_itself() {
    let said = [
        (Error::UnknownFrameType, "unknown BEEP frame type"),
        (
            Error::HeaderTooLong { limit: 124 },
            "no CRLF found within 124 bytes of frame header",
        ),
        (
            Error::BareNewlineInHeader,
            "bare LF in frame header, CRLF required",
        ),
        (
            Error::MalformedHeader { reason: "why" },
            "malformed frame header: why",
        ),
        (
            Error::InvalidDigit { field: "size" },
            "non-digit byte in header field 'size'",
        ),
        (
            Error::MissingField { field: "msgno" },
            "missing header field 'msgno'",
        ),
        (
            Error::ValueOutOfRange {
                field: "channel",
                max: 2_147_483_647,
            },
            "header field 'channel' exceeds its maximum of 2147483647",
        ),
        (
            Error::InvalidContinuation { found: 9 },
            "invalid continuation indicator 0x09, expected '.' or '*'",
        ),
        (
            Error::FrameTooLarge {
                size: 5000,
                limit: 4096,
            },
            "frame payload of 5000 bytes exceeds the limit of 4096",
        ),
        (Error::MissingTrailer, "frame trailer 'END' CRLF not found"),
        (Error::NotUtf8, "payload is not valid UTF-8"),
        (Error::Xml { reason: "why" }, "malformed XML: why"),
        (Error::UnexpectedElement, "unexpected root element"),
        (
            Error::NotBeepXml,
            "expected Content-Type: application/beep+xml",
        ),
        (
            Error::NotAGreeting { reason: "why" },
            "not a greeting frame: why",
        ),
        (
            Error::OutsideWindow {
                seqno: 1,
                len: 2,
                limit: 3,
            },
            "frame at seqno 1 of 2 octets runs past the advertised window limit 3",
        ),
        (
            Error::UnexpectedSeqNo {
                found: 8,
                expected: 0,
            },
            "expected seqno 0, found 8",
        ),
        (
            Error::MsgNoInUse { msgno: 4 },
            "message number 4 is still awaiting its reply",
        ),
        (
            Error::MsgNoExhausted,
            "no message number is free on this channel",
        ),
        (
            Error::UnknownMsgNo { msgno: 10 },
            "no message 10 is outstanding on this channel",
        ),
        (
            Error::InterleavedFragment,
            "a new message began while another was still being reassembled",
        ),
        (
            Error::ChannelStalled,
            "channel stalled, waiting for a SEQ frame",
        ),
        (
            Error::ChannelNumber { reason: "why" },
            "invalid channel number: why",
        ),
        (
            Error::NoSuchChannel { channel: 4_294_967_295 },
            "channel 4294967295 is not open",
        ),
    ];
    for (error, text) in said {
        assert_eq!(error.message(), text);
    }
}
