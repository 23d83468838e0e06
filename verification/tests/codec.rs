//! Reading frames.

use bytes::{Bytes, BytesMut};
use vortice::codec::{frame_boundary, Decoder};
use vortice::error::Error;
use vortice::frame::{
    DataFrame, Frame, FrameKind, SeqFrame, MAX_CHANNEL_NO, MAX_HEADER_LEN, MAX_SEQ_NO,
};

fn decode_one(input: &[u8]) -> Result<Option<Frame>, Error> {
    let mut buf = BytesMut::from(input);
    Decoder::new().decode(&mut buf)
}

fn decode_err(input: &[u8]) -> Error {
    decode_one(input).expect_err("expected a decode error")
}

#[test]
fn decodes_a_complete_data_frame() {
    let frame = decode_one(b"RPY 0 0 . 0 5\r\nhelloEND\r\n")
        .unwrap()
        .unwrap();
    let data = frame.as_data().unwrap();
    assert_eq!(data.kind(), FrameKind::Rpy);
    assert_eq!(data.channel(), 0);
    assert_eq!(data.msgno(), 0);
    assert!(!data.more());
    assert_eq!(data.seqno(), 0);
    assert_eq!(data.payload(), b"hello");
    assert_eq!(data.ansno(), None);
}

#[test]
fn decodes_an_intermediate_frame() {
    let frame = decode_one(b"MSG 1 2 * 300 2\r\nabEND\r\n")
        .unwrap()
        .unwrap();
    assert!(frame.as_data().unwrap().more());
}

#[test]
fn decodes_an_ans_frame_with_its_answer_number() {
    let frame = decode_one(b"ANS 3 4 . 5 1 6\r\nxEND\r\n").unwrap().unwrap();
    let data = frame.as_data().unwrap();
    assert_eq!(data.kind(), FrameKind::Ans);
    assert_eq!(data.ansno(), Some(6));
    assert_eq!(data.payload(), b"x");
}

#[test]
fn decodes_a_seq_frame_which_has_no_payload() {
    let mut buf = BytesMut::from(&b"SEQ 1 4096 8192\r\n"[..]);
    let mut decoder = Decoder::new();
    let frame = decoder.decode(&mut buf).unwrap().unwrap();
    let seq = frame.as_seq().unwrap();
    assert_eq!((seq.channel(), seq.ackno(), seq.window()), (1, 4096, 8192));
    assert!(buf.is_empty());
    assert!(!decoder.has_partial_frame());
}

#[test]
fn decodes_a_nul_frame_carrying_mime_headers() {
    let frame = decode_one(b"NUL 1 0 . 10 2\r\n\r\nEND\r\n")
        .unwrap()
        .unwrap();
    let data = frame.as_data().unwrap();
    assert_eq!(data.kind(), FrameKind::Nul);
    assert_eq!(data.payload(), b"\r\n");
}

#[test]
fn round_trips_every_frame_kind() {
    let frames = [
        Frame::Data(DataFrame::new(FrameKind::Msg, 1, 2, 3, Bytes::from_static(b"a")).unwrap()),
        Frame::Data(DataFrame::new(FrameKind::Rpy, 0, 0, 0, Bytes::new()).unwrap()),
        Frame::Data(
            DataFrame::new(FrameKind::Error, 7, 8, 9, Bytes::from_static(b"boom")).unwrap(),
        ),
        Frame::Data(DataFrame::new_ans(1, 2, 3, 4, Bytes::from_static(b"ans")).unwrap()),
        Frame::Data(DataFrame::new(FrameKind::Nul, 1, 2, 3, Bytes::new()).unwrap()),
        Frame::Flow(SeqFrame::new(2, 100, 4096).unwrap()),
    ];
    for original in frames {
        let mut buf = BytesMut::new();
        original.encode(&mut buf);
        let decoded = Decoder::new().decode(&mut buf).unwrap().unwrap();
        assert_eq!(decoded, original);
        assert!(buf.is_empty(), "decoder left octets behind");
    }
}

#[test]
fn decodes_frames_arriving_one_octet_at_a_time() {
    let wire = b"MSG 1 0 . 0 11\r\nhello worldEND\r\nSEQ 1 11 4096\r\n";
    let mut decoder = Decoder::new();
    let mut buf = BytesMut::new();
    let mut frames = Vec::new();
    for &byte in wire {
        buf.extend_from_slice(&[byte]);
        while let Some(frame) = decoder.decode(&mut buf).unwrap() {
            frames.push(frame);
        }
    }
    assert_eq!(frames.len(), 2);
    assert_eq!(frames[0].as_data().unwrap().payload(), b"hello world");
    assert_eq!(frames[1].as_seq().unwrap().ackno(), 11);
}

#[test]
fn decodes_several_frames_from_one_buffer() {
    let mut buf = BytesMut::from(&b"RPY 0 0 . 0 1\r\naEND\r\nRPY 0 1 . 1 1\r\nbEND\r\n"[..]);
    let mut decoder = Decoder::new();
    assert_eq!(
        decoder
            .decode(&mut buf)
            .unwrap()
            .unwrap()
            .as_data()
            .unwrap()
            .payload(),
        b"a"
    );
    assert_eq!(
        decoder
            .decode(&mut buf)
            .unwrap()
            .unwrap()
            .as_data()
            .unwrap()
            .payload(),
        b"b"
    );
    assert!(decoder.decode(&mut buf).unwrap().is_none());
}

#[test]
fn waits_for_the_payload_without_losing_the_header() {
    let mut decoder = Decoder::new();
    let mut buf = BytesMut::from(&b"RPY 0 0 . 0 5\r\nhel"[..]);
    assert!(decoder.decode(&mut buf).unwrap().is_none());
    assert!(decoder.has_partial_frame());
    buf.extend_from_slice(b"loEND\r\n");
    let frame = decoder.decode(&mut buf).unwrap().unwrap();
    assert_eq!(frame.as_data().unwrap().payload(), b"hello");
    assert!(!decoder.has_partial_frame());
}


#[test]
fn rejects_a_header_terminated_by_a_bare_lf() {
    assert_eq!(decode_err(b"RPY\n"), Error::BareNewlineInHeader);
    assert_eq!(decode_err(b"RPY 0 0 . 0 0\n"), Error::BareNewlineInHeader);
}

#[test]
fn accepts_only_crlf_terminated_headers() {
    // "RPY\r\n" is CRLF terminated but has no fields at all.
    assert_eq!(
        decode_err(b"RPY\r\n"),
        Error::MalformedHeader {
            reason: "expected a single space after the frame type"
        }
    );
}

#[test]
fn rejects_a_nul_octet_inside_a_numeric_field() {
    assert_eq!(
        decode_err(b"RPY 1234123\0\r\n"),
        Error::InvalidDigit { field: "channel" }
    );
    assert_eq!(
        decode_err(b"RPY 0 0 . 0 \0\r\n"),
        Error::InvalidDigit { field: "size" }
    );
}

#[test]
fn rejects_a_bare_nul_octet_as_a_frame_type() {
    assert_eq!(decode_err(b"\0\0\0 0 0 . 0 0\r\n"), Error::UnknownFrameType);
}

#[test]
fn rejects_an_unknown_frame_type() {
    assert_eq!(decode_err(b"XXX 0 0 . 0 0\r\n"), Error::UnknownFrameType);
}

#[test]
fn rejects_a_header_with_no_crlf_within_the_limit() {
    let mut wire = Vec::from(&b"RPY "[..]);
    wire.resize(MAX_HEADER_LEN + 10, b'0');
    assert_eq!(
        decode_err(&wire),
        Error::HeaderTooLong {
            limit: MAX_HEADER_LEN
        }
    );
}

#[test]
fn waits_when_the_header_is_still_short_of_the_limit() {
    let mut buf = BytesMut::from(&b"RPY 0 0 . 0 5"[..]);
    assert!(Decoder::new().decode(&mut buf).unwrap().is_none());
    assert_eq!(buf.len(), 13, "unterminated header must not be consumed");
}

#[test]
fn rejects_an_invalid_continuation_indicator() {
    assert_eq!(
        decode_err(b"RPY 0 0 x 0 0\r\n"),
        Error::InvalidContinuation { found: b'x' }
    );
    assert_eq!(
        decode_err(b"RPY 0 0 .. 0 0\r\n"),
        Error::MalformedHeader {
            reason: "continuation indicator must be a single character"
        }
    );
}

#[test]
fn rejects_missing_and_empty_header_fields() {
    assert_eq!(
        decode_err(b"RPY 0 0 . 0\r\n"),
        Error::MissingField { field: "size" }
    );
    assert_eq!(
        decode_err(b"RPY 0 0 .  0 0\r\n"),
        Error::MissingField { field: "seqno" }
    );
    assert_eq!(
        decode_err(b"SEQ 1 4096\r\n"),
        Error::MissingField { field: "window" }
    );
}

#[test]
fn rejects_trailing_octets_after_the_last_field() {
    assert_eq!(
        decode_err(b"RPY 0 0 . 0 0 7\r\n"),
        Error::MalformedHeader {
            reason: "trailing octets after the last header field"
        }
    );
    // A trailing space counts as an empty extra field.
    assert_eq!(
        decode_err(b"SEQ 1 0 4096 \r\n"),
        Error::MalformedHeader {
            reason: "trailing octets after the last header field"
        }
    );
}

#[test]
fn rejects_an_ans_frame_without_an_answer_number() {
    assert_eq!(
        decode_err(b"ANS 0 0 . 0 0\r\n"),
        Error::MissingField { field: "ansno" }
    );
}

#[test]
fn rejects_out_of_range_values() {
    assert_eq!(
        decode_err(b"RPY 2147483648 0 . 0 0\r\n"),
        Error::ValueOutOfRange {
            field: "channel",
            max: MAX_CHANNEL_NO
        }
    );
    assert_eq!(
        decode_err(b"RPY 0 0 . 4294967296 0\r\n"),
        Error::ValueOutOfRange {
            field: "seqno",
            max: MAX_SEQ_NO
        }
    );
    // Overflow must be caught while accumulating, not after wrapping.
    assert_eq!(
        decode_err(b"RPY 0 0 . 99999999999999999999999 0\r\n"),
        Error::ValueOutOfRange {
            field: "seqno",
            max: MAX_SEQ_NO
        }
    );
}

#[test]
fn accepts_the_maximum_sequence_number() {
    let frame = decode_one(b"RPY 0 0 . 4294967295 0\r\nEND\r\n")
        .unwrap()
        .unwrap();
    assert_eq!(frame.as_data().unwrap().seqno(), MAX_SEQ_NO);
}

#[test]
fn rejects_a_missing_trailer() {
    assert_eq!(
        decode_err(b"RPY 0 0 . 0 5\r\nhelloXXXXX"),
        Error::MissingTrailer
    );
    assert_eq!(
        decode_err(b"RPY 0 0 . 0 5\r\nhelloEND\n\r"),
        Error::MissingTrailer
    );
}

#[test]
fn enforces_the_configured_frame_size_limit() {
    let mut buf = BytesMut::from(&b"RPY 0 0 . 0 5000\r\n"[..]);
    let err = Decoder::with_max_frame_size(4096)
        .decode(&mut buf)
        .expect_err("frame above the limit");
    assert_eq!(
        err,
        Error::FrameTooLarge {
            size: 5000,
            limit: 4096
        }
    );
}

#[test]
fn finds_where_the_first_frame_ends() {
    let first = b"RPY 0 0 . 0 5\r\nhelloEND\r\n";
    assert_eq!(frame_boundary(first), Some(first.len()));
    assert_eq!(
        frame_boundary(b"RPY 0 0 . 0 5\r\nhelloEND\r\nRPY 0 1 . 5 2\r\nhiEND\r\n"),
        Some(first.len())
    );
    assert_eq!(frame_boundary(b"SEQ 0 4096 4096\r\nRPY 0 0 . 0 2"), Some(17));
}

#[test]
fn finds_no_boundary_where_no_whole_frame_stands() {
    assert_eq!(frame_boundary(b""), None);
    assert_eq!(frame_boundary(b"RPY 0 0 . 0 5\r\nhelloEND\r"), None);
    assert_eq!(frame_boundary(b"RPY 0 0 . 0 5\r\nhelloXXXXX"), None);
    assert_eq!(frame_boundary(b"plain octets\r\n"), None);
}

/// However a stream of frames is cut in two, the same frames come out of it.
#[test]
fn the_same_frames_come_however_the_input_is_cut() {
    let wire: &[u8] = b"MSG 1 0 * 0 3\r\nabcEND\r\nMSG 1 0 . 3 0\r\nEND\r\nSEQ 1 3 4096\r\n";
    let drain = |decoder: &mut Decoder, buf: &mut BytesMut| {
        let mut frames = Vec::new();
        while let Some(frame) = decoder.decode(buf).unwrap() {
            frames.push(frame);
        }
        frames
    };
    let whole = drain(&mut Decoder::new(), &mut BytesMut::from(wire));
    assert_eq!(whole.len(), 3);
    for cut in 0..=wire.len() {
        let mut decoder = Decoder::new();
        let mut buf = BytesMut::from(&wire[..cut]);
        let mut frames = drain(&mut decoder, &mut buf);
        buf.extend_from_slice(&wire[cut..]);
        frames.extend(drain(&mut decoder, &mut buf));
        assert_eq!(frames, whole, "cut at {cut}");
    }
}
