//! Writing frames.

use bytes::{Bytes, BytesMut};
use vortice::decimal::{digits, put_u32};
use vortice::error::Error;
use vortice::frame::{
    DataFrame, FrameKind, SeqFrame, MAX_CHANNEL_NO, MAX_FRAME_SIZE, MAX_MSG_NO, MAX_SEQ_NO,
};

#[test]
fn digit_count_matches_rendering() {
    for value in [0u32, 9, 10, 99, 100, 4_294_967_295, MAX_FRAME_SIZE] {
        let mut buf = BytesMut::new();
        put_u32(&mut buf, value);
        assert_eq!(buf.len(), digits(value), "value {value}");
    }
}

#[test]
fn encodes_a_data_frame() {
    let frame = DataFrame::new(FrameKind::Rpy, 0, 0, 0, Bytes::from_static(b"hello")).unwrap();
    let mut buf = BytesMut::new();
    frame.encode(&mut buf);
    assert_eq!(&buf[..], b"RPY 0 0 . 0 5\r\nhelloEND\r\n");
    assert_eq!(buf.len(), frame.encoded_len());
}

#[test]
fn encodes_an_intermediate_frame() {
    let frame = DataFrame::new(FrameKind::Msg, 1, 2, 300, Bytes::from_static(b"ab"))
        .unwrap()
        .with_more(true);
    let mut buf = BytesMut::new();
    frame.encode(&mut buf);
    assert_eq!(&buf[..], b"MSG 1 2 * 300 2\r\nabEND\r\n");
}

#[test]
fn encodes_an_ans_frame_with_its_answer_number() {
    let frame = DataFrame::new_ans(3, 4, 5, 6, Bytes::from_static(b"x")).unwrap();
    let mut buf = BytesMut::new();
    frame.encode(&mut buf);
    assert_eq!(&buf[..], b"ANS 3 4 . 5 1 6\r\nxEND\r\n");
    assert_eq!(buf.len(), frame.encoded_len());
}

#[test]
fn encodes_a_seq_frame_without_payload_or_trailer() {
    let frame = SeqFrame::new(1, 4096, 8192).unwrap();
    let mut buf = BytesMut::new();
    frame.encode(&mut buf);
    assert_eq!(&buf[..], b"SEQ 1 4096 8192\r\n");
    assert_eq!(buf.len(), frame.encoded_len());
}

#[test]
fn ans_cannot_be_built_without_an_answer_number() {
    let err = DataFrame::new(FrameKind::Ans, 0, 0, 0, Bytes::new()).unwrap_err();
    assert_eq!(err, Error::MissingField { field: "ansno" });
}

#[test]
fn rejects_out_of_range_header_fields() {
    assert_eq!(
        DataFrame::new(FrameKind::Msg, MAX_CHANNEL_NO + 1, 0, 0, Bytes::new()).unwrap_err(),
        Error::ValueOutOfRange {
            field: "channel",
            max: MAX_CHANNEL_NO
        }
    );
    assert_eq!(
        DataFrame::new(FrameKind::Msg, 0, MAX_MSG_NO + 1, 0, Bytes::new()).unwrap_err(),
        Error::ValueOutOfRange {
            field: "msgno",
            max: MAX_MSG_NO
        }
    );
}

#[test]
fn seqno_uses_the_full_unsigned_range() {
    let frame = DataFrame::new(FrameKind::Msg, 0, 0, MAX_SEQ_NO, Bytes::new()).unwrap();
    let mut buf = BytesMut::new();
    frame.encode(&mut buf);
    assert_eq!(&buf[..], b"MSG 0 0 . 4294967295 0\r\nEND\r\n");
}

#[test]
fn names_every_frame_kind() {
    let names = [
        (FrameKind::Msg, "MSG"),
        (FrameKind::Rpy, "RPY"),
        (FrameKind::Error, "ERR"),
        (FrameKind::Ans, "ANS"),
        (FrameKind::Nul, "NUL"),
    ];
    for (kind, name) in names {
        assert_eq!(kind.as_str(), name);
        assert_eq!(FrameKind::from_token(name.as_bytes()), Some(kind));
        assert_eq!(kind.has_ansno(), kind == FrameKind::Ans);
    }
    assert_eq!(FrameKind::from_token(b"SEQ"), None);
    assert_eq!(FrameKind::from_token(b"msg"), None);
    assert_eq!(FrameKind::from_token(b"MSGS"), None);
}

#[test]
fn a_frame_hands_its_payload_back() {
    let frame = DataFrame::new(FrameKind::Msg, 1, 2, 3, Bytes::from_static(b"payload")).unwrap();
    assert_eq!(frame.payload(), b"payload");
    assert_eq!(frame.payload_bytes(), Bytes::from_static(b"payload"));
    assert_eq!(frame.size(), 7);
    assert_eq!(frame.into_payload(), Bytes::from_static(b"payload"));
}

#[test]
fn rejects_seq_frames_out_of_range() {
    assert_eq!(
        SeqFrame::new(MAX_CHANNEL_NO + 1, 0, 0).unwrap_err(),
        Error::ValueOutOfRange {
            field: "channel",
            max: MAX_CHANNEL_NO
        }
    );
    assert_eq!(
        SeqFrame::new(0, 0, MAX_FRAME_SIZE + 1).unwrap_err(),
        Error::ValueOutOfRange {
            field: "window",
            max: MAX_FRAME_SIZE
        }
    );
}
