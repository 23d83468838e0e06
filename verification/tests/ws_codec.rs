//! WebSocket frames.

use bytes::{Bytes, BytesMut};
use vortice::ws::codec::{Decoder, Event};
use vortice::ws::frame::{apply_mask, encode_header, OpCode, ProtocolError};

/// Builds one frame the way a peer would.
fn frame(opcode: OpCode, fin: bool, payload: &[u8], mask: Option<[u8; 4]>) -> BytesMut {
    let mut buffer = BytesMut::new();
    encode_header(&mut buffer, opcode, fin, payload.len(), mask);
    let at = buffer.len();
    buffer.extend_from_slice(payload);
    if let Some(mask) = mask {
        apply_mask(&mut buffer[at..], mask, 0);
    }
    buffer
}

#[test]
fn decodes_a_binary_frame() {
    let mut buffer = frame(OpCode::Binary, true, b"RPY 0 0 . 0 0", None);
    let event = Decoder::new().poll(&mut buffer).expect("valid");
    assert_eq!(
        event,
        Some(Event::Data(Bytes::from_static(b"RPY 0 0 . 0 0")))
    );
    assert!(buffer.is_empty(), "the frame should have been consumed");
}

#[test]
fn unmasks_a_client_frame() {
    let mut buffer = frame(OpCode::Binary, true, b"masked payload", Some([7, 8, 9, 10]));
    let event = Decoder::new().poll(&mut buffer).expect("valid");
    assert_eq!(
        event,
        Some(Event::Data(Bytes::from_static(b"masked payload")))
    );
}

#[test]
fn accepts_a_text_frame_carrying_arbitrary_octets() {
    let payload = [0x00, 0xff, 0xfe, 0x80, 0x41];
    let mut buffer = frame(OpCode::Text, true, &payload, None);
    let event = Decoder::new().poll(&mut buffer).expect("valid");
    assert_eq!(
        event,
        Some(Event::Data(Bytes::copy_from_slice(&payload))),
        "a text frame whose payload is not UTF-8 must still be delivered"
    );
}

/// Message boundaries carry nothing, so a fragmented message is just more payload.
#[test]
fn treats_continuation_frames_as_more_payload() {
    let mut buffer = frame(OpCode::Binary, false, b"first", None);
    buffer.extend_from_slice(&frame(OpCode::Continuation, true, b"second", None));

    let mut decoder = Decoder::new();
    assert_eq!(
        decoder.poll(&mut buffer).expect("valid"),
        Some(Event::Data(Bytes::from_static(b"first")))
    );
    assert_eq!(
        decoder.poll(&mut buffer).expect("valid"),
        Some(Event::Data(Bytes::from_static(b"second")))
    );
}

#[test]
fn leaves_a_partial_frame_alone() {
    let complete = frame(OpCode::Binary, true, b"a whole payload", None);
    let mut decoder = Decoder::new();

    for prefix in 0..complete.len() {
        let mut buffer = BytesMut::from(&complete[..prefix]);
        assert_eq!(
            decoder.poll(&mut buffer).expect("valid"),
            None,
            "{prefix} octets is not a whole frame"
        );
        assert_eq!(
            buffer.len(),
            prefix,
            "an incomplete frame must not be consumed"
        );
    }
}

#[test]
fn codec_decodes_frames_arriving_one_octet_at_a_time() {
    let mut wire = frame(OpCode::Binary, true, b"first", Some([1, 2, 3, 4]));
    wire.extend_from_slice(&frame(OpCode::Binary, true, b"second", None));

    let mut decoder = Decoder::new();
    let mut buffer = BytesMut::new();
    let mut seen = Vec::new();
    for octet in wire {
        buffer.extend_from_slice(&[octet]);
        while let Some(event) = decoder.poll(&mut buffer).expect("valid") {
            seen.push(event);
        }
    }

    assert_eq!(
        seen,
        vec![
            Event::Data(Bytes::from_static(b"first")),
            Event::Data(Bytes::from_static(b"second")),
        ]
    );
}

#[test]
fn decodes_a_ping_and_a_pong() {
    let mut buffer = frame(OpCode::Ping, true, b"probe", None);
    buffer.extend_from_slice(&frame(OpCode::Pong, true, b"probe", None));

    let mut decoder = Decoder::new();
    assert_eq!(
        decoder.poll(&mut buffer).expect("valid"),
        Some(Event::Ping(Bytes::from_static(b"probe")))
    );
    assert_eq!(
        decoder.poll(&mut buffer).expect("valid"),
        Some(Event::Pong(Bytes::from_static(b"probe")))
    );
}

#[test]
fn decodes_a_close_with_and_without_a_code() {
    let mut payload = 1000u16.to_be_bytes().to_vec();
    payload.extend_from_slice(b"going away");
    let mut buffer = frame(OpCode::Close, true, &payload, None);
    assert_eq!(
        Decoder::new().poll(&mut buffer).expect("valid"),
        Some(Event::Close {
            code: Some(1000),
            reason: Bytes::from_static(b"going away"),
        })
    );

    let mut buffer = frame(OpCode::Close, true, b"", None);
    assert_eq!(
        Decoder::new().poll(&mut buffer).expect("valid"),
        Some(Event::Close {
            code: None,
            reason: Bytes::new(),
        })
    );
}

#[test]
fn reports_a_protocol_error() {
    let mut buffer = BytesMut::from(&[0x40u8, 0x00][..]);
    assert_eq!(
        Decoder::new().poll(&mut buffer),
        Err(ProtocolError::ReservedBits)
    );
}

/// However a stream of frames is cut in two, the same events come out of it.
#[test]
fn the_same_events_come_however_the_input_is_cut() {
    let mut wire = frame(OpCode::Binary, false, b"first", Some([1, 2, 3, 4]));
    wire.extend_from_slice(&frame(OpCode::Ping, true, b"", None));
    wire.extend_from_slice(&frame(OpCode::Continuation, true, b"second", None));
    let drain = |buffer: &mut BytesMut| {
        let mut events = Vec::new();
        while let Some(event) = Decoder::new().poll(buffer).expect("valid") {
            events.push(event);
        }
        events
    };
    let whole = drain(&mut wire.clone());
    assert_eq!(whole.len(), 3);
    for cut in 0..=wire.len() {
        let mut buffer = BytesMut::from(&wire[..cut]);
        let mut events = drain(&mut buffer);
        buffer.extend_from_slice(&wire[cut..]);
        events.extend(drain(&mut buffer));
        assert_eq!(events, whole, "cut at {cut}");
    }
}

#[test]
fn a_close_of_one_octet_has_no_code() {
    let mut buffer = frame(OpCode::Close, true, b"x", None);
    assert_eq!(
        Decoder::new().poll(&mut buffer).expect("valid"),
        Some(Event::Close {
            code: None,
            reason: Bytes::new(),
        })
    );
}
