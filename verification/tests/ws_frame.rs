//! WebSocket frame headers.

use bytes::BytesMut;
use vortice::ws::error::Error;
use vortice::ws::frame::{
    apply_mask, decode_header, drawn_key, encode_header, Header, OpCode, ProtocolError,
    MAX_PAYLOAD,
};

/// Encodes a header and reads it back, which is the property the two share.
fn roundtrip(opcode: OpCode, fin: bool, len: usize, mask: Option<[u8; 4]>) -> Header {
    let mut buffer = BytesMut::new();
    encode_header(&mut buffer, opcode, fin, len, mask);
    decode_header(&buffer)
        .expect("valid header")
        .expect("complete header")
}

#[test]
fn round_trips_every_length_form() {
    // 125 is the last short length, 126 the first sixteen-bit one, 65536 the first
    // sixty-four-bit one.
    for len in [0usize, 1, 125, 126, 127, 65_535, 65_536, 100_000] {
        let header = roundtrip(OpCode::Binary, true, len, None);
        assert_eq!(header.payload_len, len, "length {len}");
        assert_eq!(header.opcode, OpCode::Binary);
        assert!(header.fin);
        assert_eq!(header.mask, None);
    }
}

#[test]
fn round_trips_a_masked_header() {
    let header = roundtrip(OpCode::Binary, true, 300, Some([1, 2, 3, 4]));
    assert_eq!(header.mask, Some([1, 2, 3, 4]));
    assert_eq!(header.payload_len, 300);
    // Two octets of prefix, two of length, four of mask.
    assert_eq!(header.header_len, 8);
}

#[test]
fn reports_an_incomplete_header() {
    let mut buffer = BytesMut::new();
    encode_header(&mut buffer, OpCode::Binary, true, 70_000, Some([9; 4]));
    for prefix in 0..buffer.len() {
        assert_eq!(
            decode_header(&buffer[..prefix]),
            Ok(None),
            "a {prefix}-octet prefix should not decode"
        );
    }
    assert!(decode_header(&buffer).expect("valid").is_some());
}

#[test]
fn refuses_reserved_bits_and_opcodes() {
    assert_eq!(
        decode_header(&[0x40, 0x00]),
        Err(ProtocolError::ReservedBits)
    );
    assert_eq!(
        decode_header(&[0x83, 0x00]),
        Err(ProtocolError::UnknownOpCode(3))
    );
}

#[test]
fn refuses_malformed_control_frames() {
    // A close frame of 126 octets: longer than §5.5 allows.
    assert_eq!(
        decode_header(&[0x88, 126, 0x00, 0x7e]),
        Err(ProtocolError::ControlFrameTooLarge(126))
    );
    // A ping without FIN.
    assert_eq!(
        decode_header(&[0x09, 0x00]),
        Err(ProtocolError::FragmentedControlFrame)
    );
}

#[test]
fn refuses_a_payload_larger_than_the_ceiling() {
    let mut header = vec![0x82, 127];
    header.extend_from_slice(&(MAX_PAYLOAD as u64 + 1).to_be_bytes());
    assert_eq!(
        decode_header(&header),
        Err(ProtocolError::PayloadTooLarge(MAX_PAYLOAD as u64 + 1))
    );
}

#[test]
fn refuses_a_length_padded_into_a_longer_form() {
    // 125 octets announced through the sixteen-bit form, which §5.2 forbids.
    assert_eq!(
        decode_header(&[0x82, 126, 0x00, 0x7d]),
        Err(ProtocolError::NonMinimalLength)
    );
    // And through the sixty-four-bit one.
    assert_eq!(
        decode_header(&[0x82, 127, 0, 0, 0, 0, 0, 0, 0xff, 0xff]),
        Err(ProtocolError::NonMinimalLength)
    );
}

#[test]
fn masking_is_its_own_inverse() {
    let mask = [0xde, 0xad, 0xbe, 0xef];
    let original: Vec<u8> = (0..=255).collect();
    let mut payload = original.clone();
    apply_mask(&mut payload, mask, 0);
    assert_ne!(payload, original, "masking should change the payload");
    apply_mask(&mut payload, mask, 0);
    assert_eq!(payload, original);
}

#[test]
fn masking_in_two_passes_matches_masking_in_one() {
    let mask = [1, 2, 3, 4];
    let original: Vec<u8> = (0..100).collect();

    let mut once = original.clone();
    apply_mask(&mut once, mask, 0);

    // Split at 7, which is not a multiple of four, so the offset has to be carried.
    let mut twice = original.clone();
    let (head, tail) = twice.split_at_mut(7);
    apply_mask(head, mask, 0);
    apply_mask(tail, mask, 7);

    assert_eq!(once, twice);
}

#[test]
fn every_opcode_has_its_number() {
    let numbers = [
        (OpCode::Continuation, 0x0),
        (OpCode::Text, 0x1),
        (OpCode::Binary, 0x2),
        (OpCode::Close, 0x8),
        (OpCode::Ping, 0x9),
        (OpCode::Pong, 0xa),
    ];
    for (opcode, number) in numbers {
        assert_eq!(opcode.bits(), number);
        assert_eq!(OpCode::from_bits(number), Some(opcode));
        assert_eq!(opcode.is_control(), number >= 8);
    }
    for reserved in [0x3, 0x7, 0xb, 0xf, 0x10] {
        assert_eq!(OpCode::from_bits(reserved), None);
    }
}

#[test]
fn writes_the_octets_of_a_header() {
    let written = |opcode, fin, len, mask| {
        let mut buffer = BytesMut::new();
        encode_header(&mut buffer, opcode, fin, len, mask);
        buffer.to_vec()
    };
    assert_eq!(written(OpCode::Binary, true, 5, None), [0x82, 5]);
    assert_eq!(
        written(OpCode::Text, false, 300, Some([1, 2, 3, 4])),
        [0x01, 0xfe, 0x01, 0x2c, 1, 2, 3, 4]
    );
    assert_eq!(
        written(OpCode::Binary, true, 65_536, None),
        [0x82, 127, 0, 0, 0, 0, 0, 1, 0, 0]
    );
}

#[test]
fn masking_is_an_exclusive_or_with_the_key() {
    let mut payload = [0x00, 0xff, 0x0f, 0xf0, 0x55];
    apply_mask(&mut payload, [0x01, 0x02, 0x04, 0x08], 1);
    assert_eq!(payload, [0x02, 0xfb, 0x07, 0xf1, 0x57]);
}

#[test]
fn protocol_errors_describe_themselves() {
    let said = [
        (
            ProtocolError::ReservedBits,
            "a reserved bit is set on a frame header",
        ),
        (
            ProtocolError::UnknownOpCode(3),
            "reserved websocket opcode 0x3",
        ),
        (
            ProtocolError::UnknownOpCode(0xab),
            "reserved websocket opcode 0xab",
        ),
        (
            ProtocolError::ControlFrameTooLarge(126),
            "control frame of 126 octets, the limit is 125",
        ),
        (
            ProtocolError::FragmentedControlFrame,
            "a control frame was fragmented",
        ),
        (
            ProtocolError::PayloadTooLarge(20_000_000),
            "frame declares 20000000 octets of payload, the limit is 16777216",
        ),
        (
            ProtocolError::NonMinimalLength,
            "a payload length was not minimally encoded",
        ),
    ];
    for (error, text) in said {
        assert_eq!(error.message(), text);
    }
}

#[test]
fn a_key_is_what_was_drawn() {
    assert_eq!(drawn_key(true, [1, 2, 3, 4]), Ok([1, 2, 3, 4]));
    assert_eq!(drawn_key(false, [1, 2, 3, 4]), Err(Error::Entropy));
}
