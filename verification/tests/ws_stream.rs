//! A WebSocket seen as a byte stream.

use bytes::{Bytes, BytesMut};
use vortice::ws::codec::{Decoder, Event};
use vortice::ws::frame::{apply_mask, encode_header, OpCode, ProtocolError, MAX_SEND_PAYLOAD};
use vortice::ws::stream::{portion, Step, Written, WsStream, OUTBOUND_HIGH_WATER};

/// Builds one frame the way a peer would.
fn frame(opcode: OpCode, payload: &[u8], mask: Option<[u8; 4]>) -> Vec<u8> {
    let mut buffer = BytesMut::new();
    encode_header(&mut buffer, opcode, true, payload.len(), mask);
    let at = buffer.len();
    buffer.extend_from_slice(payload);
    if let Some(mask) = mask {
        apply_mask(&mut buffer[at..], mask, 0);
    }
    buffer.to_vec()
}

/// Decodes everything a stream wrote, as its peer would.
fn decode(wire: &[u8]) -> Vec<Event> {
    let mut buffer = BytesMut::from(wire);
    let mut decoder = Decoder::new();
    let mut events = Vec::new();
    while let Some(event) = decoder.poll(&mut buffer).expect("valid framing") {
        events.push(event);
    }
    events
}

/// Reads to the end of a stream whose peer sends `wire` in pieces and then stops, answering
/// what has to be answered.
fn read_to_end(stream: &mut WsStream, wire: &[u8], piece: usize) -> Result<Vec<u8>, ProtocolError> {
    let mut pieces = wire.chunks(piece);
    let mut read = Vec::new();
    loop {
        match stream.advance(3)? {
            Step::Deliver(octets) => read.extend_from_slice(&octets),
            Step::End => return Ok(read),
            Step::Send(opcode, payload) => stream.queue(opcode, &payload).expect("randomness"),
            Step::Fill => stream.received(pieces.next().unwrap_or_default()),
        }
    }
}

/// Writes all of `octets`, letting the transport take what is queued whenever there is too much
/// of it, and returns what went out.
fn write_all(stream: &mut WsStream, mut octets: &[u8]) -> Vec<u8> {
    let mut wire = Vec::new();
    while !octets.is_empty() {
        match stream.write(octets).expect("randomness") {
            Written::Nothing => panic!("there was something to write"),
            Written::Wait => wire.extend(drain(stream)),
            Written::Queued(taken) => octets = &octets[taken..],
        }
    }
    wire.extend(drain(stream));
    wire
}

/// Takes everything that waits to go out, a little at a time.
fn drain(stream: &mut WsStream) -> Vec<u8> {
    let mut wire = Vec::new();
    while !stream.pending().is_empty() {
        let taken = stream.pending().len().min(1000);
        wire.extend_from_slice(&stream.pending()[..taken]);
        assert!(stream.sent(taken));
    }
    assert!(!stream.sent(0));
    wire
}

#[test]
fn reads_payload_with_the_framing_removed() {
    let mut wire = frame(OpCode::Binary, b"RPY 0 0 . ", None);
    wire.extend_from_slice(&frame(OpCode::Binary, b"0 0\r\nEND\r\n", None));
    for piece in [1, 5, wire.len()] {
        let mut stream = WsStream::server(Bytes::new());
        assert_eq!(
            read_to_end(&mut stream, &wire, piece).expect("read"),
            b"RPY 0 0 . 0 0\r\nEND\r\n"
        );
    }
}

#[test]
fn replays_a_prefix_read_during_the_handshake() {
    let prefix = Bytes::from(frame(OpCode::Binary, b"already here", None));
    let mut stream = WsStream::server(prefix);
    assert_eq!(
        read_to_end(&mut stream, b"", 1).expect("read"),
        b"already here"
    );
}

#[test]
fn reads_a_text_frame_holding_octets_that_are_not_utf8() {
    let payload = [0x00u8, 0xff, 0xc0, 0x80, 0x41];
    let wire = frame(OpCode::Text, &payload, None);
    let mut stream = WsStream::server(Bytes::new());
    assert_eq!(read_to_end(&mut stream, &wire, 4).expect("read"), payload);
}

#[test]
fn a_close_frame_ends_the_stream() {
    let mut wire = frame(OpCode::Binary, b"last words", None);
    wire.extend_from_slice(&frame(OpCode::Close, &1000u16.to_be_bytes(), None));
    wire.extend_from_slice(&frame(OpCode::Binary, b"never seen", None));

    let mut stream = WsStream::server(Bytes::new());
    let read = read_to_end(&mut stream, &wire, wire.len()).expect("read");
    assert_eq!(
        read, b"last words",
        "nothing after the close frame should be delivered"
    );
    assert_eq!(
        decode(&drain(&mut stream)),
        vec![Event::Close {
            code: Some(1000),
            reason: Bytes::new(),
        }],
        "a close is answered with a close"
    );
    assert_eq!(stream.close(), None, "and only one is sent");
}

#[test]
fn a_ping_is_answered_without_the_session_seeing_it() {
    let mut wire = frame(OpCode::Ping, b"probe", None);
    wire.extend_from_slice(&frame(OpCode::Pong, b"unasked", None));
    wire.extend_from_slice(&frame(OpCode::Binary, b"payload", None));

    let mut stream = WsStream::server(Bytes::new());
    let read = read_to_end(&mut stream, &wire, 3).expect("read");
    assert_eq!(read, b"payload", "the ping must not reach the session");
    assert_eq!(
        decode(&drain(&mut stream)),
        vec![Event::Pong(Bytes::from_static(b"probe"))]
    );
}

/// Everything before the first close comes up, in order; each ping has its pong and the close its
/// close; nothing else goes out.
#[test]
fn a_whole_run_of_reads_stops_at_the_close() {
    let mask = Some([7, 0, 255, 1]);
    let mut wire = frame(OpCode::Binary, b"one ", mask);
    wire.extend_from_slice(&frame(OpCode::Ping, b"first", mask));
    wire.extend_from_slice(&frame(OpCode::Text, b"", mask));
    wire.extend_from_slice(&frame(OpCode::Pong, b"unasked", mask));
    wire.extend_from_slice(&frame(OpCode::Binary, b"two", mask));
    wire.extend_from_slice(&frame(OpCode::Ping, b"second", mask));
    wire.extend_from_slice(&frame(OpCode::Close, b"", mask));
    wire.extend_from_slice(&frame(OpCode::Ping, b"late", mask));
    wire.extend_from_slice(&[0xff, 0xff]);

    let pongs = vec![
        Event::Pong(Bytes::from_static(b"first")),
        Event::Pong(Bytes::from_static(b"second")),
    ];
    let close = Event::Close {
        code: Some(1000),
        reason: Bytes::new(),
    };
    for piece in [1, 2, 7, wire.len()] {
        let mut stream = WsStream::server(Bytes::new());
        assert_eq!(read_to_end(&mut stream, &wire, piece).expect("read"), b"one two");
        let mut answers = pongs.clone();
        answers.push(close.clone());
        assert_eq!(decode(&drain(&mut stream)), answers);

        // An end that has closed already does not close again.
        let mut stream = WsStream::client(Bytes::new());
        match stream.close() {
            Some(Step::Send(opcode, payload)) => stream.queue(opcode, &payload).expect("randomness"),
            step => panic!("nothing was closed yet: {step:?}"),
        }
        assert_eq!(read_to_end(&mut stream, &wire, piece).expect("read"), b"one two");
        let mut answers = vec![close.clone()];
        answers.extend(pongs.clone());
        assert_eq!(decode(&drain(&mut stream)), answers);
    }
}

#[test]
fn a_server_writes_unmasked_binary_frames() {
    let mut stream = WsStream::server(Bytes::new());
    let wire = write_all(&mut stream, b"MSG 0 0 . 0 0");
    assert_eq!(wire[0], 0x82, "FIN set, binary opcode");
    assert_eq!(wire[1] & 0x80, 0, "a server must not mask");
    assert_eq!(
        decode(&wire),
        vec![Event::Data(Bytes::from_static(b"MSG 0 0 . 0 0"))]
    );
}

#[test]
fn a_client_masks_what_it_writes() {
    let mut stream = WsStream::client(Bytes::new());
    let wire = write_all(&mut stream, b"MSG 0 0 . 0 0");
    assert_eq!(wire[1] & 0x80, 0x80, "a client must mask");
    assert_eq!(
        decode(&wire),
        vec![Event::Data(Bytes::from_static(b"MSG 0 0 . 0 0"))],
        "and the payload must survive the masking"
    );

    let mut stream = WsStream::client(Bytes::new());
    assert_eq!(stream.write_with(b"ab", [1, 2, 3, 4]), Written::Queued(2));
    assert_eq!(
        stream.pending(),
        [0x82, 0x82, 1, 2, 3, 4, b'a' ^ 1, b'b' ^ 2]
    );
}

#[test]
fn one_write_holding_two_beep_frames_becomes_two_websocket_frames() {
    let mut stream = WsStream::server(Bytes::new());
    let wire = write_all(
        &mut stream,
        b"RPY 0 0 . 0 5\r\nhelloEND\r\nRPY 0 1 . 5 2\r\nhiEND\r\n",
    );
    assert_eq!(
        decode(&wire),
        vec![
            Event::Data(Bytes::from_static(b"RPY 0 0 . 0 5\r\nhelloEND\r\n")),
            Event::Data(Bytes::from_static(b"RPY 0 1 . 5 2\r\nhiEND\r\n")),
        ]
    );
}

/// A SEQ frame is a header line with no payload, so its boundary is the line itself.
#[test]
fn a_seq_frame_is_not_merged_with_what_follows_it() {
    let mut stream = WsStream::server(Bytes::new());
    let wire = write_all(
        &mut stream,
        b"SEQ 0 4096 4096\r\nRPY 0 0 . 0 2\r\nhiEND\r\n",
    );
    assert_eq!(
        decode(&wire),
        vec![
            Event::Data(Bytes::from_static(b"SEQ 0 4096 4096\r\n")),
            Event::Data(Bytes::from_static(b"RPY 0 0 . 0 2\r\nhiEND\r\n")),
        ]
    );
}

#[test]
fn a_large_write_is_split_across_frames_that_rejoin() {
    let payload: Vec<u8> = (0..MAX_SEND_PAYLOAD * 12 + 17)
        .map(|index| (index % 251) as u8)
        .collect();
    for mut stream in [WsStream::server(Bytes::new()), WsStream::client(Bytes::new())] {
        let wire = write_all(&mut stream, &payload);
        let mut peer = WsStream::server(Bytes::new());
        peer.received(&wire);
        let mut rejoined = Vec::new();
        while let Step::Deliver(octets) = peer.advance(100_000).expect("valid framing") {
            rejoined.extend_from_slice(&octets);
        }
        assert_eq!(rejoined, payload);
    }
}

#[test]
fn a_write_waits_while_too_much_is_queued() {
    let mut stream = WsStream::server(Bytes::new());
    assert_eq!(stream.write(b"").expect("server"), Written::Nothing);
    let chunk = vec![b'x'; MAX_SEND_PAYLOAD];
    while stream.pending().len() < OUTBOUND_HIGH_WATER {
        assert_eq!(
            stream.write(&chunk).expect("server"),
            Written::Queued(MAX_SEND_PAYLOAD)
        );
    }
    assert_eq!(stream.write(b"more").expect("server"), Written::Wait);
    assert_eq!(stream.write(b"").expect("server"), Written::Nothing);
}

#[test]
fn shutting_down_sends_a_close_frame() {
    let mut stream = WsStream::server(Bytes::new());
    match stream.close() {
        Some(Step::Send(opcode, payload)) => stream.queue(opcode, &payload).expect("server"),
        other => panic!("expected a close frame, got {other:?}"),
    }
    assert_eq!(stream.close(), None);
    assert_eq!(
        decode(&drain(&mut stream)),
        vec![Event::Close {
            code: Some(1000),
            reason: Bytes::new(),
        }]
    );
}

#[test]
fn malformed_framing_becomes_a_read_error() {
    // A reserved bit set, which is forbidden without an extension.
    let mut stream = WsStream::server(Bytes::new());
    assert_eq!(
        read_to_end(&mut stream, &[0x40, 0x00], 2),
        Err(ProtocolError::ReservedBits)
    );
}

#[test]
fn a_portion_is_never_more_than_one_frame_holds() {
    assert_eq!(portion(b""), 0);
    assert_eq!(portion(b"not a frame"), 11);
    assert_eq!(portion(&vec![b'x'; MAX_SEND_PAYLOAD + 1]), MAX_SEND_PAYLOAD);
    let mut long = b"MSG 1 0 . 0 70000\r\n".to_vec();
    long.resize(long.len() + 70_000, b'x');
    long.extend_from_slice(b"END\r\n");
    assert_eq!(portion(&long), MAX_SEND_PAYLOAD);
}
