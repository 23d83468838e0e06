//! The framing of RFC 6455, bit by bit, and what its frames and its handshake say.

use crate::head;
use crate::text;
use crate::ws::codec;
use crate::ws::codec::EventView;
use crate::ws::digest;
use crate::ws::error::Error;
use crate::ws::frame;
use crate::ws::frame::{HeaderView, OpCode, ProtocolError};
use crate::ws::handshake;
use crate::ws::server;
use crate::ws::stream;
use crate::ws::stream::{Side, StreamView};
use vstd::prelude::*;
use vstd::utf8;

verus! {

/// The number of an opcode.
pub open spec fn opcode_number(opcode: OpCode) -> int {
    match opcode {
        OpCode::Continuation => 0,
        OpCode::Text => 1,
        OpCode::Binary => 2,
        OpCode::Close => 8,
        OpCode::Ping => 9,
        OpCode::Pong => 10,
    }
}

/// Opcodes are the numbers that RFC 6455 gives them, and no others; those from eight on control
/// the connection.
pub proof fn law_opcodes_are_those_of_rfc6455(opcode: OpCode, number: u8)
    ensures
        opcode.number() == opcode_number(opcode),
        OpCode::of_number(number) == Some(opcode) <==> number == opcode_number(opcode),
        OpCode::of_number(number) is None <==> number != 0 && number != 1 && number != 2 && number
            != 8 && number != 9 && number != 10,
        opcode.controls() <==> opcode_number(opcode) >= 8,
{
}

/// The length that the octets from the second on of a header declare: seven bits, or what the two
/// or the eight octets behind them write where they hold 126 or 127.
pub open spec fn length_of(b: Seq<u8>) -> int {
    let short = b[1] as int % 128;
    if short < 126 {
        short
    } else if short == 126 {
        b[2] * 0x100 + b[3]
    } else {
        b[2] * 0x100_0000_0000_0000 + b[3] * 0x1_0000_0000_0000 + b[4] * 0x100_0000_0000 + b[5]
            * 0x1_0000_0000 + b[6] * 0x100_0000 + b[7] * 0x1_0000 + b[8] * 0x100 + b[9]
    }
}

/// How many octets a header takes up to its mask.
pub open spec fn length_ends(b: Seq<u8>) -> int {
    let short = b[1] as int % 128;
    if short < 126 {
        2
    } else if short == 126 {
        4
    } else {
        10
    }
}

/// Whether a header stands at the front of some octets. The first holds the end of a message in
/// its top bit, three zeros, and the opcode; the second holds in its top bit whether four octets
/// of mask follow the length. The length is written as short as it can be and is sixteen mebioctets
/// at most, or 125 octets in a frame that controls the connection, which is whole.
pub open spec fn is_header(b: Seq<u8>, h: HeaderView) -> bool {
    let end = length_ends(b);
    &&& b.len() >= 2 && b.len() >= end
    &&& b[0] == opcode_number(h.opcode) + (if h.fin {
        128int
    } else {
        0
    })
    &&& h.payload_len == length_of(b)
    &&& end == 4 ==> h.payload_len >= 126
    &&& end == 10 ==> h.payload_len >= 65536
    &&& h.payload_len <= 16777216
    &&& opcode_number(h.opcode) >= 8 ==> h.fin && h.payload_len <= 125
    &&& if b[1] >= 128 {
        &&& b.len() >= end + 4
        &&& h.mask == Some(b.subrange(end, end + 4))
        &&& h.header_len == end + 4
    } else {
        &&& h.mask is None
        &&& h.header_len == end
    }
}

proof fn lemma_eight(s: Seq<u8>)
    requires
        s.len() == 8,
    ensures
        frame::big_endian(s) == s[0] * 0x100_0000_0000_0000 + s[1] * 0x1_0000_0000_0000 + s[2]
            * 0x100_0000_0000 + s[3] * 0x1_0000_0000 + s[4] * 0x100_0000 + s[5] * 0x1_0000 + s[6]
            * 0x100 + s[7],
{
    reveal_with_fuel(frame::big_endian, 9);
}

proof fn lemma_two(s: Seq<u8>)
    requires
        s.len() == 2,
    ensures
        frame::big_endian(s) == s[0] * 0x100 + s[1],
{
    reveal_with_fuel(frame::big_endian, 3);
}

proof fn lemma_length(b: Seq<u8>)
    requires
        b.len() >= 2,
    ensures
        b.len() >= length_ends(b) ==> match frame::declared_len(b) {
            Ok(Some((len, extra))) => len == length_of(b) && extra + 2 == length_ends(b) && (
            length_ends(b) == 4 ==> len >= 126) && (length_ends(b) == 10 ==> len >= 65536),
            Ok(None) => false,
            Err(e) => e == ProtocolError::NonMinimalLength && ((length_ends(b) == 4 && length_of(b)
                < 126) || (length_ends(b) == 10 && length_of(b) < 65536)),
        },
        b.len() < length_ends(b) ==> frame::declared_len(b) == Ok::<
            Option<(nat, nat)>,
            ProtocolError,
        >(None),
{
    if b.len() >= 4 {
        lemma_two(b.subrange(2, 4));
    }
    if b.len() >= 10 {
        lemma_eight(b.subrange(2, 10));
    }
}

proof fn lemma_first_octet(b0: u8, opcode: OpCode)
    ensures
        b0 as int / 16 % 8 == 0 ==> (b0 % 16 == opcode_number(opcode) <==> b0 == opcode_number(
            opcode,
        ) + (if b0 >= 128 {
            128int
        } else {
            0
        })),
        b0 == opcode_number(opcode) ==> b0 as int / 16 % 8 == 0 && b0 < 128,
        b0 == opcode_number(opcode) + 128 ==> b0 as int / 16 % 8 == 0 && b0 >= 128,
{
}

/// A header is read exactly where one stands. Where none can stand, because of a reserved bit, an
/// opcode that is none, a length that is too large or not written as short as it can be, or a
/// frame that controls the connection and is too long or not whole, that is said. Where more has
/// to come before this can be told, it is waited for.
pub proof fn law_headers_are_their_bits(b: Seq<u8>, h: HeaderView)
    ensures
        frame::header_at(b) == Ok::<Option<HeaderView>, ProtocolError>(Some(h)) <==> is_header(b, h),
        b.len() < 2 ==> frame::header_at(b) == Ok::<Option<HeaderView>, ProtocolError>(None),
        b.len() >= 2 && b[0] as int / 16 % 8 != 0 ==> frame::header_at(b) == Err::<
            Option<HeaderView>,
            ProtocolError,
        >(ProtocolError::ReservedBits),
        frame::header_at(b) matches Err(e) ==> match e {
            ProtocolError::ReservedBits => b[0] as int / 16 % 8 != 0,
            ProtocolError::UnknownOpCode(n) => n == b[0] % 16 && (3 <= n < 8 || n > 10),
            ProtocolError::NonMinimalLength => (length_ends(b) == 4 && length_of(b) < 126) || (
            length_ends(b) == 10 && length_of(b) < 65536),
            ProtocolError::PayloadTooLarge(n) => n == length_of(b) && n > 16777216,
            ProtocolError::ControlFrameTooLarge(n) => n == length_of(b) && n > 125 && b[0] % 16 >= 8,
            ProtocolError::FragmentedControlFrame => b[0] % 16 >= 8 && b[0] < 128,
        },
        frame::header_at(b) == Ok::<Option<HeaderView>, ProtocolError>(None) ==> b.len() < 2
            || b.len() < length_ends(b) + (if b[1] >= 128 {
            4int
        } else {
            0
        }),
{
    if b.len() >= 2 {
        lemma_length(b);
        lemma_first_octet(b[0], h.opcode);
        if let Some(opcode) = OpCode::of_number(b[0] % 16) {
            lemma_first_octet(b[0], opcode);
        }
        assert(length_of(b) <= 0xffff_ffff_ffff_ffff) by {
            if b.len() >= 10 {
                lemma_eight_bounded(b);
            }
        }
    }
}

proof fn lemma_eight_bounded(b: Seq<u8>)
    requires
        b.len() >= 10,
    ensures
        length_of(b) <= 0xffff_ffff_ffff_ffff,
{
}

/// Masking turns each octet over with the octet of the mask whose turn it is, the four of them
/// one after the other and from the first again.
pub proof fn law_masks_take_turns(payload: Seq<u8>, mask: Seq<u8>, offset: nat, i: int)
    requires
        0 <= i < payload.len(),
        mask.len() == 4,
    ensures
        frame::masked(payload, mask, offset as int).len() == payload.len(),
        frame::masked(payload, mask, offset as int)[i] == payload[i] ^ mask[(offset + i) % 4],
{
}

/// A frame is read as its header, and as much payload as that announces; the payload is unmasked
/// from its first octet on, and what follows it stays. Until all of it has come it is waited for.
pub proof fn law_frames_are_headers_and_payloads(b: Seq<u8>)
    ensures
        match frame::header_at(b) {
            Err(e) => codec::frame_at(b) == Err::<Option<(EventView, Seq<u8>)>, ProtocolError>(e),
            Ok(None) => codec::frame_at(b) == Ok::<
                Option<(EventView, Seq<u8>)>,
                ProtocolError,
            >(None),
            Ok(Some(h)) => {
                let end = (h.header_len + h.payload_len) as int;
                if b.len() < end {
                    codec::frame_at(b) == Ok::<Option<(EventView, Seq<u8>)>, ProtocolError>(None)
                } else {
                    let raw = b.subrange(h.header_len as int, end);
                    let payload = match h.mask {
                        Some(mask) => frame::masked(raw, mask, 0),
                        None => raw,
                    };
                    codec::frame_at(b) == Ok::<Option<(EventView, Seq<u8>)>, ProtocolError>(
                        Some((codec::event(h.opcode, payload), b.skip(end))),
                    )
                }
            },
        },
{
}

/// What a frame says: data is data in whatever sort of frame, a ping and a pong carry their
/// payload, and a close carries a code in its first two octets, the larger first, and a reason
/// behind them, if it carries anything.
pub proof fn law_frames_say_what_their_opcode_does(payload: Seq<u8>)
    ensures
        codec::event(OpCode::Text, payload) == EventView::Data(payload),
        codec::event(OpCode::Binary, payload) == EventView::Data(payload),
        codec::event(OpCode::Continuation, payload) == EventView::Data(payload),
        codec::event(OpCode::Ping, payload) == EventView::Ping(payload),
        codec::event(OpCode::Pong, payload) == EventView::Pong(payload),
        payload.len() < 2 ==> codec::event(OpCode::Close, payload) == (EventView::Close {
            code: None,
            reason: Seq::empty(),
        }),
        payload.len() >= 2 ==> codec::event(OpCode::Close, payload) == (EventView::Close {
            code: Some((payload[0] * 256 + payload[1]) as u16),
            reason: payload.skip(2),
        }),
{
}

/// A frame is written as its header, in its shortest form, and its payload, masked where there is
/// a mask.
pub proof fn law_frames_are_written(
    opcode: OpCode,
    fin: bool,
    payload: Seq<u8>,
    mask: Option<Seq<u8>>,
)
    requires
        frame::sendable(opcode, fin, payload.len(), mask),
    ensures
        ({
            let octets = codec::frame_octets(opcode, fin, payload, mask);
            let header = (octets.len() - payload.len()) as nat;
            &&& is_header(
                octets,
                HeaderView { fin, opcode, mask, payload_len: payload.len(), header_len: header },
            )
            &&& octets.skip(header as int) == (match mask {
                Some(m) => frame::masked(payload, m, 0),
                None => payload,
            })
        }),
{
    let octets = codec::frame_octets(opcode, fin, payload, mask);
    let head = frame::header_octets(opcode, fin, payload.len(), mask);
    let body = codec::under(payload, mask);
    assert(body.len() == payload.len());
    frame::law_headers_round_trip(opcode, fin, payload.len(), mask, body);
    let h = HeaderView { fin, opcode, mask, payload_len: payload.len(), header_len: head.len() };
    law_headers_are_their_bits(octets, h);
    assert(octets.skip(head.len() as int) =~= body);
}

/// A client masks what it sends, with the key drawn for the frame, and a server does not. A close
/// carries the code for a normal end.
pub proof fn law_clients_mask(key: Seq<u8>)
    ensures
        Side::Client.mask(key) == Some(key),
        Side::Server.mask(key) is None,
        stream::NORMAL_CLOSURE@ == seq![0x03u8, 0xe8],
        codec::event(OpCode::Close, stream::NORMAL_CLOSURE@) == (EventView::Close {
            code: Some(1000u16),
            reason: Seq::empty(),
        }),
{
    assert(stream::NORMAL_CLOSURE@ =~= seq![0x03u8, 0xe8]);
    assert(stream::NORMAL_CLOSURE@.skip(2) =~= Seq::<u8>::empty());
}

/// What arrives is put behind what has arrived, and where nothing arrives the input is at its end.
/// A stream starts with what was read before it, and nothing else.
pub proof fn law_input_is_kept_in_order(s: StreamView, chunk: Seq<u8>, side: Side)
    ensures
        chunk.len() > 0 ==> s.received(chunk) == (StreamView { inbound: s.inbound + chunk, ..s }),
        chunk.len() == 0 ==> s.received(chunk) == (StreamView { finished: true, ..s }),
        ({
            let fresh = StreamView::fresh(side, chunk);
            &&& fresh.side == side
            &&& fresh.inbound == chunk
            &&& fresh.payload.len() == 0 && fresh.outbound.len() == 0
            &&& !fresh.finished && !fresh.closing
        }),
{
}

/// A write is taken up while less than half a mebioctet waits to go out. As much of it goes into a
/// frame as the BEEP frame at its front holds, or all of it where there is none whole, and sixty-four
/// kibioctets at most.
pub proof fn law_writes_are_taken_up(s: StreamView, buf: Seq<u8>, key: Seq<u8>)
    ensures
        ({
            let (t, r) = s.write(buf, key);
            let whole = match crate::codec::boundary(buf) {
                Some(n) => n as int,
                None => buf.len() as int,
            };
            let n = if whole < 65536 {
                whole
            } else {
                65536
            };
            &&& buf.len() == 0 ==> r == stream::Written::Nothing && t == s
            &&& buf.len() > 0 && s.outbound.len() >= 524288 ==> r == stream::Written::Wait && t == s
            &&& buf.len() > 0 && s.outbound.len() < 524288 ==> {
                &&& r == stream::Written::Queued(n as usize)
                &&& t.outbound == s.outbound + codec::frame_octets(
                    OpCode::Binary,
                    true,
                    buf.take(n),
                    s.side.mask(key),
                )
                &&& t == (StreamView { outbound: t.outbound, ..s })
            }
        }),
{
}

// ---- the handshake ---------------------------------------------------------------

/// The answer to a key is the Base64 of the SHA-1 of the key with the constant of RFC 6455 behind
/// it.
pub proof fn law_keys_are_answered_as_rfc6455_says(key: Seq<char>)
    ensures
        handshake::accepted(key) == digest::base64_text(
            digest::sha1_of(utf8::encode_utf8(key + "258EAFA5-E914-47DA-95CA-C5AB0DC85B11"@)),
        ),
{
}

/// A request asks for the path by `GET`, names the host, asks to upgrade the connection to
/// websocket, and hands over its key and the version thirteen, in header fields of their own.
pub proof fn law_requests_say_what_rfc6455_asks(
    path: Seq<char>,
    host: Seq<char>,
    key: Seq<char>,
)
    requires
        head::plain(path),
        head::plain(host),
        head::plain(key),
        key == text::trimmed_white(key),
    ensures
        ({
            let h = head::head(head::head_text(handshake::request_lines(path, host, key)));
            &&& h.first == "GET "@ + path + " HTTP/1.1"@
            &&& h.fields == seq![
                ("Host"@, text::trimmed_white(host)),
                ("Upgrade"@, "websocket"@),
                ("Connection"@, "Upgrade"@),
                ("Sec-WebSocket-Key"@, key),
                ("Sec-WebSocket-Version"@, "13"@),
            ]
        }),
{
    let lines = handshake::request_lines(path, host, key);
    head::lemma_request_line(path);
    handshake::lemma_request_fields(host, key);
    assert(lines.drop_first() =~= handshake::request_lines(
        Seq::empty(),
        host,
        key,
    ).drop_first());
    assert forall|i: int| 0 <= i < lines.len() implies head::plain(#[trigger] lines[i]) by {
        if i > 0 {
            assert(lines[i] == lines.drop_first()[i - 1]);
        }
    }
    head::law_heads_round_trip(lines);
}

/// An answer switches protocols, to websocket, and answers the key, in header fields of their own.
pub proof fn law_answers_say_what_rfc6455_asks(key: Seq<char>)
    ensures
        ({
            let h = head::head(head::head_text(handshake::response_lines(key)));
            &&& h.first == "HTTP/1.1 101 Switching Protocols"@
            &&& h.fields == seq![
                ("Upgrade"@, "websocket"@),
                ("Connection"@, "Upgrade"@),
                ("Sec-WebSocket-Accept"@, handshake::accepted(key)),
            ]
        }),
{
    handshake::lemma_response_lines(key);
    head::law_heads_round_trip(handshake::response_lines(key));
}

/// A request is a handshake exactly where it is a `GET` that asks to upgrade the connection to
/// websocket, in version thirteen, and hands over a key, which is the one to answer. An answer is
/// one exactly where it switches protocols and answers the key that was sent.
pub proof fn law_handshakes_are_checked(h: head::HeadView, key: Seq<char>)
    ensures
        ({
            let asks = head::words(h.first).len() > 0 && head::words(h.first)[0] == seq![
                'G',
                'E',
                'T',
            ] && h.names("upgrade"@, "websocket"@) && h.names("connection"@, "upgrade"@)
                && h.names("sec-websocket-version"@, "13"@);
            &&& handshake::requested(h) == Ok::<Seq<char>, Error>(key) <==> asks && h.value(
                "sec-websocket-key"@,
            ) == Some(key)
            &&& handshake::requested(h) is Err <==> !asks || h.value("sec-websocket-key"@) is None
        }),
        handshake::answered(h, key) is Ok <==> head::status(h.first) == Some(101u16) && h.has(
            "sec-websocket-accept"@,
            handshake::accepted(key),
        ),
        head::status(h.first) != Some(101u16) ==> handshake::answered(h, key) == Err::<(), Error>(
            Error::NotUpgraded { status: head::status(h.first) },
        ),
{
    reveal_strlit("GET");
    assert("GET"@ =~= seq!['G', 'E', 'T']);
}

/// A server answers a request that has all come and is a handshake, with the answer to its key, and
/// a client takes an answer that has all come and answers the key it sent; what came behind is
/// handed on. Until then they wait, and what is wrong is said.
pub proof fn law_handshakes_take_their_turns(buffer: Seq<u8>, key: Seq<char>)
    ensures
        match head::reading(buffer) {
            Err(fault) => handshake::server_step(buffer) is Err && handshake::client_step(
                buffer,
                key,
            ) is Err,
            Ok(None) => handshake::server_step(buffer) == Ok::<
                Option<(Seq<char>, Seq<u8>)>,
                Error,
            >(None) && handshake::client_step(buffer, key) == Ok::<Option<Seq<u8>>, Error>(None),
            Ok(Some((said, rest))) => {
                &&& match handshake::requested(head::head(said)) {
                    Ok(k) => handshake::server_step(buffer) == Ok::<
                        Option<(Seq<char>, Seq<u8>)>,
                        Error,
                    >(Some((head::head_text(handshake::response_lines(k)), rest))),
                    Err(e) => handshake::server_step(buffer) == Err::<
                        Option<(Seq<char>, Seq<u8>)>,
                        Error,
                    >(e),
                }
                &&& match handshake::answered(head::head(said), key) {
                    Ok(_) => handshake::client_step(buffer, key) == Ok::<Option<Seq<u8>>, Error>(
                        Some(rest),
                    ),
                    Err(e) => handshake::client_step(buffer, key) == Err::<Option<Seq<u8>>, Error>(
                        e,
                    ),
                }
            },
        },
{
}

/// Texts are ordered by their octets at the first place where they differ, and one that another
/// begins with stands before it.
pub proof fn law_texts_are_ordered_by_their_first_difference(a: Seq<u8>, b: Seq<u8>, k: int)
    requires
        0 <= k <= a.len(),
        k <= b.len(),
        forall|i: int| 0 <= i < k ==> a[i] == b[i],
    ensures
        k < a.len() && k < b.len() && a[k] != b[k] ==> (server::precedes(a, b) <==> a[k] < b[k]),
        k == a.len() ==> (server::precedes(a, b) <==> k < b.len()),
        k == b.len() ==> !server::precedes(a, b),
    decreases k,
{
    if k > 0 {
        let c = a.drop_first();
        let d = b.drop_first();
        assert forall|i: int| 0 <= i < k - 1 implies c[i] == d[i] by {
            assert(c[i] == a[i + 1] && d[i] == b[i + 1]);
        }
        assert(a[0] == b[0]);
        law_texts_are_ordered_by_their_first_difference(c, d, k - 1);
    }
}

} // verus!
