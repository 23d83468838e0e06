//! Turning a stream of octets into WebSocket frames.

use crate::octets;
use crate::ws::frame;
use crate::ws::frame::{OpCode, ProtocolError};
use bytes::{Bytes, BytesMut};
use vstd::prelude::*;

verus! {

/// What a decoded frame asks the transport to do.
#[derive(Debug, Clone, PartialEq, Eq)]
pub enum Event {
    /// Payload octets, to be handed to the BEEP session.
    Data(Bytes),
    /// A liveness probe carrying the payload to echo back.
    Ping(Bytes),
    /// The answer to a probe. Nothing to do; kept so the caller can see it arrived.
    Pong(Bytes),
    /// The peer is closing, with the code and reason it gave.
    Close {
        /// The status code of RFC 6455, section 7.4, absent if the peer sent an empty close.
        code: Option<u16>,
        /// The human-readable reason, which may be empty.
        reason: Bytes,
    },
}

/// What an event says.
#[verifier::ext_equal]
pub enum EventView {
    Data(Seq<u8>),
    Ping(Seq<u8>),
    Pong(Seq<u8>),
    Close { code: Option<u16>, reason: Seq<u8> },
}

impl View for Event {
    type V = EventView;

    open spec fn view(&self) -> EventView {
        match self {
            Event::Data(b) => EventView::Data(octets::octets(*b)),
            Event::Ping(b) => EventView::Ping(octets::octets(*b)),
            Event::Pong(b) => EventView::Pong(octets::octets(*b)),
            Event::Close { code, reason } => EventView::Close {
                code: *code,
                reason: octets::octets(*reason),
            },
        }
    }
}

/// The event that a frame is, by its opcode and its payload with the mask taken off.
///
/// Text, binary and continuation frames are all just payload. The code of a close is the first
/// two octets, if there are as many, and the reason is what follows them.
pub open spec fn event(opcode: OpCode, payload: Seq<u8>) -> EventView {
    match opcode {
        OpCode::Ping => EventView::Ping(payload),
        OpCode::Pong => EventView::Pong(payload),
        OpCode::Close => if payload.len() >= 2 {
            EventView::Close {
                code: Some((payload[0] * 256 + payload[1]) as u16),
                reason: payload.skip(2),
            }
        } else {
            EventView::Close { code: None, reason: Seq::empty() }
        },
        OpCode::Text | OpCode::Binary | OpCode::Continuation => EventView::Data(payload),
    }
}

/// A payload with its mask put on, or taken off.
pub open spec fn under(payload: Seq<u8>, mask: Option<Seq<u8>>) -> Seq<u8> {
    match mask {
        Some(m) => frame::masked(payload, m, 0),
        None => payload,
    }
}

/// The event at the front of a buffer and the octets that follow its frame, if a whole frame is
/// there.
pub open spec fn frame_at(buffer: Seq<u8>) -> Result<Option<(EventView, Seq<u8>)>, ProtocolError> {
    match frame::header_at(buffer) {
        Err(e) => Err(e),
        Ok(None) => Ok(None),
        Ok(Some(h)) => {
            let end = (h.header_len + h.payload_len) as int;
            if buffer.len() < end {
                Ok(None)
            } else {
                let payload = under(buffer.subrange(h.header_len as int, end), h.mask);
                Ok(Some((event(h.opcode, payload), buffer.skip(end))))
            }
        },
    }
}

/// Pulls frames off a growing buffer of received octets.
#[derive(Debug, Default, Clone, Copy)]
pub struct Decoder;

impl Decoder {
    /// A decoder with nothing buffered.
    pub fn new() -> (r: Decoder)
        ensures
            r == Decoder,
    {
        Decoder
    }

    /// Takes the next complete frame out of `buffer`.
    ///
    /// Returns `Ok(None)` when the buffer holds less than one whole frame, leaving it
    /// untouched so the caller can read more and try again.
    ///
    /// # Errors
    ///
    /// Returns [`ProtocolError`] when the peer's framing is one RFC 6455 does not allow.
    pub fn poll(&mut self, buffer: &mut BytesMut) -> (r: Result<Option<Event>, ProtocolError>)
        ensures
            *final(self) == *old(self),
            match r {
                Ok(Some(e)) => frame_at(octets::buffered(*old(buffer))) == Ok::<
                    Option<(EventView, Seq<u8>)>,
                    ProtocolError,
                >(Some((e@, octets::buffered(*final(buffer))))),
                Ok(None) => {
                    &&& frame_at(octets::buffered(*old(buffer))) == Ok::<
                        Option<(EventView, Seq<u8>)>,
                        ProtocolError,
                    >(None)
                    &&& octets::buffered(*final(buffer)) == octets::buffered(*old(buffer))
                },
                Err(e) => {
                    &&& frame_at(octets::buffered(*old(buffer))) == Err::<
                        Option<(EventView, Seq<u8>)>,
                        ProtocolError,
                    >(e)
                    &&& octets::buffered(*final(buffer)) == octets::buffered(*old(buffer))
                },
            },
    {
        let ghost before = octets::buffered(*buffer);
        proof {
            frame::law_accepted_headers_are_bounded(before);
        }
        let header = match frame::decode_header(octets::buffer_slice(buffer)) {
            Err(e) => return Err(e),
            Ok(None) => return Ok(None),
            Ok(Some(header)) => header,
        };
        // Nothing is consumed until the whole frame is here, so a short read costs only the
        // re-parse of a header that is at most fourteen octets.
        if buffer.len() < header.header_len + header.payload_len {
            return Ok(None);
        }
        octets::advance(buffer, header.header_len);
        let mut payload = buffer.split_to(header.payload_len);
        let ghost end = header.header_len + header.payload_len;
        proof {
            assert(octets::buffered(payload) =~= before.subrange(header.header_len as int, end));
            assert(octets::buffered(*buffer) =~= before.skip(end));
        }
        if let Some(mask) = header.mask {
            frame::apply_mask(octets::buffer_slice_mut(&mut payload), mask, 0);
        }
        let mut payload = payload.freeze();
        let ghost unmasked = octets::octets(payload);
        let event = match header.opcode {
            OpCode::Ping => Event::Ping(payload),
            OpCode::Pong => Event::Pong(payload),
            OpCode::Close => {
                if payload.len() >= 2 {
                    let code = payload.split_to(2);
                    let code = octets::bytes_slice(&code);
                    let code: u16 = code[0] as u16 * 256 + code[1] as u16;
                    assert(octets::octets(payload) =~= unmasked.skip(2));
                    Event::Close { code: Some(code), reason: payload }
                } else {
                    Event::Close { code: None, reason: Bytes::new() }
                }
            },
            // This binding carries a byte stream, so message boundaries and the difference
            // between text and binary mean nothing here.
            OpCode::Text | OpCode::Binary | OpCode::Continuation => Event::Data(payload),
        };
        Ok(Some(event))
    }
}

// ---- What holds of frames --------------------------------------------------------

/// The octets of a whole frame.
pub open spec fn frame_octets(opcode: OpCode, fin: bool, payload: Seq<u8>, mask: Option<Seq<u8>>)
    -> Seq<u8> {
    frame::header_octets(opcode, fin, payload.len(), mask) + under(payload, mask)
}

/// A frame that is written is read back, masked or not, whatever follows it.
pub proof fn law_frames_round_trip(
    opcode: OpCode,
    fin: bool,
    payload: Seq<u8>,
    mask: Option<Seq<u8>>,
    rest: Seq<u8>,
)
    requires
        frame::sendable(opcode, fin, payload.len(), mask),
    ensures
        frame_at(frame_octets(opcode, fin, payload, mask) + rest) == Ok::<
            Option<(EventView, Seq<u8>)>,
            ProtocolError,
        >(Some((event(opcode, payload), rest))),
{
    let header = frame::header_octets(opcode, fin, payload.len(), mask);
    let body = under(payload, mask);
    let buffer = frame_octets(opcode, fin, payload, mask) + rest;
    assert(buffer =~= header + (body + rest));
    frame::law_headers_round_trip(opcode, fin, payload.len(), mask, body + rest);
    let end = (header.len() + payload.len()) as int;
    assert(body.len() == payload.len());
    assert(buffer.subrange(header.len() as int, end) =~= body);
    assert(buffer.skip(end) =~= rest);
    match mask {
        Some(m) => frame::law_masking_is_its_own_inverse(payload, m, 0),
        None => {},
    }
}

/// A frame that has not all arrived is waited for: no proper part of one is read as a frame,
/// and none is refused.
pub proof fn law_partial_frames_wait(
    opcode: OpCode,
    fin: bool,
    payload: Seq<u8>,
    mask: Option<Seq<u8>>,
    have: int,
)
    requires
        frame::sendable(opcode, fin, payload.len(), mask),
        0 <= have < frame_octets(opcode, fin, payload, mask).len(),
    ensures
        frame_at(frame_octets(opcode, fin, payload, mask).take(have)) == Ok::<
            Option<(EventView, Seq<u8>)>,
            ProtocolError,
        >(None),
{
    let header = frame::header_octets(opcode, fin, payload.len(), mask);
    let body = under(payload, mask);
    let part = frame_octets(opcode, fin, payload, mask).take(have);
    assert(body.len() == payload.len());
    if have < header.len() {
        assert(part =~= header.take(have));
        frame::law_incomplete_headers_wait(opcode, fin, payload.len(), mask, have);
    } else {
        let begun = body.take(have - header.len());
        assert(part =~= header + begun);
        frame::law_headers_round_trip(opcode, fin, payload.len(), mask, begun);
    }
}

/// Once a frame is read or refused, octets that follow change nothing of it.
pub proof fn law_frames_are_decided_once(a: Seq<u8>, b: Seq<u8>)
    ensures
        match frame_at(a) {
            Err(e) => frame_at(a + b) == Err::<Option<(EventView, Seq<u8>)>, ProtocolError>(e),
            Ok(Some((e, rest))) => frame_at(a + b) == Ok::<
                Option<(EventView, Seq<u8>)>,
                ProtocolError,
            >(Some((e, rest + b))) && rest.len() < a.len(),
            Ok(None) => true,
        },
{
    frame::law_headers_are_decided_once(a, b);
    frame::law_accepted_headers_are_bounded(a);
    if let Ok(Some(h)) = frame::header_at(a) {
        let end = (h.header_len + h.payload_len) as int;
        if end <= a.len() {
            assert((a + b).subrange(h.header_len as int, end) =~= a.subrange(
                h.header_len as int,
                end,
            ));
            assert((a + b).skip(end) =~= a.skip(end) + b);
        }
    }
}

/// Everything that comes out of a run of octets: the events, in order, the octets that are left,
/// and the error that ends it, if one does.
#[verifier::ext_equal]
pub struct Drained {
    pub events: Seq<EventView>,
    pub rest: Seq<u8>,
    pub error: Option<ProtocolError>,
}

/// What polling a buffer until no more frames come gives.
pub open spec fn drain(buffer: Seq<u8>) -> Drained
    decreases buffer.len(),
{
    match frame_at(buffer) {
        Err(e) => Drained { events: Seq::empty(), rest: buffer, error: Some(e) },
        Ok(None) => Drained { events: Seq::empty(), rest: buffer, error: None },
        Ok(Some((e, rest))) => if rest.len() >= buffer.len() {
            Drained { events: seq![e], rest, error: None }
        } else {
            let more = drain(rest);
            Drained { events: seq![e] + more.events, ..more }
        },
    }
}

/// The same events come, in the same order and with the same outcome, whether octets arrive all
/// at once or in two parts. By repeating the argument, in any number of parts.
pub proof fn law_input_may_be_cut_anywhere(a: Seq<u8>, b: Seq<u8>)
    ensures
        ({
            let first = drain(a);
            let second = drain(first.rest + b);
            let whole = drain(a + b);
            if first.error is Some {
                whole.events == first.events && whole.error == first.error
            } else {
                &&& whole.events == first.events + second.events
                &&& whole.error == second.error
                &&& whole.rest == second.rest
            }
        }),
    decreases a.len(),
{
    law_frames_are_decided_once(a, b);
    match frame_at(a) {
        Err(_) => {},
        Ok(None) => {
            assert(Seq::<EventView>::empty() + drain(a + b).events =~= drain(a + b).events);
        },
        Ok(Some((e, rest))) => {
            law_input_may_be_cut_anywhere(rest, b);
            let first = drain(rest);
            let second = drain(first.rest + b);
            assert(drain(a + b).events == seq![e] + drain(rest + b).events);
            assert(seq![e] + (first.events + second.events) =~= (seq![e] + first.events)
                + second.events);
        },
    }
}

} // verus!
