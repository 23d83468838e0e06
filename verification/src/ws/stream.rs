//! Presenting a WebSocket as the byte stream a BEEP session expects.
//!
//! [`WsStream`] decides and the caller moves octets: it is handed what the transport gave, and
//! says what to hand up, what to send and when to read on. Reads deliver frame payloads with the
//! message boundaries removed, writes put each BEEP frame into a binary frame of its own, and
//! pings are answered without the layer above seeing them.

use crate::codec::frame_boundary;
use crate::frame::FrameView;
use crate::octets;
use crate::ws::codec;
use crate::ws::codec::{Decoder, Event, EventView};
use crate::ws::error::Error;
use crate::ws::frame;
use crate::ws::frame::{OpCode, ProtocolError, MAX_SEND_PAYLOAD};
use bytes::{Bytes, BytesMut};
use vstd::prelude::*;

verus! {

/// How much encoded output may pile up before a write waits for the socket to drain.
///
/// Without a ceiling a peer that stops reading would let the send buffer grow until the
/// process died. BEEP has its own window-based flow control, but it governs one channel's
/// payload, not the octets a slow socket has yet to accept.
pub const OUTBOUND_HIGH_WATER: usize = 524_288;

/// How much is read from the socket in one go.
pub const READ_CHUNK: usize = 8_192;

/// The payload of the close frame that this end sends: status 1000, a normal closure.
pub const NORMAL_CLOSURE: [u8; 2] = [0x03, 0xe8];

/// Which end of the connection this is, which decides whether frames are masked.
#[derive(Debug, Clone, Copy, PartialEq, Eq, Structural)]
pub enum Side {
    /// The end that opened the connection, which has to mask what it sends.
    Client,
    /// The end that accepted it, which must not.
    Server,
}

impl Side {
    /// The mask of a frame that this end sends, given a key.
    pub open spec fn mask(self, key: Seq<u8>) -> Option<Seq<u8>> {
        match self {
            Side::Client => Some(key),
            Side::Server => None,
        }
    }
}

/// What a read is to do next.
#[derive(Debug, Clone, PartialEq, Eq)]
pub enum Step {
    /// Hand these octets up.
    Deliver(Bytes),
    /// There is nothing more to hand up, now or later.
    End,
    /// Queue a frame, push out what can be pushed, and go on.
    Send(OpCode, Bytes),
    /// Read from the transport, hand over what came, and go on.
    Fill,
}

/// What a step says.
#[verifier::ext_equal]
pub enum StepView {
    Deliver(Seq<u8>),
    End,
    Send(OpCode, Seq<u8>),
    Fill,
}

impl View for Step {
    type V = StepView;

    open spec fn view(&self) -> StepView {
        match self {
            Step::Deliver(b) => StepView::Deliver(octets::octets(*b)),
            Step::End => StepView::End,
            Step::Send(opcode, b) => StepView::Send(*opcode, octets::octets(*b)),
            Step::Fill => StepView::Fill,
        }
    }
}

/// What a stream holds.
#[verifier::ext_equal]
pub struct StreamView {
    pub side: Side,
    pub inbound: Seq<u8>,
    pub payload: Seq<u8>,
    pub outbound: Seq<u8>,
    pub finished: bool,
    pub closing: bool,
}

impl StreamView {
    /// A stream whose handshake has just been done.
    pub open spec fn fresh(side: Side, prefix: Seq<u8>) -> StreamView {
        StreamView {
            side,
            inbound: prefix,
            payload: Seq::empty(),
            outbound: Seq::empty(),
            finished: false,
            closing: false,
        }
    }

    /// What a read with room for `room` octets does next, and the stream after it.
    ///
    /// Payload that is waiting goes first. Then frames are taken off the input until one of them
    /// gives something to do: a ping is answered, and a close ends the stream, answered by a
    /// close unless one was sent before.
    pub open spec fn advance(self, room: nat) -> (StreamView, Result<StepView, ProtocolError>)
        decreases self.inbound.len(), (if self.finished { 0int } else { 1int }),
    {
        if self.payload.len() > 0 {
            let take = if self.payload.len() < room {
                self.payload.len() as int
            } else {
                room as int
            };
            (
                StreamView { payload: self.payload.skip(take), ..self },
                Ok(StepView::Deliver(self.payload.take(take))),
            )
        } else if self.finished {
            (self, Ok(StepView::End))
        } else {
            match codec::frame_at(self.inbound) {
                Err(e) => (self, Err(e)),
                Ok(None) => (self, Ok(StepView::Fill)),
                Ok(Some((event, rest))) => {
                    proof {
                        codec::law_frames_are_decided_once(self.inbound, Seq::empty());
                    }
                    let after = StreamView { inbound: rest, ..self };
                    match event {
                        EventView::Data(data) => StreamView { payload: data, ..after }.advance(room),
                        EventView::Ping(data) => (after, Ok(StepView::Send(OpCode::Pong, data))),
                        EventView::Pong(_) => after.advance(room),
                        EventView::Close { .. } => if self.closing {
                            StreamView { finished: true, ..after }.advance(room)
                        } else {
                            (
                                StreamView { finished: true, closing: true, ..after },
                                Ok(StepView::Send(OpCode::Close, NORMAL_CLOSURE@)),
                            )
                        },
                    }
                },
            }
        }
    }

    /// The stream once a read from the transport gave `chunk`, which is empty at its end.
    pub open spec fn received(self, chunk: Seq<u8>) -> StreamView {
        if chunk.len() == 0 {
            StreamView { finished: true, ..self }
        } else {
            StreamView { inbound: self.inbound + chunk, ..self }
        }
    }

    /// The stream once a frame has been queued under a key.
    pub open spec fn queued(self, opcode: OpCode, payload: Seq<u8>, key: Seq<u8>) -> StreamView {
        StreamView {
            outbound: self.outbound + codec::frame_octets(
                opcode,
                true,
                payload,
                self.side.mask(key),
            ),
            ..self
        }
    }
}

/// What became of a write.
#[derive(Debug, Clone, Copy, PartialEq, Eq, Structural)]
pub enum Written {
    /// There was nothing to write.
    Nothing,
    /// The outgoing buffer has to drain first, and the write to be tried again.
    Wait,
    /// This many octets off the front of the write are queued, in a frame of their own.
    Queued(usize),
}

impl StreamView {
    /// What becomes of a write, under a key, and the stream after it.
    pub open spec fn write(self, buf: Seq<u8>, key: Seq<u8>) -> (StreamView, Written) {
        if buf.len() == 0 {
            (self, Written::Nothing)
        } else if self.outbound.len() >= OUTBOUND_HIGH_WATER {
            (self, Written::Wait)
        } else {
            let n = portion_of(buf);
            (
                self.queued(OpCode::Binary, buf.take(n as int), key),
                Written::Queued(n as usize),
            )
        }
    }
}

/// How many octets of a write go into one frame: the BEEP frame that stands at its front, or all
/// of it where none does, and no more than a frame may hold.
pub open spec fn portion_of(buf: Seq<u8>) -> nat {
    let whole = match crate::codec::boundary(buf) {
        Some(n) => n,
        None => buf.len(),
    };
    if whole < MAX_SEND_PAYLOAD {
        whole
    } else {
        MAX_SEND_PAYLOAD as nat
    }
}

/// A WebSocket carrying a BEEP session, seen as an ordinary byte stream.
#[derive(Debug)]
pub struct WsStream {
    side: Side,
    /// Raw octets read from the transport, not yet decoded.
    inbound: BytesMut,
    /// Decoded payload waiting to be handed up.
    payload: BytesMut,
    /// Encoded frames waiting to go out.
    outbound: BytesMut,
    decoder: Decoder,
    /// Set once the peer's close frame or end of file has been seen.
    finished: bool,
    /// Set once our own close frame has been queued, so it is queued only once.
    closing: bool,
}

impl View for WsStream {
    type V = StreamView;

    closed spec fn view(&self) -> StreamView {
        StreamView {
            side: self.side,
            inbound: octets::buffered(self.inbound),
            payload: octets::buffered(self.payload),
            outbound: octets::buffered(self.outbound),
            finished: self.finished,
            closing: self.closing,
        }
    }
}

impl WsStream {
    /// A stream over a transport whose handshake has already been done.
    fn new(side: Side, prefix: Bytes) -> (r: WsStream)
        ensures
            r@ == StreamView::fresh(side, octets::octets(prefix)),
    {
        let mut inbound = BytesMut::new();
        inbound.extend_from_slice(octets::bytes_slice(&prefix));
        let r = WsStream {
            side,
            inbound,
            payload: BytesMut::new(),
            outbound: BytesMut::new(),
            decoder: Decoder::new(),
            finished: false,
            closing: false,
        };
        assert(r@ =~= StreamView::fresh(side, octets::octets(prefix)));
        r
    }

    /// The client end of a WebSocket, which masks what it sends.
    ///
    /// `prefix` is whatever was read past the handshake response and so already belongs to
    /// the peer's first frame.
    pub fn client(prefix: Bytes) -> (r: WsStream)
        ensures
            r@ == StreamView::fresh(Side::Client, octets::octets(prefix)),
    {
        WsStream::new(Side::Client, prefix)
    }

    /// The server end of a WebSocket, which does not mask what it sends.
    ///
    /// `prefix` is whatever was read past the handshake request.
    pub fn server(prefix: Bytes) -> (r: WsStream)
        ensures
            r@ == StreamView::fresh(Side::Server, octets::octets(prefix)),
    {
        WsStream::new(Side::Server, prefix)
    }

    /// Puts one frame into the outgoing buffer, masked with `key` if this is the client.
    pub fn queue_with(&mut self, opcode: OpCode, payload: &[u8], key: [u8; 4])
        ensures
            final(self)@ == old(self)@.queued(opcode, payload@, key@),
    {
        let ghost before = octets::buffered(self.outbound);
        let mask: Option<[u8; 4]> = match self.side {
            Side::Client => Some(key),
            Side::Server => None,
        };
        frame::encode_header(&mut self.outbound, opcode, true, payload.len(), mask);
        match mask {
            Some(key) => {
                let mut body = BytesMut::new();
                body.extend_from_slice(payload);
                assert(octets::buffered(body) =~= payload@);
                frame::apply_mask(octets::buffer_slice_mut(&mut body), key, 0);
                self.outbound.extend_from_slice(octets::buffer_slice(&body));
            },
            None => self.outbound.extend_from_slice(payload),
        }
        assert(self@ =~= old(self)@.queued(opcode, payload@, key@));
    }

    /// Puts one frame into the outgoing buffer, masked if this is the client.
    ///
    /// # Errors
    ///
    /// Returns [`Error::Entropy`], with nothing queued, where a client has no randomness for a
    /// masking key. A server needs none.
    pub fn queue(&mut self, opcode: OpCode, payload: &[u8]) -> (r: Result<(), Error>)
        ensures
            match r {
                Ok(()) => exists|key: [u8; 4]|
                    final(self)@ == #[trigger] old(self)@.queued(opcode, payload@, key@),
                Err(e) => {
                    &&& e == Error::Entropy
                    &&& old(self)@.side is Client
                    &&& final(self)@ == old(self)@
                },
            },
    {
        let key: [u8; 4] = match self.key() {
            Ok(Some(key)) => key,
            Ok(None) => [0, 0, 0, 0],
            Err(e) => return Err(e),
        };
        self.queue_with(opcode, payload, key);
        Ok(())
    }

    /// What a read with room for `room` octets is to do next.
    ///
    /// # Errors
    ///
    /// Returns [`ProtocolError`] where the peer's framing is one RFC 6455 does not allow.
    pub fn advance(&mut self, room: usize) -> (r: Result<Step, ProtocolError>)
        ensures
            (final(self)@, match r {
                Ok(step) => Ok::<StepView, ProtocolError>(step@),
                Err(e) => Err::<StepView, ProtocolError>(e),
            }) == old(self)@.advance(room as nat),
    {
        loop
            invariant
                self@.advance(room as nat) == old(self)@.advance(room as nat),
            decreases self@.inbound.len(), (if self@.finished { 0int } else { 1int }),
        {
            let ghost before = self@;
            if self.payload.len() > 0 {
                let take: usize = if self.payload.len() < room {
                    self.payload.len()
                } else {
                    room
                };
                let chunk = self.payload.split_to(take).freeze();
                proof {
                    assert(octets::octets(chunk) =~= before.payload.take(take as int));
                    assert(self@.payload =~= before.payload.skip(take as int));
                }
                return Ok(Step::Deliver(chunk));
            }
            if self.finished {
                return Ok(Step::End);
            }
            proof {
                codec::law_frames_are_decided_once(before.inbound, Seq::empty());
            }
            match self.decoder.poll(&mut self.inbound) {
                Err(e) => {
                    return Err(e);
                },
                Ok(None) => {
                    return Ok(Step::Fill);
                },
                Ok(Some(Event::Data(data))) => {
                    self.payload.extend_from_slice(octets::bytes_slice(&data));
                    assert(self@.payload =~= octets::octets(data));
                    assert(self@ =~= StreamView {
                        payload: octets::octets(data),
                        inbound: self@.inbound,
                        ..before
                    });
                },
                Ok(Some(Event::Ping(data))) => {
                    // Answered here rather than by the session: the layer above is speaking
                    // BEEP and knows nothing about WebSocket liveness.
                    return Ok(Step::Send(OpCode::Pong, data));
                },
                Ok(Some(Event::Pong(_))) => {
                    assert(self@ =~= StreamView { inbound: self@.inbound, ..before });
                },
                Ok(Some(Event::Close { .. })) => {
                    self.finished = true;
                    if !self.closing {
                        self.closing = true;
                        return Ok(Step::Send(OpCode::Close, normal_closure()));
                    }
                    assert(self@ =~= StreamView {
                        inbound: self@.inbound,
                        finished: true,
                        ..before
                    });
                },
            }
        }
    }

    /// Takes in what one read from the transport gave.
    ///
    /// Nothing means that the transport ended without a close frame. Not tidy, but nothing is
    /// lost that a close would have carried, so it is the end of the stream.
    pub fn received(&mut self, chunk: &[u8])
        ensures
            final(self)@ == old(self)@.received(chunk@),
    {
        if chunk.len() == 0 {
            self.finished = true;
        } else {
            self.inbound.extend_from_slice(chunk);
        }
        assert(self@ =~= old(self)@.received(chunk@));
    }

    /// Takes the first portion of a write into a frame, masked with `key` if this is the client.
    ///
    /// Where too much output has piled up the write waits rather than being buffered without
    /// bound.
    pub fn write_with(&mut self, buf: &[u8], key: [u8; 4]) -> (r: Written)
        ensures
            (final(self)@, r) == old(self)@.write(buf@, key@),
    {
        if buf.len() == 0 {
            return Written::Nothing;
        }
        if self.outbound.len() >= OUTBOUND_HIGH_WATER {
            return Written::Wait;
        }
        let n: usize = portion(buf);
        let part = vstd::slice::slice_subrange(buf, 0, n);
        assert(part@ =~= buf@.take(n as int));
        self.queue_with(OpCode::Binary, part, key);
        Written::Queued(n)
    }

    /// Takes the first portion of a write into a frame, masked if this is the client.
    ///
    /// # Errors
    ///
    /// Returns [`Error::Entropy`], with nothing queued, where a client has no randomness for a
    /// masking key. A server needs none.
    pub fn write(&mut self, buf: &[u8]) -> (r: Result<Written, Error>)
        ensures
            match r {
                Ok(written) => exists|key: [u8; 4]|
                    (final(self)@, written) == #[trigger] old(self)@.write(buf@, key@),
                Err(e) => {
                    &&& e == Error::Entropy
                    &&& old(self)@.side is Client
                    &&& buf@.len() > 0
                    &&& old(self)@.outbound.len() < OUTBOUND_HIGH_WATER
                    &&& final(self)@ == old(self)@
                },
            },
    {
        let mut key: [u8; 4] = [0, 0, 0, 0];
        if buf.len() > 0 && self.outbound.len() < OUTBOUND_HIGH_WATER {
            key = match self.key() {
                Ok(Some(drawn)) => drawn,
                Ok(None) => key,
                Err(e) => return Err(e),
            };
        }
        Ok(self.write_with(buf, key))
    }

    /// The masking key of the next frame: a client draws one for each frame, and a server has
    /// none.
    fn key(&self) -> (r: Result<Option<[u8; 4]>, Error>)
        ensures
            match self@.side {
                Side::Client => match r {
                    Ok(key) => key is Some,
                    Err(e) => e == Error::Entropy,
                },
                Side::Server => r == Ok::<Option<[u8; 4]>, Error>(None),
            },
    {
        match self.side {
            Side::Client => match frame::masking_key() {
                Ok(key) => Ok(Some(key)),
                Err(e) => Err(e),
            },
            Side::Server => Ok(None),
        }
    }

    /// The encoded frames waiting to go out.
    pub fn pending(&self) -> (r: &[u8])
        ensures
            r@ == self@.outbound,
    {
        octets::buffer_slice(&self.outbound)
    }

    /// Drops what the transport has taken off the front of the outgoing buffer, and says
    /// whether it took anything.
    pub fn sent(&mut self, written: usize) -> (progress: bool)
        requires
            written <= old(self)@.outbound.len(),
        ensures
            progress == (written > 0),
            final(self)@ == (StreamView {
                outbound: old(self)@.outbound.skip(written as int),
                ..old(self)@
            }),
    {
        let ghost before = self@;
        octets::advance(&mut self.outbound, written);
        assert(self@ =~= StreamView { outbound: before.outbound.skip(written as int), ..before });
        written > 0
    }

    /// Starts to close this end: the close frame to send, unless one was sent before.
    pub fn close(&mut self) -> (r: Option<Step>)
        ensures
            final(self)@ == (StreamView { closing: true, ..old(self)@ }),
            match r {
                Some(step) => !old(self)@.closing && step@ == StepView::Send(
                    OpCode::Close,
                    NORMAL_CLOSURE@,
                ),
                None => old(self)@.closing,
            },
    {
        let ghost before = self@;
        if self.closing {
            assert(self@ =~= StreamView { closing: true, ..before });
            return None;
        }
        self.closing = true;
        assert(self@ =~= StreamView { closing: true, ..before });
        Some(Step::Send(OpCode::Close, normal_closure()))
    }
}

/// The payload of the close frame that this end sends.
fn normal_closure() -> (r: Bytes)
    ensures
        octets::octets(r) == NORMAL_CLOSURE@,
{
    let mut payload = BytesMut::new();
    payload.extend_from_slice(NORMAL_CLOSURE.as_slice());
    assert(octets::buffered(payload) =~= NORMAL_CLOSURE@);
    payload.freeze()
}

/// How many octets of a write go into one frame.
///
/// One BEEP frame per WebSocket frame is the binding rather than an optimisation: peers read
/// only the first BEEP frame of a WebSocket frame that holds several.
pub fn portion(buf: &[u8]) -> (n: usize)
    ensures
        n == portion_of(buf@),
        n <= buf@.len(),
{
    let whole: usize = match frame_boundary(buf) {
        Some(n) => n,
        None => buf.len(),
    };
    if whole < MAX_SEND_PAYLOAD {
        whole
    } else {
        MAX_SEND_PAYLOAD
    }
}

// ---- What holds of the stream ----------------------------------------------------

/// The octets that reads will hand up from a run of input: the payload of its data frames, in
/// order, up to a close, an error or the end of what has arrived.
pub open spec fn carried(inbound: Seq<u8>) -> Seq<u8>
    decreases inbound.len(),
{
    match codec::frame_at(inbound) {
        Ok(Some((event, rest))) => {
            proof {
                codec::law_frames_are_decided_once(inbound, Seq::empty());
            }
            match event {
                EventView::Data(data) => data + carried(rest),
                EventView::Close { .. } => Seq::empty(),
                _ => carried(rest),
            }
        },
        _ => Seq::empty(),
    }
}

impl StreamView {
    /// The octets that reads have still to hand up, as far as they have arrived.
    pub open spec fn remaining(self) -> Seq<u8> {
        if self.finished {
            self.payload
        } else {
            self.payload + carried(self.inbound)
        }
    }
}

/// Reads hand up the octets that the frames carry, each once and in order, however large the
/// reads are: what is handed up and what is left after a step are together what was left before
/// it. The end comes, and more input is asked for, only when nothing is left.
pub proof fn law_reads_hand_up_what_is_carried(s: StreamView, room: nat)
    ensures
        ({
            let (after, step) = s.advance(room);
            match step {
                Ok(StepView::Deliver(chunk)) => chunk + after.remaining() == s.remaining()
                    && chunk.len() <= room && (room > 0 ==> chunk.len() > 0),
                Ok(StepView::Send(_, _)) => after.remaining() == s.remaining(),
                Ok(StepView::End) => after.finished && s.remaining().len() == 0,
                Ok(StepView::Fill) => s.remaining().len() == 0,
                Err(_) => s.remaining().len() == 0,
            }
        }),
    decreases s.inbound.len(), (if s.finished { 0int } else { 1int }),
{
    let (after, step) = s.advance(room);
    if s.payload.len() > 0 {
        let take = if s.payload.len() < room {
            s.payload.len() as int
        } else {
            room as int
        };
        assert(s.payload.take(take) + after.remaining() =~= s.remaining());
    } else if !s.finished {
        codec::law_frames_are_decided_once(s.inbound, Seq::empty());
        match codec::frame_at(s.inbound) {
            Ok(Some((event, rest))) => {
                let next = StreamView { inbound: rest, ..s };
                match event {
                    EventView::Data(data) => {
                        let next = StreamView { payload: data, ..next };
                        law_reads_hand_up_what_is_carried(next, room);
                        assert(next.remaining() =~= s.remaining());
                    },
                    EventView::Ping(_) => {
                        assert(after.remaining() =~= s.remaining());
                    },
                    EventView::Pong(_) => {
                        law_reads_hand_up_what_is_carried(next, room);
                        assert(next.remaining() =~= s.remaining());
                    },
                    EventView::Close { .. } => {
                        if s.closing {
                            let next = StreamView { finished: true, ..next };
                            law_reads_hand_up_what_is_carried(next, room);
                            assert(next.remaining() =~= s.remaining());
                        } else {
                            assert(after.remaining() =~= s.remaining());
                        }
                    },
                }
            },
            _ => {},
        }
    }
}

/// A step of a read takes nothing out of the outgoing buffer and puts nothing in: what is to be
/// sent is said, and queued by itself.
pub proof fn law_reads_send_nothing_themselves(s: StreamView, room: nat)
    ensures
        s.advance(room).0.outbound == s.outbound,
        s.advance(room).0.side == s.side,
        s.closing ==> s.advance(room).0.closing,
        s.finished ==> s.advance(room).0.finished,
    decreases s.inbound.len(), (if s.finished { 0int } else { 1int }),
{
    if s.payload.len() == 0 && !s.finished {
        codec::law_frames_are_decided_once(s.inbound, Seq::empty());
        if let Ok(Some((event, rest))) = codec::frame_at(s.inbound) {
            let next = StreamView { inbound: rest, ..s };
            match event {
                EventView::Data(data) => law_reads_send_nothing_themselves(
                    StreamView { payload: data, ..next },
                    room,
                ),
                EventView::Pong(_) => law_reads_send_nothing_themselves(next, room),
                EventView::Close { .. } => if s.closing {
                    law_reads_send_nothing_themselves(StreamView { finished: true, ..next }, room);
                },
                EventView::Ping(_) => {},
            }
        }
    }
}

/// This end sends one close frame at most: none is asked for once one has been.
pub proof fn law_one_close_is_sent(s: StreamView, room: nat)
    ensures
        ({
            let (after, step) = s.advance(room);
            step matches Ok(StepView::Send(opcode, _)) ==> {
                &&& opcode == OpCode::Close ==> !s.closing && after.closing && after.finished
                &&& opcode != OpCode::Close ==> opcode == OpCode::Pong
            }
        }),
    decreases s.inbound.len(), (if s.finished { 0int } else { 1int }),
{
    if s.payload.len() == 0 && !s.finished {
        codec::law_frames_are_decided_once(s.inbound, Seq::empty());
        if let Ok(Some((event, rest))) = codec::frame_at(s.inbound) {
            let next = StreamView { inbound: rest, ..s };
            match event {
                EventView::Data(data) => law_one_close_is_sent(
                    StreamView { payload: data, ..next },
                    room,
                ),
                EventView::Pong(_) => law_one_close_is_sent(next, room),
                EventView::Close { .. } => if s.closing {
                    law_one_close_is_sent(StreamView { finished: true, ..next }, room);
                },
                EventView::Ping(_) => {},
            }
        }
    }
}

/// A ping is answered with a pong that carries what the ping did, and reads go on as if it had
/// not been there.
pub proof fn law_pings_are_answered(s: StreamView, data: Seq<u8>, rest: Seq<u8>, room: nat)
    requires
        s.payload.len() == 0,
        !s.finished,
        codec::frame_at(s.inbound) == Ok::<Option<(EventView, Seq<u8>)>, ProtocolError>(
            Some((EventView::Ping(data), rest)),
        ),
    ensures
        s.advance(room) == (
            (StreamView { inbound: rest, ..s }),
            Ok::<StepView, ProtocolError>(StepView::Send(OpCode::Pong, data)),
        ),
{
}

/// Frames of payload, each under its own mask, one after the other.
pub open spec fn written(parts: Seq<(Seq<u8>, Option<Seq<u8>>)>) -> Seq<u8>
    decreases parts.len(),
{
    if parts.len() == 0 {
        Seq::empty()
    } else {
        codec::frame_octets(OpCode::Binary, true, parts[0].0, parts[0].1) + written(
            parts.drop_first(),
        )
    }
}

/// The payload of such frames, put together.
pub open spec fn joined(parts: Seq<(Seq<u8>, Option<Seq<u8>>)>) -> Seq<u8>
    decreases parts.len(),
{
    if parts.len() == 0 {
        Seq::empty()
    } else {
        parts[0].0 + joined(parts.drop_first())
    }
}

/// What one end writes is what reads at the other end hand up, whichever end masks and whatever
/// its keys are.
pub proof fn law_what_is_written_is_carried(parts: Seq<(Seq<u8>, Option<Seq<u8>>)>)
    requires
        forall|i: int|
            0 <= i < parts.len() ==> (#[trigger] parts[i]).0.len() <= MAX_SEND_PAYLOAD && (
            parts[i].1 matches Some(key) ==> key.len() == 4),
    ensures
        carried(written(parts)) == joined(parts),
    decreases parts.len(),
{
    if parts.len() == 0 {
        assert(codec::frame_at(written(parts)) == Ok::<
            Option<(EventView, Seq<u8>)>,
            ProtocolError,
        >(None));
    } else {
        let rest = parts.drop_first();
        assert(parts[0].0.len() <= MAX_SEND_PAYLOAD);
        codec::law_frames_round_trip(
            OpCode::Binary,
            true,
            parts[0].0,
            parts[0].1,
            written(rest),
        );
        law_what_is_written_is_carried(rest);
    }
}

/// The portions that a write is sent in.
pub open spec fn portions(buf: Seq<u8>) -> Seq<Seq<u8>>
    decreases buf.len(),
{
    if buf.len() == 0 {
        Seq::empty()
    } else {
        let n = portion_of(buf) as int;
        if 0 < n <= buf.len() {
            seq![buf.take(n)] + portions(buf.skip(n))
        } else {
            seq![buf]
        }
    }
}

/// A portion of a write that holds something is not empty, is part of it, and fits one frame.
pub proof fn law_portions_fit(buf: Seq<u8>)
    ensures
        portion_of(buf) <= buf.len(),
        portion_of(buf) <= MAX_SEND_PAYLOAD,
        buf.len() > 0 ==> portion_of(buf) > 0,
{
    crate::codec::lemma_decode_consumes(
        crate::codec::DecoderView {
            max_frame_size: crate::frame::MAX_FRAME_SIZE,
            pending: None,
        },
        buf,
    );
}

/// A write loses nothing by being split: its portions, put together, are what was written.
pub proof fn law_portions_rejoin(buf: Seq<u8>)
    ensures
        portions(buf).flatten() == buf,
    decreases buf.len(),
{
    law_portions_fit(buf);
    if buf.len() > 0 {
        let n = portion_of(buf) as int;
        let rest = buf.skip(n);
        law_portions_rejoin(rest);
        let all = portions(buf);
        assert(all =~= seq![buf.take(n)] + portions(rest));
        assert(all.drop_first() =~= portions(rest));
        assert(all.first() == buf.take(n));
        assert(buf.take(n) + rest =~= buf);
    } else {
        assert(buf =~= Seq::empty());
    }
}

/// A write that is taken up puts one binary frame behind what waits to go out, with the portion
/// that it says in it, and leaves everything else as it was. One that is not changes nothing.
pub proof fn law_writes_queue_one_frame(s: StreamView, buf: Seq<u8>, key: Seq<u8>)
    ensures
        match s.write(buf, key) {
            (after, Written::Queued(n)) => {
                &&& 0 < n <= buf.len()
                &&& n <= MAX_SEND_PAYLOAD
                &&& after == (StreamView {
                    outbound: s.outbound + codec::frame_octets(
                        OpCode::Binary,
                        true,
                        buf.take(n as int),
                        s.side.mask(key),
                    ),
                    ..s
                })
            },
            (after, _) => after == s,
        },
{
    law_portions_fit(buf);
}

/// A BEEP frame goes out in a WebSocket frame of its own, whatever is written behind it, so long
/// as one WebSocket frame holds it.
pub proof fn law_each_frame_is_sent_alone(f: FrameView, rest: Seq<u8>)
    requires
        f.valid(),
        f.wire().len() <= MAX_SEND_PAYLOAD,
    ensures
        portion_of(f.wire() + rest) == f.wire().len(),
{
    crate::codec::law_boundary_follows_the_frame(f, rest);
}

/// The portions that a write is sent in, each with the mask of the frame it is put in.
pub open spec fn masked_portions(side: Side, buf: Seq<u8>, keys: Seq<Seq<u8>>) -> Seq<
    (Seq<u8>, Option<Seq<u8>>),
>
    decreases buf.len(),
{
    let n = portion_of(buf) as int;
    if buf.len() == 0 || n <= 0 || n > buf.len() {
        Seq::empty()
    } else {
        seq![(buf.take(n), side.mask(keys[0]))] + masked_portions(
            side,
            buf.skip(n),
            keys.drop_first(),
        )
    }
}

/// What is written at one end is read at the other, octet for octet, whichever end it is and
/// whatever its keys are: once the other end has received what the write put on the wire, what
/// reads have still to hand up there is the write, behind what they had before.
pub proof fn law_writes_arrive(
    side: Side,
    buf: Seq<u8>,
    keys: Seq<Seq<u8>>,
    receiver: StreamView,
)
    requires
        buf.len() > 0,
        keys.len() >= portions(buf).len(),
        forall|i: int| 0 <= i < keys.len() ==> (#[trigger] keys[i]).len() == 4,
        receiver.inbound.len() == 0,
        !receiver.finished,
    ensures
        receiver.received(written(masked_portions(side, buf, keys))).remaining()
            == receiver.payload + buf,
{
    let parts = masked_portions(side, buf, keys);
    lemma_masked_portions(side, buf, keys);
    law_what_is_written_is_carried(parts);
    let wire = written(parts);
    assert(receiver.inbound + wire =~= wire);
    assert(wire.len() > 0) by {
        assert(codec::frame_octets(OpCode::Binary, true, parts[0].0, parts[0].1).len() >= 2);
    }
}

/// The portions of a write fit frames, have masks, and are together what was written.
proof fn lemma_masked_portions(side: Side, buf: Seq<u8>, keys: Seq<Seq<u8>>)
    requires
        keys.len() >= portions(buf).len(),
        forall|i: int| 0 <= i < keys.len() ==> (#[trigger] keys[i]).len() == 4,
    ensures
        ({
            let parts = masked_portions(side, buf, keys);
            &&& joined(parts) == buf
            &&& buf.len() > 0 ==> parts.len() > 0
            &&& forall|i: int|
                0 <= i < parts.len() ==> (#[trigger] parts[i]).0.len() <= MAX_SEND_PAYLOAD && (
                parts[i].1 matches Some(key) ==> key.len() == 4)
        }),
    decreases buf.len(),
{
    law_portions_fit(buf);
    let parts = masked_portions(side, buf, keys);
    if buf.len() == 0 {
        assert(joined(parts) =~= buf);
    } else {
        let n = portion_of(buf) as int;
        let rest = keys.drop_first();
        let tail = masked_portions(side, buf.skip(n), rest);
        assert(portions(buf).len() == 1 + portions(buf.skip(n)).len());
        assert forall|i: int| 0 <= i < rest.len() implies (#[trigger] rest[i]).len() == 4 by {
            assert(rest[i] == keys[i + 1]);
        }
        assert(keys[0].len() == 4);
        lemma_masked_portions(side, buf.skip(n), rest);
        assert(parts.drop_first() =~= tail);
        assert(buf.take(n) + buf.skip(n) =~= buf);
    }
}

} // verus!
