//! What a whole run of reads gives: everything that a peer sends until it closes, however it
//! arrives and however much is read at a time.

use crate::ws::codec;
use crate::ws::codec::EventView;
use crate::ws::frame;
use crate::ws::frame::{OpCode, ProtocolError};
use crate::ws::stream;
use crate::ws::stream::{StepView, StreamView, NORMAL_CLOSURE};
use vstd::prelude::*;

verus! {

/// What a run of reads gives: the octets that were handed up, the frames that were to be sent in
/// between, in order, the error that ended it, if one did, and the stream afterwards.
#[verifier::ext_equal]
pub struct Ran {
    pub read: Seq<u8>,
    pub sent: Seq<(OpCode, Seq<u8>)>,
    pub fault: Option<ProtocolError>,
    pub after: StreamView,
}

/// A step of a read leaves no more input than there was, and hands something up or takes
/// something off it where it does not ask for more.
pub proof fn lemma_advance_shrinks(s: StreamView, room: nat)
    ensures
        ({
            let (t, step) = s.advance(room);
            &&& t.inbound.len() <= s.inbound.len()
            &&& s.finished ==> t.finished
            &&& match step {
                Ok(StepView::Deliver(chunk)) => chunk.len() > 0 ==> t.inbound.len()
                    < s.inbound.len() || t.payload.len() < s.payload.len(),
                Ok(StepView::Send(_, _)) => t.inbound.len() < s.inbound.len(),
                Ok(StepView::Fill) => !t.finished,
                _ => true,
            }
        }),
    decreases s.inbound.len(), (if s.finished { 0int } else { 1int }),
{
    if s.payload.len() == 0 && !s.finished {
        codec::law_frames_are_decided_once(s.inbound, Seq::empty());
        if let Ok(Some((event, rest))) = codec::frame_at(s.inbound) {
            let next = StreamView { inbound: rest, ..s };
            match event {
                EventView::Data(data) => lemma_advance_shrinks(
                    StreamView { payload: data, ..next },
                    room,
                ),
                EventView::Pong(_) => lemma_advance_shrinks(next, room),
                EventView::Close { .. } => if s.closing {
                    lemma_advance_shrinks(StreamView { finished: true, ..next }, room);
                },
                EventView::Ping(_) => {},
            }
        }
    }
}

/// Reads until one yields nothing. What the transport gives comes in `chunks`, after which it
/// ends; the read after `reads` others has the room that `rooms` says, and the frame sent after
/// `sends` others the key that `keys` says.
pub open spec fn run(
    s: StreamView,
    chunks: Seq<Seq<u8>>,
    rooms: spec_fn(nat) -> nat,
    reads: nat,
    keys: spec_fn(nat) -> Seq<u8>,
    sends: nat,
) -> Ran
    decreases
            chunks.len(),
            (if s.finished { 0int } else { 1int }),
            s.inbound.len(),
            s.payload.len(),
{
    proof {
        lemma_advance_shrinks(s, rooms(reads));
    }
    match s.advance(rooms(reads)) {
        (t, Err(e)) => Ran { read: Seq::empty(), sent: Seq::empty(), fault: Some(e), after: t },
        (t, Ok(StepView::End)) => Ran {
            read: Seq::empty(),
            sent: Seq::empty(),
            fault: None,
            after: t,
        },
        (t, Ok(StepView::Deliver(chunk))) => if chunk.len() == 0 {
            Ran { read: Seq::empty(), sent: Seq::empty(), fault: None, after: t }
        } else {
            let rest = run(t, chunks, rooms, reads + 1, keys, sends);
            Ran { read: chunk + rest.read, ..rest }
        },
        (t, Ok(StepView::Send(opcode, payload))) => {
            let rest = run(
                t.queued(opcode, payload, keys(sends)),
                chunks,
                rooms,
                reads,
                keys,
                sends + 1,
            );
            Ran { sent: seq![(opcode, payload)] + rest.sent, ..rest }
        },
        (t, Ok(StepView::Fill)) => if chunks.len() == 0 {
            run(t.received(Seq::empty()), chunks, rooms, reads, keys, sends)
        } else {
            run(t.received(chunks[0]), chunks.drop_first(), rooms, reads, keys, sends)
        },
    }
}

/// The frames that a run of input is to be answered with, in order: a pong with the same payload
/// for each ping, and a close for the first close, unless one was sent before. Nothing behind
/// that close is looked at.
pub open spec fn answers(inbound: Seq<u8>, closing: bool) -> Seq<(OpCode, Seq<u8>)>
    decreases inbound.len(),
{
    match codec::frame_at(inbound) {
        Ok(Some((event, rest))) => {
            proof {
                codec::law_frames_are_decided_once(inbound, Seq::empty());
            }
            match event {
                EventView::Ping(data) => seq![(OpCode::Pong, data)] + answers(rest, closing),
                EventView::Close { .. } => if closing {
                    Seq::empty()
                } else {
                    seq![(OpCode::Close, NORMAL_CLOSURE@)]
                },
                _ => answers(rest, closing),
            }
        },
        _ => Seq::empty(),
    }
}

/// The error in a run of input, if there is one before the first close.
pub open spec fn fault_in(inbound: Seq<u8>) -> Option<ProtocolError>
    decreases inbound.len(),
{
    match codec::frame_at(inbound) {
        Err(e) => Some(e),
        Ok(None) => None,
        Ok(Some((event, rest))) => {
            proof {
                codec::law_frames_are_decided_once(inbound, Seq::empty());
            }
            match event {
                EventView::Close { .. } => None,
                _ => fault_in(rest),
            }
        },
    }
}

/// What a stream has still to hand up, once more input has come.
spec fn to_read(s: StreamView, more: Seq<u8>) -> Seq<u8> {
    if s.finished {
        s.payload
    } else {
        s.payload + stream::carried(s.inbound + more)
    }
}

/// What a stream has still to send, once more input has come.
spec fn to_send(s: StreamView, more: Seq<u8>) -> Seq<(OpCode, Seq<u8>)> {
    if s.finished {
        Seq::empty()
    } else {
        answers(s.inbound + more, s.closing)
    }
}

/// The error that a stream will meet, once more input has come.
spec fn to_fail(s: StreamView, more: Seq<u8>) -> Option<ProtocolError> {
    if s.finished {
        None
    } else {
        fault_in(s.inbound + more)
    }
}

/// A step of a read takes from what is to come what it does, and leaves the rest.
proof fn lemma_step(s: StreamView, room: nat, more: Seq<u8>)
    ensures
        ({
            let (t, step) = s.advance(room);
            match step {
                Ok(StepView::Deliver(chunk)) => {
                    &&& chunk + to_read(t, more) == to_read(s, more)
                    &&& to_send(t, more) == to_send(s, more)
                    &&& to_fail(t, more) == to_fail(s, more)
                    &&& room > 0 ==> chunk.len() > 0
                },
                Ok(StepView::Send(opcode, payload)) => {
                    &&& to_read(t, more) == to_read(s, more)
                    &&& seq![(opcode, payload)] + to_send(t, more) == to_send(s, more)
                    &&& to_fail(t, more) == to_fail(s, more)
                },
                Ok(StepView::Fill) => {
                    &&& t.payload.len() == 0
                    &&& !t.finished
                    &&& codec::frame_at(t.inbound) == Ok::<
                        Option<(EventView, Seq<u8>)>,
                        ProtocolError,
                    >(None)
                    &&& to_read(t, more) == to_read(s, more)
                    &&& to_send(t, more) == to_send(s, more)
                    &&& to_fail(t, more) == to_fail(s, more)
                },
                Ok(StepView::End) => {
                    &&& to_read(s, more).len() == 0
                    &&& to_send(s, more).len() == 0
                    &&& to_fail(s, more) is None
                },
                Err(e) => {
                    &&& to_read(s, more).len() == 0
                    &&& to_send(s, more).len() == 0
                    &&& to_fail(s, more) == Some(e)
                },
            }
        }),
    decreases s.inbound.len(), (if s.finished { 0int } else { 1int }),
{
    if s.payload.len() > 0 {
        let take = if s.payload.len() < room {
            s.payload.len() as int
        } else {
            room as int
        };
        let t = s.advance(room).0;
        assert(s.payload.take(take) + to_read(t, more) =~= to_read(s, more));
    } else if !s.finished {
        codec::law_frames_are_decided_once(s.inbound, Seq::empty());
        codec::law_frames_are_decided_once(s.inbound, more);
        assert(to_read(s, more) =~= stream::carried(s.inbound + more));
        match codec::frame_at(s.inbound) {
            Ok(Some((event, rest))) => {
                let next = StreamView { inbound: rest, ..s };
                match event {
                    EventView::Data(data) => {
                        let next = StreamView { payload: data, ..next };
                        assert(to_read(next, more) == to_read(s, more));
                        lemma_step(next, room, more);
                    },
                    EventView::Pong(_) => {
                        assert(to_read(next, more) =~= to_read(s, more));
                        lemma_step(next, room, more);
                    },
                    EventView::Close { .. } => {
                        let next = StreamView { finished: true, ..next };
                        assert(to_read(next, more) =~= to_read(s, more));
                        if s.closing {
                            lemma_step(next, room, more);
                        } else {
                            assert(seq![(OpCode::Close, NORMAL_CLOSURE@)] + Seq::<
                                (OpCode, Seq<u8>),
                            >::empty() =~= seq![(OpCode::Close, NORMAL_CLOSURE@)]);
                        }
                    },
                    EventView::Ping(_) => {
                        assert(to_read(next, more) =~= to_read(s, more));
                    },
                }
            },
            _ => {},
        }
    }
}

/// The frames of a list of answers, as they are queued.
pub open spec fn frames_of(
    side: stream::Side,
    sent: Seq<(OpCode, Seq<u8>)>,
    keys: spec_fn(nat) -> Seq<u8>,
    sends: nat,
) -> Seq<u8>
    decreases sent.len(),
{
    if sent.len() == 0 {
        Seq::empty()
    } else {
        codec::frame_octets(sent[0].0, true, sent[0].1, side.mask(keys(sends))) + frames_of(
            side,
            sent.drop_first(),
            keys,
            sends + 1,
        )
    }
}

/// A whole run of reads hands up the payload of the data frames up to the first close, in order
/// and nothing else, whatever the pieces are in which the input arrives and the reads in which it
/// is taken. In between, each ping is answered by one pong with the same payload, in order, and
/// the close by one close, unless one was sent before; these frames, and no others, are queued.
/// An error comes up exactly where the input holds one before a close.
pub proof fn law_a_run_reads_up_to_the_close(
    s: StreamView,
    chunks: Seq<Seq<u8>>,
    rooms: spec_fn(nat) -> nat,
    reads: nat,
    keys: spec_fn(nat) -> Seq<u8>,
    sends: nat,
)
    requires
        forall|n: nat| #[trigger] rooms(n) > 0,
        forall|i: int| 0 <= i < chunks.len() ==> (#[trigger] chunks[i]).len() > 0,
    ensures
        ({
            let all = s.inbound + chunks.flatten();
            let r = run(s, chunks, rooms, reads, keys, sends);
            &&& !s.finished ==> r.read == s.payload + stream::carried(all)
            &&& !s.finished ==> r.sent == answers(all, s.closing)
            &&& !s.finished ==> r.fault == fault_in(all)
            &&& s.finished ==> r.read == s.payload && r.sent.len() == 0 && r.fault is None
            &&& r.after.outbound == s.outbound + frames_of(s.side, r.sent, keys, sends)
        }),
    decreases
            chunks.len(),
            (if s.finished { 0int } else { 1int }),
            s.inbound.len(),
            s.payload.len(),
{
    let more = chunks.flatten();
    let room = rooms(reads);
    lemma_advance_shrinks(s, room);
    lemma_step(s, room, more);
    stream::law_reads_send_nothing_themselves(s, room);
    let r = run(s, chunks, rooms, reads, keys, sends);
    match s.advance(room) {
        (t, Ok(StepView::Deliver(chunk))) => {
            law_a_run_reads_up_to_the_close(t, chunks, rooms, reads + 1, keys, sends);
        },
        (t, Ok(StepView::Send(opcode, payload))) => {
            let q = t.queued(opcode, payload, keys(sends));
            law_a_run_reads_up_to_the_close(q, chunks, rooms, reads, keys, sends + 1);
            let rest = run(q, chunks, rooms, reads, keys, sends + 1);
            assert(r.sent.drop_first() =~= rest.sent);
            assert(r.after.outbound =~= s.outbound + frames_of(s.side, r.sent, keys, sends));
        },
        (t, Ok(StepView::Fill)) => {
            if chunks.len() == 0 {
                assert(t.inbound + more =~= t.inbound);
                law_a_run_reads_up_to_the_close(
                    t.received(Seq::empty()),
                    chunks,
                    rooms,
                    reads,
                    keys,
                    sends,
                );
            } else {
                let tail = chunks.drop_first();
                assert(t.inbound + chunks[0] + tail.flatten() =~= t.inbound + more);
                assert forall|i: int| 0 <= i < tail.len() implies (#[trigger] tail[i]).len()
                    > 0 by {
                    assert(tail[i] == chunks[i + 1]);
                }
                law_a_run_reads_up_to_the_close(
                    t.received(chunks[0]),
                    tail,
                    rooms,
                    reads,
                    keys,
                    sends,
                );
            }
        },
        _ => {
            assert(r.after.outbound =~= s.outbound + frames_of(s.side, r.sent, keys, sends));
        },
    }
}

// ---- A run over whole frames -----------------------------------------------------

/// A frame as a peer puts it on the wire.
#[verifier::ext_equal]
pub struct SentView {
    pub opcode: OpCode,
    pub fin: bool,
    pub payload: Seq<u8>,
    pub mask: Option<Seq<u8>>,
}

/// The octets of a list of frames, one behind the other.
pub open spec fn wire_of(frames: Seq<SentView>) -> Seq<u8>
    decreases frames.len(),
{
    if frames.len() == 0 {
        Seq::empty()
    } else {
        let f = frames[0];
        codec::frame_octets(f.opcode, f.fin, f.payload, f.mask) + wire_of(frames.drop_first())
    }
}

/// How many of a list of frames come before the first close.
pub open spec fn before_close(frames: Seq<SentView>) -> nat
    decreases frames.len(),
{
    if frames.len() == 0 || frames[0].opcode == OpCode::Close {
        0
    } else {
        1 + before_close(frames.drop_first())
    }
}

/// The payload of the data frames in a list, in order.
pub open spec fn data_of(frames: Seq<SentView>) -> Seq<u8>
    decreases frames.len(),
{
    if frames.len() == 0 {
        Seq::empty()
    } else if frames[0].opcode.controls() {
        data_of(frames.drop_first())
    } else {
        frames[0].payload + data_of(frames.drop_first())
    }
}

/// A pong for each ping in a list, in order.
pub open spec fn pongs_of(frames: Seq<SentView>) -> Seq<(OpCode, Seq<u8>)>
    decreases frames.len(),
{
    if frames.len() == 0 {
        Seq::empty()
    } else if frames[0].opcode == OpCode::Ping {
        seq![(OpCode::Pong, frames[0].payload)] + pongs_of(frames.drop_first())
    } else {
        pongs_of(frames.drop_first())
    }
}

/// The wire of a list of frames is read as what the frames up to the first close hold.
proof fn lemma_wire_is_read(frames: Seq<SentView>, closing: bool)
    requires
        forall|i: int|
            0 <= i < frames.len() ==> frame::sendable(
                (#[trigger] frames[i]).opcode,
                frames[i].fin,
                frames[i].payload.len(),
                frames[i].mask,
            ),
    ensures
        before_close(frames) <= frames.len(),
        ({
            let wire = wire_of(frames);
            let cut = before_close(frames) as int;
            let close = if cut < frames.len() && !closing {
                seq![(OpCode::Close, NORMAL_CLOSURE@)]
            } else {
                Seq::empty()
            };
            &&& stream::carried(wire) == data_of(frames.take(cut))
            &&& answers(wire, closing) == pongs_of(frames.take(cut)) + close
            &&& fault_in(wire) is None
        }),
    decreases frames.len(),
{
    let wire = wire_of(frames);
    let cut = before_close(frames) as int;
    if frames.len() > 0 {
        let f = frames[0];
        let tail = frames.drop_first();
        assert(frame::sendable(frames[0].opcode, f.fin, f.payload.len(), f.mask));
        codec::law_frames_round_trip(f.opcode, f.fin, f.payload, f.mask, wire_of(tail));
        assert forall|i: int| 0 <= i < tail.len() implies frame::sendable(
            (#[trigger] tail[i]).opcode,
            tail[i].fin,
            tail[i].payload.len(),
            tail[i].mask,
        ) by {
            assert(tail[i] == frames[i + 1]);
        }
        lemma_wire_is_read(tail, closing);
        if f.opcode == OpCode::Close {
            assert(frames.take(cut) =~= Seq::empty());
            assert(answers(wire, closing) =~= pongs_of(frames.take(cut)) + answers(wire, closing));
        } else {
            assert(frames.take(cut).drop_first() =~= tail.take(cut - 1));
            assert(frames.take(cut)[0] == f);
            assert(stream::carried(wire) =~= data_of(frames.take(cut)));
        }
    } else {
        assert(frames.take(cut) =~= Seq::empty());
        lemma_nothing_is_read(wire);
    }
}

/// No frame is read from nothing.
proof fn lemma_nothing_is_read(wire: Seq<u8>)
    requires
        wire.len() == 0,
    ensures
        codec::frame_at(wire) == Ok::<Option<(EventView, Seq<u8>)>, ProtocolError>(None),
{
}

/// A peer that sends any frames, in any pieces, is read as follows, whatever the room of the
/// reads. The payload of its data frames before its first close comes up, in order. Each of its
/// pings before that close is answered by one pong with the same payload, in order, and the close
/// by one close behind them, unless this end had sent one. These answers, and nothing else, go
/// out; no error comes; and what the peer sends behind its close is not looked at.
pub proof fn law_frames_are_read_up_to_the_close(
    s: StreamView,
    frames: Seq<SentView>,
    chunks: Seq<Seq<u8>>,
    rooms: spec_fn(nat) -> nat,
    keys: spec_fn(nat) -> Seq<u8>,
)
    requires
        !s.finished,
        s.payload.len() == 0,
        s.inbound + chunks.flatten() == wire_of(frames),
        forall|n: nat| #[trigger] rooms(n) > 0,
        forall|i: int| 0 <= i < chunks.len() ==> (#[trigger] chunks[i]).len() > 0,
        forall|i: int|
            0 <= i < frames.len() ==> frame::sendable(
                (#[trigger] frames[i]).opcode,
                frames[i].fin,
                frames[i].payload.len(),
                frames[i].mask,
            ),
    ensures
        ({
            let cut = before_close(frames) as int;
            let close = if cut < frames.len() && !s.closing {
                seq![(OpCode::Close, NORMAL_CLOSURE@)]
            } else {
                Seq::empty()
            };
            let r = run(s, chunks, rooms, 0, keys, 0);
            &&& r.read == data_of(frames.take(cut))
            &&& r.sent == pongs_of(frames.take(cut)) + close
            &&& r.fault is None
            &&& r.after.outbound == s.outbound + frames_of(s.side, r.sent, keys, 0)
        }),
{
    law_a_run_reads_up_to_the_close(s, chunks, rooms, 0, keys, 0);
    lemma_wire_is_read(frames, s.closing);
    assert(s.payload + stream::carried(wire_of(frames)) =~= stream::carried(wire_of(frames)));
}

} // verus!
