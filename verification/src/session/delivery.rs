//! What holds between the two ends of a channel: messages arrive, whole, once and in order,
//! however they are cut up and paced.

use crate::channel;
use crate::channel::{ChannelView, MessageView};
use crate::error::Error;
use crate::frame::{
    DataView, FrameKind, FrameView, SeqView, MAX_ANS_NO, MAX_CHANNEL_NO, MAX_FRAME_SIZE,
    MAX_MSG_NO,
};
use crate::greeting::GREETING_CHANNEL;
use crate::session;
use crate::session::{CoreView, EventView, SessionView};
use crate::window;
use crate::window::MAX_WINDOW_SIZE;
use vstd::prelude::*;

verus! {

/// How many octets a session has received on a channel and not yet acknowledged.
pub open spec fn unacked(s: CoreView, number: u32) -> int {
    if s.unacked.contains_key(number) {
        s.unacked[number] as int
    } else {
        0
    }
}

/// How many unacknowledged octets make a session acknowledge them: half its window, and at least
/// one.
pub open spec fn threshold(c: ChannelView) -> int {
    if c.recv_window.size / 2 > 1 {
        (c.recv_window.size / 2) as int
    } else {
        1
    }
}

/// Whether a session keeps its books on a channel: the octets it has not acknowledged are those
/// between the start of the window it advertised and the octet it expects next, and they are too
/// few to be acknowledged.
pub open spec fn keeps_count(s: CoreView, number: u32) -> bool {
    let c = s.channels[number];
    &&& number != GREETING_CHANNEL
    &&& s.channels.contains_key(number)
    &&& c.number == number
    &&& number <= MAX_CHANNEL_NO
    &&& 0 < c.recv_window.size <= MAX_WINDOW_SIZE
    &&& c.expected_seqno == window::advanced(c.recv_window.base, unacked(s, number))
    &&& 0 <= unacked(s, number) < threshold(c)
}

/// Whether the sending end of a channel and the session at its other end agree: the next octet
/// that one sends is the next that the other expects, and no more may be sent than will be taken.
pub open spec fn in_step(sender: ChannelView, receiver: CoreView, number: u32) -> bool {
    let c = receiver.channels[number];
    &&& keeps_count(receiver, number)
    &&& sender.number == number
    &&& c.expected_seqno == sender.next_seqno
    &&& sender.writable() + unacked(receiver, number) <= c.recv_window.size
}

/// A queue of messages with what has already been received of the first of them put back.
pub open spec fn resumed(partial: Option<MessageView>, queue: Seq<MessageView>) -> Seq<
    MessageView,
> {
    match partial {
        Some(p) => queue.update(0, MessageView { payload: p.payload + queue[0].payload, ..p }),
        None => queue,
    }
}

/// Whether what has been received of a message is the beginning of the first in a queue.
pub open spec fn continues(partial: Option<MessageView>, queue: Seq<MessageView>) -> bool {
    partial matches Some(p) ==> queue.len() > 0 && p == (MessageView {
        payload: p.payload,
        ..queue[0]
    })
}

/// The reports of some messages on a channel.
pub open spec fn reports(number: u32, messages: Seq<MessageView>) -> Seq<EventView> {
    messages.map_values(
        |message: MessageView| EventView::MessageReceived { channel: number, message },
    )
}

/// Data frames as frames of either sort.
pub open spec fn data(frames: Seq<DataView>) -> Seq<FrameView> {
    frames.map_values(|f: DataView| FrameView::Data(f))
}

/// The message that a frame adds to what was received before it.
pub open spec fn extended(partial: Option<MessageView>, f: DataView) -> MessageView {
    match partial {
        Some(p) => MessageView { payload: p.payload + f.payload, ..p },
        None => MessageView::of_frame(f),
    }
}

/// A session that keeps its books takes a frame that it expects and has room for, reports the
/// message if the frame completes one, and keeps its books.
proof fn lemma_frame_taken(s: CoreView, f: DataView)
    requires
        keeps_count(s, f.channel),
        f.seqno == s.channels[f.channel].expected_seqno,
        unacked(s, f.channel) + f.payload.len() <= s.channels[f.channel].recv_window.size,
        s.channels[f.channel].partial matches Some(p) ==> p.matches(f),
    ensures
        ({
            let c = s.channels[f.channel];
            let (t, r) = s.handle_frame(FrameView::Data(f));
            let d = t.channels[f.channel];
            let whole = extended(c.partial, f);
            &&& r is Ok
            &&& keeps_count(t, f.channel)
            &&& unacked(t, f.channel) <= unacked(s, f.channel) + f.payload.len()
            &&& d.recv_window.size == c.recv_window.size
            &&& d.expected_seqno == window::advanced(f.seqno, f.payload.len() as int)
            &&& d.partial == (if f.more {
                Some(whole)
            } else {
                None
            })
            &&& t.events == s.events + reports(
                f.channel,
                if f.more {
                    Seq::empty()
                } else {
                    seq![whole]
                },
            )
        }),
{
    let n = f.channel;
    let c = s.channels[n];
    let before = unacked(s, n);
    let len = f.payload.len() as int;
    let whole = extended(c.partial, f);
    window::law_advance_and_distance_are_inverses(c.recv_window.base, before as u32);
    let (taken, complete) = c.accept(f);
    assert(complete is Ok);
    let held = s.with_channel(n, taken);
    let (acked, r) = held.acknowledge(n, len as u32);
    assert(held.channels[n] == taken);
    assert(unacked(held, n) == before);
    window::law_advancing_is_additive(c.recv_window.base, before, len);
    assert(r is Ok && keeps_count(acked, n) && acked.channels[n].partial == taken.partial
        && acked.channels[n].expected_seqno == taken.expected_seqno && acked.events == s.events
        && acked.channels[n].recv_window.size == c.recv_window.size && unacked(acked, n) <= before
        + len) by {
        let total = before + len;
        if total >= threshold(taken) {
            let after = taken.consume(total as u32);
            assert(after.recv_window.base == taken.expected_seqno);
            assert(window::advanced(after.recv_window.base, 0) == after.recv_window.base);
        }
    }
    let (t, end) = s.handle_frame(FrameView::Data(f));
    assert(t.channels == acked.channels && t.unacked == acked.unacked);
    if f.more {
        assert(t.events =~= s.events + reports(n, Seq::empty()));
    } else {
        assert(reports(n, seq![whole]) =~= seq![
            EventView::MessageReceived { channel: n, message: whole },
        ]);
        assert(t.events =~= s.events + reports(n, seq![whole]));
    }
}

/// What was received of a message before.
pub open spec fn so_far(partial: Option<MessageView>) -> Seq<u8> {
    match partial {
        Some(p) => p.payload,
        None => Seq::empty(),
    }
}

/// A session that keeps its books takes a run of frames that carries a message, or a part of it,
/// and reports the message if the run completes it.
proof fn lemma_run_taken(
    s: CoreView,
    sender: ChannelView,
    m: MessageView,
    seqno: u32,
    frames: Seq<DataView>,
    tail: bool,
    limit: nat,
)
    requires
        keeps_count(s, sender.number),
        frames.len() > 0,
        channel::contiguous(sender, m.kind, m.msgno, m.ansno, seqno, frames, tail, limit),
        s.channels[sender.number].expected_seqno == seqno,
        unacked(s, sender.number) + channel::joined(frames).len()
            <= s.channels[sender.number].recv_window.size,
        s.channels[sender.number].partial matches Some(p) ==> p.kind == m.kind && p.msgno == m.msgno
            && p.ansno == m.ansno,
    ensures
        ({
            let n = sender.number;
            let c = s.channels[n];
            let joined = channel::joined(frames);
            let whole = MessageView { payload: so_far(c.partial) + joined, ..m };
            &&& session::handle_frames(s, data(frames)) matches Ok(t)
            &&& keeps_count(t, n)
            &&& unacked(t, n) <= unacked(s, n) + joined.len()
            &&& t.channels[n].recv_window.size == c.recv_window.size
            &&& t.channels[n].expected_seqno == window::advanced(seqno, joined.len() as int)
            &&& t.channels[n].partial == (if tail {
                Some(whole)
            } else {
                None
            })
            &&& t.events == s.events + reports(
                n,
                if tail {
                    Seq::empty()
                } else {
                    seq![whole]
                },
            )
        }),
    decreases frames.len(),
{
    let n = sender.number;
    let c = s.channels[n];
    let f = frames[0];
    let rest = frames.drop_first();
    let joined = channel::joined(frames);
    let before = so_far(c.partial);
    let all = data(frames);
    assert(all[0] == FrameView::Data(f));
    assert(all.drop_first() =~= data(rest));
    lemma_frame_taken(s, f);
    let t = s.handle_frame(FrameView::Data(f)).0;
    assert(extended(c.partial, f).payload =~= before + f.payload);
    assert(before + (f.payload + channel::joined(rest)) =~= before + f.payload + channel::joined(
        rest,
    ));
    if rest.len() == 0 {
        assert(channel::joined(rest) =~= Seq::<u8>::empty());
        assert(joined =~= f.payload);
        assert(data(rest).len() == 0);
        assert(session::handle_frames(t, data(rest)) == Ok::<CoreView, Error>(t));
    } else {
        assert(t.events =~= s.events);
        lemma_run_taken(
            t,
            sender,
            m,
            window::advanced(seqno, f.payload.len() as int),
            rest,
            tail,
            limit,
        );
        window::law_advancing_is_additive(
            seqno,
            f.payload.len() as int,
            channel::joined(rest).len() as int,
        );
    }
}

/// A session that takes two runs of frames takes the first and then the second.
proof fn lemma_handle_frames_concat(s: CoreView, a: Seq<FrameView>, b: Seq<FrameView>)
    ensures
        session::handle_frames(s, a + b) == (match session::handle_frames(s, a) {
            Ok(t) => session::handle_frames(t, b),
            Err(e) => Err::<CoreView, Error>(e),
        }),
    decreases a.len(),
{
    if a.len() == 0 {
        assert(a + b =~= b);
    } else {
        assert((a + b)[0] == a[0]);
        assert((a + b).drop_first() =~= a.drop_first() + b);
        if let (t, Ok(_)) = s.handle_frame(a[0]) {
            lemma_handle_frames_concat(t, a.drop_first(), b);
        }
    }
}

/// What one end of a channel writes of a message, the other end takes: the two are in step again,
/// and the message is reported if it was written to its end.
proof fn lemma_emitted_taken(
    sender: ChannelView,
    m: MessageView,
    max_frame_size: u32,
    receiver: CoreView,
)
    requires
        in_step(sender, receiver, sender.number),
        receiver.channels[sender.number].partial matches Some(p) ==> p.kind == m.kind && p.msgno
            == m.msgno && p.ansno == m.ansno,
        sender.emit(m.kind, m.msgno, m.ansno, m.payload, max_frame_size) is Ok,
    ensures
        ({
            let n = sender.number;
            let c = receiver.channels[n];
            let (after, e) = sender.emit(
                m.kind,
                m.msgno,
                m.ansno,
                m.payload,
                max_frame_size,
            )->Ok_0;
            let joined = channel::joined(e.frames);
            let whole = MessageView { payload: so_far(c.partial) + joined, ..m };
            &&& joined + e.remaining == m.payload
            &&& session::handle_frames(receiver, data(e.frames)) matches Ok(t)
            &&& in_step(after, t, n)
            &&& after.number == n
            &&& t.channels[n].recv_window.size == c.recv_window.size
            &&& e.remaining.len() > 0 ==> t.channels[n].partial == Some(whole) && t.events
                == receiver.events
            &&& e.remaining.len() == 0 ==> t.channels[n].partial is None && t.events
                == receiver.events + reports(n, seq![whole])
        }),
{
    let n = sender.number;
    channel::law_emit_fragments(sender, m.kind, m.msgno, m.ansno, m.payload, max_frame_size);
    let (after, e) = sender.emit(m.kind, m.msgno, m.ansno, m.payload, max_frame_size)->Ok_0;
    lemma_run_taken(
        receiver,
        sender,
        m,
        sender.next_seqno,
        e.frames,
        e.remaining.len() > 0,
        channel::clamped(max_frame_size),
    );
    assert(receiver.events + reports(n, Seq::empty()) =~= receiver.events);
}

/// Putting back what was received of a message that has now been written to its end.
proof fn lemma_front_done(
    partial: Option<MessageView>,
    queue: Seq<MessageView>,
    number: u32,
    done: int,
)
    requires
        queue.len() > 0,
        continues(partial, queue),
        1 <= done <= queue.len(),
    ensures
        ({
            let due = resumed(partial, queue);
            let whole = MessageView { payload: so_far(partial) + queue[0].payload, ..queue[0] };
            let rest = queue.drop_first();
            &&& reports(number, due.take(done)) == reports(number, seq![whole]) + reports(
                number,
                rest.take(done - 1),
            )
            &&& due.skip(done) == rest.skip(done - 1)
        }),
{
    let due = resumed(partial, queue);
    let whole = MessageView { payload: so_far(partial) + queue[0].payload, ..queue[0] };
    let rest = queue.drop_first();
    assert(whole.payload =~= due[0].payload);
    assert(due.take(done) =~= seq![whole] + rest.take(done - 1));
    assert(due.skip(done) =~= rest.skip(done - 1));
    assert(reports(number, due.take(done)) =~= reports(number, seq![whole]) + reports(
        number,
        rest.take(done - 1),
    ));
}

/// Putting back what was received of a message that has been written in part.
proof fn lemma_front_begun(
    partial: Option<MessageView>,
    queue: Seq<MessageView>,
    written: Seq<u8>,
    remaining: Seq<u8>,
)
    requires
        queue.len() > 0,
        continues(partial, queue),
        queue[0].payload == written + remaining,
    ensures
        ({
            let more = MessageView { payload: so_far(partial) + written, ..queue[0] };
            let left = queue.update(0, MessageView { payload: remaining, ..queue[0] });
            &&& continues(Some(more), left)
            &&& resumed(Some(more), left) == resumed(partial, queue)
        }),
{
    let more = MessageView { payload: so_far(partial) + written, ..queue[0] };
    let left = queue.update(0, MessageView { payload: remaining, ..queue[0] });
    assert(more.payload + remaining =~= so_far(partial) + queue[0].payload);
    assert(so_far(None) + queue[0].payload =~= queue[0].payload);
    assert(resumed(Some(more), left) =~= resumed(partial, queue));
}

/// Messages arrive, whole, once and in order, whatever the sizes of the frames and the window:
/// as much of a queue as one end of a channel may write, the other end takes without fault. It
/// reports exactly the messages that have been written to their end, and what is left of the
/// queue, with what it has received of the first message put back, is what it has still to
/// report. Both ends are in step again, so the same goes for whatever is written next.
pub proof fn law_queued_messages_arrive(
    sender: ChannelView,
    queue: Seq<MessageView>,
    max_frame_size: u32,
    receiver: CoreView,
)
    requires
        in_step(sender, receiver, sender.number),
        continues(receiver.channels[sender.number].partial, queue),
        session::flushed(sender, queue, max_frame_size).result is Ok,
    ensures
        ({
            let n = sender.number;
            let f = session::flushed(sender, queue, max_frame_size);
            let due = resumed(receiver.channels[n].partial, queue);
            let done = queue.len() - f.queue.len();
            &&& session::handle_frames(receiver, data(f.frames)) matches Ok(t)
            &&& 0 <= done
            &&& t.events == receiver.events + reports(n, due.take(done))
            &&& continues(t.channels[n].partial, f.queue)
            &&& resumed(t.channels[n].partial, f.queue) == due.skip(done)
            &&& in_step(f.channel, t, n)
            &&& t.channels[n].recv_window.size == receiver.channels[n].recv_window.size
        }),
    decreases queue.len(),
{
    let n = sender.number;
    let c = receiver.channels[n];
    let f = session::flushed(sender, queue, max_frame_size);
    let due = resumed(c.partial, queue);
    if queue.len() == 0 || (sender.writable() == 0 && queue[0].payload.len() > 0) {
        assert(data(f.frames).len() == 0);
        assert(due.take(0) =~= Seq::empty());
        assert(due.skip(0) =~= due);
        assert(receiver.events + reports(n, due.take(0)) =~= receiver.events);
    } else {
        let front = queue[0];
        lemma_emitted_taken(sender, front, max_frame_size, receiver);
        let (after, e) = sender.emit(
            front.kind,
            front.msgno,
            front.ansno,
            front.payload,
            max_frame_size,
        )->Ok_0;
        let t = session::handle_frames(receiver, data(e.frames))->Ok_0;
        let joined = channel::joined(e.frames);
        if e.remaining.len() > 0 {
            lemma_front_begun(c.partial, queue, joined, e.remaining);
            assert(due.skip(0) =~= due);
            assert(due.take(0) =~= Seq::empty());
            assert(receiver.events + reports(n, due.take(0)) =~= receiver.events);
        } else {
            let rest = queue.drop_first();
            assert(joined + e.remaining =~= joined);
            law_queued_messages_arrive(after, rest, max_frame_size, t);
            let g = session::flushed(after, rest, max_frame_size);
            assert(data(f.frames) =~= data(e.frames) + data(g.frames));
            lemma_handle_frames_concat(receiver, data(e.frames), data(g.frames));
            let done = queue.len() - f.queue.len();
            lemma_front_done(c.partial, queue, n, done);
            let whole = MessageView { payload: so_far(c.partial) + front.payload, ..front };
            assert(receiver.events + (reports(n, seq![whole]) + reports(n, rest.take(done - 1)))
                =~= receiver.events + reports(n, seq![whole]) + reports(n, rest.take(done - 1)));
        }
    }
}

/// A session acknowledges what it takes by advertising its window: taking a frame either leaves
/// the window and what waits to be written as they are, or moves the window up to the octet
/// expected next and writes the `SEQ` frame that says so.
pub proof fn law_acknowledgements_advertise_the_window(s: CoreView, f: DataView)
    requires
        keeps_count(s, f.channel),
        f.seqno == s.channels[f.channel].expected_seqno,
        unacked(s, f.channel) + f.payload.len() <= s.channels[f.channel].recv_window.size,
        s.channels[f.channel].partial matches Some(p) ==> p.matches(f),
    ensures
        ({
            let t = s.handle_frame(FrameView::Data(f)).0;
            let advertised = t.channels[f.channel].recv_window;
            ||| {
                &&& advertised == s.channels[f.channel].recv_window
                &&& t.outbound == s.outbound
            }
            ||| {
                &&& advertised.base == t.channels[f.channel].expected_seqno
                &&& t.outbound == s.outbound + advertised.seq_frame(f.channel).wire()
            }
        }),
{
    let n = f.channel;
    let c = s.channels[n];
    let before = unacked(s, n);
    let len = f.payload.len() as int;
    window::law_advance_and_distance_are_inverses(c.recv_window.base, before as u32);
    let (taken, complete) = c.accept(f);
    let held = s.with_channel(n, taken);
    assert(held.channels[n] == taken);
    let acked = held.acknowledge(n, len as u32).0;
    window::law_advancing_is_additive(c.recv_window.base, before, len);
    let t = s.handle_frame(FrameView::Data(f)).0;
    assert(t.channels == acked.channels && t.outbound == acked.outbound);
}

/// A sender is never stalled for good: once it has the window that the receiver advertises, it
/// may write again, and at least half of the window at that, and the two are in step.
pub proof fn law_acknowledged_senders_may_write(sender: ChannelView, receiver: CoreView)
    requires
        in_step(sender, receiver, sender.number),
    ensures
        ({
            let n = sender.number;
            let advertised = receiver.channels[n].recv_window;
            let after = sender.apply_seq(advertised.seq_frame(n));
            &&& advertised.seq_frame(n).valid()
            &&& in_step(after, receiver, n)
            &&& after.writable() == advertised.size - unacked(receiver, n)
            &&& after.writable() > 0
            &&& 2 * after.writable() >= advertised.size
        }),
{
    let n = sender.number;
    let advertised = receiver.channels[n].recv_window;
    window::law_advance_and_distance_are_inverses(
        advertised.base,
        unacked(receiver, n) as u32,
    );
}

/// Whether a message can be put into frames at all.
pub open spec fn sendable(m: MessageView) -> bool {
    &&& m.ansno is Some <==> m.kind == FrameKind::Ans
    &&& m.msgno <= MAX_MSG_NO
    &&& m.ansno matches Some(n) ==> n <= MAX_ANS_NO
}

/// Writing messages that can be put into frames does not fail, and it stops only for want of
/// room.
pub(crate) proof fn lemma_flush_stops_when_full(sender: ChannelView, queue: Seq<MessageView>, max: u32)
    requires
        sender.number <= MAX_CHANNEL_NO,
        forall|i: int| 0 <= i < queue.len() ==> sendable(#[trigger] queue[i]),
    ensures
        ({
            let f = session::flushed(sender, queue, max);
            &&& f.result is Ok
            &&& f.queue.len() > 0 ==> f.channel.writable() == 0
            &&& forall|i: int| 0 <= i < f.queue.len() ==> sendable(#[trigger] f.queue[i])
            &&& f.queue.len() <= queue.len()
        }),
    decreases queue.len(),
{
    let f = session::flushed(sender, queue, max);
    if !(queue.len() == 0 || (sender.writable() == 0 && queue[0].payload.len() > 0)) {
        let m = queue[0];
        channel::law_emit_fragments(sender, m.kind, m.msgno, m.ansno, m.payload, max);
        assert(sender.emit(m.kind, m.msgno, m.ansno, m.payload, max) is Ok) by {
            reveal(ChannelView::emit);
        }
        let (after, e) = sender.emit(m.kind, m.msgno, m.ansno, m.payload, max)->Ok_0;
        if e.remaining.len() == 0 {
            let rest = queue.drop_first();
            assert forall|i: int| 0 <= i < rest.len() implies sendable(#[trigger] rest[i]) by {
                assert(rest[i] == queue[i + 1]);
            }
            lemma_flush_stops_when_full(after, rest, max);
        }
    }
}

/// One round between the two ends of a channel: the sender writes what it may, the receiver takes
/// it, and the sender learns the window that the receiver advertises.
pub open spec fn round(
    sender: ChannelView,
    queue: Seq<MessageView>,
    max_frame_size: u32,
    receiver: CoreView,
) -> Result<(ChannelView, Seq<MessageView>, CoreView), Error> {
    let n = sender.number;
    let f = session::flushed(sender, queue, max_frame_size);
    match f.result {
        Err(e) => Err(e),
        Ok(_) => match session::handle_frames(receiver, data(f.frames)) {
            Err(e) => Err(e),
            Ok(t) => Ok(
                (
                    f.channel.apply_seq(t.channels[n].recv_window.seq_frame(n)),
                    f.queue,
                    t,
                ),
            ),
        },
    }
}

/// Some rounds one after the other.
pub open spec fn rounds(
    sender: ChannelView,
    queue: Seq<MessageView>,
    max_frame_size: u32,
    receiver: CoreView,
    count: nat,
) -> Result<(ChannelView, Seq<MessageView>, CoreView), Error>
    decreases count,
{
    if count == 0 {
        Ok((sender, queue, receiver))
    } else {
        match round(sender, queue, max_frame_size, receiver) {
            Err(e) => Err(e),
            Ok((s, q, r)) => rounds(s, q, max_frame_size, r, (count - 1) as nat),
        }
    }
}

/// A round delivers something, unless the sender may not write or has nothing to.
proof fn lemma_round(
    sender: ChannelView,
    queue: Seq<MessageView>,
    max_frame_size: u32,
    receiver: CoreView,
)
    requires
        in_step(sender, receiver, sender.number),
        continues(receiver.channels[sender.number].partial, queue),
        forall|i: int| 0 <= i < queue.len() ==> sendable(#[trigger] queue[i]),
    ensures
        ({
            let n = sender.number;
            let due = resumed(receiver.channels[n].partial, queue);
            &&& round(sender, queue, max_frame_size, receiver) matches Ok((s, q, t))
            &&& s.number == n
            &&& s.writable() > 0
            &&& in_step(s, t, n)
            &&& q.len() <= queue.len()
            &&& continues(t.channels[n].partial, q)
            &&& forall|i: int| 0 <= i < q.len() ==> sendable(#[trigger] q[i])
            &&& t.events == receiver.events + reports(n, due.take(queue.len() - q.len()))
            &&& resumed(t.channels[n].partial, q) == due.skip(queue.len() - q.len())
            &&& session::queued_octets(q).len() <= session::queued_octets(queue).len()
            &&& q.len() > 0 && sender.writable() > 0 ==> session::queued_octets(q).len()
                < session::queued_octets(queue).len()
        }),
{
    let f = session::flushed(sender, queue, max_frame_size);
    lemma_flush_stops_when_full(sender, queue, max_frame_size);
    law_queued_messages_arrive(sender, queue, max_frame_size, receiver);
    let t = session::handle_frames(receiver, data(f.frames))->Ok_0;
    session::law_pacing_keeps_every_octet_in_order(sender, queue, max_frame_size);
    law_acknowledged_senders_may_write(f.channel, t);
}

/// Every message is delivered in the end, however large it is and however small the window and
/// the frames are: after as many rounds as there are octets, and one more, nothing is queued any
/// longer, and exactly the queued messages have been reported, in order.
pub proof fn law_every_message_is_delivered(
    sender: ChannelView,
    queue: Seq<MessageView>,
    max_frame_size: u32,
    receiver: CoreView,
    count: nat,
)
    requires
        in_step(sender, receiver, sender.number),
        continues(receiver.channels[sender.number].partial, queue),
        forall|i: int| 0 <= i < queue.len() ==> sendable(#[trigger] queue[i]),
        count > session::queued_octets(queue).len() + (if sender.writable() > 0 {
            0int
        } else {
            1int
        }),
    ensures
        ({
            let n = sender.number;
            &&& rounds(sender, queue, max_frame_size, receiver, count) matches Ok((s, q, t))
            &&& q.len() == 0
            &&& t.events == receiver.events + reports(
                n,
                resumed(receiver.channels[n].partial, queue),
            )
            &&& in_step(s, t, n)
        }),
    decreases count,
{
    let n = sender.number;
    let due = resumed(receiver.channels[n].partial, queue);
    lemma_round(sender, queue, max_frame_size, receiver);
    let (s, q, t) = round(sender, queue, max_frame_size, receiver)->Ok_0;
    let done = queue.len() - q.len();
    let left = resumed(t.channels[n].partial, q);
    assert(due.take(done) + due.skip(done) =~= due);
    assert(reports(n, due) =~= reports(n, due.take(done)) + reports(n, due.skip(done)));
    assert(receiver.events + (reports(n, due.take(done)) + reports(n, left)) =~= receiver.events
        + reports(n, due.take(done)) + reports(n, left));
    if count > 1 {
        if q.len() == 0 {
            assert(session::queued_octets(q).len() == 0);
        }
        law_every_message_is_delivered(s, q, max_frame_size, t, (count - 1) as nat);
    } else {
        assert(rounds(s, q, max_frame_size, t, 0) == Ok::<
            (ChannelView, Seq<MessageView>, CoreView),
            Error,
        >((s, q, t)));
        assert(q.len() == 0);
        assert(left.len() == 0);
        assert(reports(n, left) =~= Seq::empty());
        assert(receiver.events + reports(n, due.take(done)) + Seq::<EventView>::empty()
            =~= receiver.events + reports(n, due.take(done)));
    }
}

/// The frames of a contiguous run can be encoded.
proof fn lemma_run_valid(
    c: ChannelView,
    m: MessageView,
    seqno: u32,
    frames: Seq<DataView>,
    tail: bool,
    max_frame_size: u32,
)
    requires
        c.number <= MAX_CHANNEL_NO,
        sendable(m),
        channel::contiguous(
            c,
            m.kind,
            m.msgno,
            m.ansno,
            seqno,
            frames,
            tail,
            channel::clamped(max_frame_size),
        ),
    ensures
        forall|i: int| 0 <= i < frames.len() ==> (#[trigger] frames[i]).valid(),
    decreases frames.len(),
{
    if frames.len() > 0 {
        let f = frames[0];
        let rest = frames.drop_first();
        lemma_run_valid(
            c,
            m,
            window::advanced(seqno, f.payload.len() as int),
            rest,
            tail,
            max_frame_size,
        );
        assert forall|i: int| 0 <= i < frames.len() implies (#[trigger] frames[i]).valid() by {
            if i > 0 {
                assert(frames[i] == rest[i - 1]);
            }
        }
    }
}

/// What is written of messages that can be put into frames can be encoded.
proof fn lemma_flush_valid(sender: ChannelView, queue: Seq<MessageView>, max_frame_size: u32)
    requires
        sender.number <= MAX_CHANNEL_NO,
        forall|i: int| 0 <= i < queue.len() ==> sendable(#[trigger] queue[i]),
    ensures
        ({
            let frames = session::flushed(sender, queue, max_frame_size).frames;
            forall|i: int| 0 <= i < frames.len() ==> (#[trigger] frames[i]).valid()
        }),
    decreases queue.len(),
{
    if !(queue.len() == 0 || (sender.writable() == 0 && queue[0].payload.len() > 0)) {
        let m = queue[0];
        channel::law_emit_fragments(
            sender,
            m.kind,
            m.msgno,
            m.ansno,
            m.payload,
            max_frame_size,
        );
        if let Ok((after, e)) = sender.emit(
            m.kind,
            m.msgno,
            m.ansno,
            m.payload,
            max_frame_size,
        ) {
            lemma_run_valid(
                sender,
                m,
                sender.next_seqno,
                e.frames,
                e.remaining.len() > 0,
                max_frame_size,
            );
            if e.remaining.len() == 0 {
                let rest = queue.drop_first();
                assert forall|i: int| 0 <= i < rest.len() implies sendable(#[trigger] rest[i]) by {
                    assert(rest[i] == queue[i + 1]);
                }
                lemma_flush_valid(after, rest, max_frame_size);
            }
        }
    }
}

/// A run of data frames is written as any other run of frames.
proof fn lemma_wires_are_frame_wires(frames: Seq<DataView>)
    ensures
        session::wires(frames) == session::frame_wires(data(frames)),
    decreases frames.len(),
{
    if frames.len() > 0 {
        let init = frames.drop_last();
        lemma_wires_are_frame_wires(init);
        assert(data(frames) =~= data(init).push(FrameView::Data(frames.last())));
        lemma_frame_wires_push(data(init), FrameView::Data(frames.last()));
    }
}

proof fn lemma_frame_wires_push(frames: Seq<FrameView>, f: FrameView)
    ensures
        session::frame_wires(frames.push(f)) == session::frame_wires(frames) + f.wire(),
    decreases frames.len(),
{
    if frames.len() == 0 {
        reveal_with_fuel(session::frame_wires, 2);
        assert(frames.push(f).drop_first() =~= Seq::empty());
        assert(session::frame_wires(frames.push(f)) =~= f.wire());
        assert(session::frame_wires(frames) + f.wire() =~= f.wire());
    } else {
        let rest = frames.drop_first();
        lemma_frame_wires_push(rest, f);
        assert(frames.push(f).drop_first() =~= rest.push(f));
        assert(frames[0].wire() + (session::frame_wires(rest) + f.wire()) =~= frames[0].wire()
            + session::frame_wires(rest) + f.wire());
    }
}

/// Whether a session is at a frame's beginning in the octets it receives.
pub open spec fn between_frames(s: SessionView) -> bool {
    &&& s.inbound.len() == 0
    &&& s.decoder.pending is None
    &&& s.decoder.max_frame_size == MAX_FRAME_SIZE
}

/// Messages arrive over the wire: the octets that one end of a channel writes for its queue are
/// taken by the session at the other end as the frames they carry, and it is between frames
/// again.
pub proof fn law_written_octets_arrive(
    sender: ChannelView,
    queue: Seq<MessageView>,
    max_frame_size: u32,
    receiver: SessionView,
)
    requires
        between_frames(receiver),
        in_step(sender, receiver.core, sender.number),
        continues(receiver.core.channels[sender.number].partial, queue),
        forall|i: int| 0 <= i < queue.len() ==> sendable(#[trigger] queue[i]),
    ensures
        ({
            let f = session::flushed(sender, queue, max_frame_size);
            &&& f.result is Ok
            &&& session::handle_frames(receiver.core, data(f.frames)) matches Ok(core)
            &&& receiver.handle_input(session::wires(f.frames)) == Ok::<SessionView, Error>(
                SessionView { core, ..receiver },
            )
        }),
{
    let f = session::flushed(sender, queue, max_frame_size);
    lemma_flush_stops_when_full(sender, queue, max_frame_size);
    lemma_flush_valid(sender, queue, max_frame_size);
    law_queued_messages_arrive(sender, queue, max_frame_size, receiver.core);
    lemma_wires_are_frame_wires(f.frames);
    session::law_encoded_frames_arrive(receiver, data(f.frames));
}

/// Sending a message on a channel with nothing queued writes its frames.
proof fn lemma_send_msg_writes(sender: CoreView, number: u32, payload: Seq<u8>)
    requires
        number != GREETING_CHANNEL,
        sender.channels.contains_key(number),
        sender.channels[number].allocate().1 is Ok,
        session::entry(sender.queues, number).len() == 0,
    ensures
        ({
            let (c, allocated) = sender.channels[number].allocate();
            let msgno = allocated->Ok_0;
            let m = MessageView { kind: FrameKind::Msg, msgno, ansno: None, payload };
            let f = session::flushed(c, seq![m], sender.config.max_frame_size);
            let (after, sent) = sender.send_msg(number, payload);
            &&& after.channels[number] == f.channel
            &&& after.outbound == sender.outbound + session::wires(f.frames)
            &&& f.result is Ok ==> sent == Ok::<u32, Error>(msgno)
        }),
{
    let (c, allocated) = sender.channels[number].allocate();
    let m = MessageView { kind: FrameKind::Msg, msgno: allocated->Ok_0, ansno: None, payload };
    assert(session::entry(sender.queues, number).push(m) =~= seq![m]);
}

/// A message that one session sends is the message that the other receives: the octets that
/// sending it adds to those to be written make the session at the other end report it, and
/// nothing else, provided that the window has room for it.
pub proof fn law_sent_messages_are_received(
    sender: CoreView,
    number: u32,
    payload: Seq<u8>,
    receiver: SessionView,
)
    requires
        sender.channels.contains_key(number),
        sender.channels[number].next_msgno <= MAX_MSG_NO,
        sender.channels[number].allocate().1 is Ok,
        session::entry(sender.queues, number).len() == 0,
        payload.len() <= sender.channels[number].writable(),
        between_frames(receiver),
        in_step(sender.channels[number], receiver.core, number),
        receiver.core.channels[number].partial is None,
    ensures
        ({
            let (after, sent) = sender.send_msg(number, payload);
            let written = after.outbound.skip(sender.outbound.len() as int);
            &&& sent matches Ok(msgno)
            &&& after.outbound == sender.outbound + written
            &&& receiver.handle_input(written) matches Ok(taken)
            &&& taken.core.events == receiver.core.events.push(
                EventView::MessageReceived {
                    channel: number,
                    message: MessageView { kind: FrameKind::Msg, msgno, ansno: None, payload },
                },
            )
            &&& between_frames(taken)
            &&& in_step(after.channels[number], taken.core, number)
        }),
{
    let (c, allocated) = sender.channels[number].allocate();
    let msgno = allocated->Ok_0;
    let m = MessageView { kind: FrameKind::Msg, msgno, ansno: None, payload };
    let queue = seq![m];
    let max = sender.config.max_frame_size;
    let f = session::flushed(c, queue, max);
    channel::law_message_numbers_in_flight_are_unique(sender.channels[number], msgno);
    assert(sender.channels[number].writable() == c.writable());
    assert(sendable(queue[0]));
    lemma_send_msg_writes(sender, number, payload);
    law_written_octets_arrive(c, queue, max, receiver);
    law_queued_messages_arrive(c, queue, max, receiver.core);
    assert(f.queue.len() == 0) by {
        channel::law_emit_fragments(c, m.kind, m.msgno, m.ansno, m.payload, max);
        reveal_with_fuel(session::flushed, 2);
        assert(queue.drop_first() =~= Seq::empty());
    }
    assert((sender.outbound + session::wires(f.frames)).skip(sender.outbound.len() as int)
        =~= session::wires(f.frames));
    assert(resumed(receiver.core.channels[number].partial, queue).take(1) =~= queue);
    assert(receiver.core.events + reports(number, queue) =~= receiver.core.events.push(
        EventView::MessageReceived { channel: number, message: m },
    ));
}

/// An acknowledgement that arrives is acted upon at once: the session takes the window that it
/// advertises and writes as much of the channel's queue as that allows.
pub proof fn law_acknowledgements_resume_the_queue(s: SessionView, f: SeqView)
    requires
        between_frames(s),
        f.valid(),
        s.core.knows(f.channel),
    ensures
        ({
            let opened = s.core.with_channel(
                f.channel,
                s.core.channel(f.channel).apply_seq(f),
            );
            s.handle_input(f.wire()) == (match opened.flush(f.channel) {
                (core, Ok(_)) => Ok::<SessionView, Error>(SessionView { core, ..s }),
                (_, Err(e)) => Err::<SessionView, Error>(e),
            })
        }),
{
    let frames = seq![FrameView::Flow(f)];
    reveal_with_fuel(session::frame_wires, 2);
    reveal_with_fuel(session::handle_frames, 2);
    assert(frames.drop_first() =~= Seq::empty());
    assert(session::frame_wires(frames) =~= f.wire());
    session::law_encoded_frames_arrive(s, frames);
}

/// Two sessions are in step on a channel that has just been opened, if they work to windows of
/// the same size.
pub proof fn law_fresh_channels_are_in_step(
    number: u32,
    profile: Seq<char>,
    window_size: u32,
    receiver: CoreView,
)
    requires
        number != GREETING_CHANNEL,
        number <= MAX_CHANNEL_NO,
        0 < window_size <= MAX_WINDOW_SIZE,
        !receiver.unacked.contains_key(number),
    ensures
        in_step(
            ChannelView::fresh(number, profile, window_size),
            receiver.with_open_channel(
                number,
                ChannelView::fresh(number, profile, window_size),
            ),
            number,
        ),
{
}

} // verus!
