//! What holds of replies in several parts: the answers to a message, and the `NUL` that ends
//! them, leave together and in the order in which the messages arrived, whatever the order in
//! which the parts are handed over.

use crate::channel::{ChannelView, MessageView};
use crate::frame::{FrameKind, MAX_CHANNEL_NO};
use crate::greeting::GREETING_CHANNEL;
use crate::session;
use crate::session::delivery;
use crate::session::ordering;
use crate::session::{CoreView, Flushed, SessionView};
use vstd::prelude::*;

verus! {

// ---- when a message stops waiting ------------------------------------------------

/// Whether a list is what is left of another behind its first member.
pub open spec fn left_behind_the_first(left: Seq<u32>, order: Seq<u32>) -> bool {
    exists|k: int| 1 <= k <= order.len() && left == #[trigger] order.skip(k)
}

/// Releasing held replies takes messages off the front of those that wait, and no others.
proof fn lemma_release_takes_from_the_front(s: CoreView, channel: u32) -> (k: int)
    ensures
        0 <= k <= session::entry(s.reply_order, channel).len(),
        session::entry(s.release(channel).0.reply_order, channel) == session::entry(
            s.reply_order,
            channel,
        ).skip(k),
    decreases session::entry(s.reply_order, channel).len(),
{
    let order = session::entry(s.reply_order, channel);
    assert(order.skip(0) =~= order);
    match s.ready(channel) {
        None => 0,
        Some(held) => {
            let (t, r) = s.release_ready(channel);
            if r is Ok && exists|i: int|
                0 <= i < held.len() && session::completes(#[trigger] held[i].kind) {
                let u = t.pop_order(channel);
                assert(session::entry(u.reply_order, channel) =~= order.skip(1));
                let k = lemma_release_takes_from_the_front(u, channel);
                assert(order.skip(1).skip(k) =~= order.skip(k + 1));
                k + 1
            } else {
                0
            }
        },
    }
}

/// A reply that is whole, and the `NUL` that ends a run of answers, end the wait of the message
/// that has waited longest: it is gone from the front of those that wait, and with it at most
/// others right behind it, whose replies were held. An answer, and a message that is no reply,
/// end nothing.
pub proof fn law_the_last_part_of_a_reply_ends_the_wait(
    s: CoreView,
    channel: u32,
    kind: FrameKind,
    ansno: Option<u32>,
    payload: Seq<u8>,
)
    requires
        s.channels.contains_key(channel),
        session::entry(s.reply_order, channel).len() > 0,
    ensures
        ({
            let order = session::entry(s.reply_order, channel);
            let (t, r) = s.send(channel, kind, order[0], ansno, payload);
            let left = session::entry(t.reply_order, channel);
            &&& r is Ok && (kind == FrameKind::Rpy || kind == FrameKind::Error || kind
                == FrameKind::Nul) ==> left_behind_the_first(left, order)
            &&& kind == FrameKind::Ans || kind == FrameKind::Msg ==> t.reply_order == s.reply_order
        }),
{
    let order = session::entry(s.reply_order, channel);
    if kind == FrameKind::Rpy || kind == FrameKind::Error || kind == FrameKind::Nul {
        let m = MessageView { kind, msgno: order[0], ansno, payload };
        let told = s.told(channel, kind, order[0]);
        let (t, r) = told.enqueue(channel, m).flush(channel);
        if r is Ok {
            let u = t.pop_order(channel);
            assert(session::entry(u.reply_order, channel) =~= order.skip(1));
            let k = lemma_release_takes_from_the_front(u, channel);
            assert(order.skip(1).skip(k) =~= order.skip(k + 1));
            assert(left_behind_the_first(
                session::entry(u.release(channel).0.reply_order, channel),
                order,
            ));
        }
    }
}

// ---- the numbering of answers has no part in what is written -----------------------

/// A channel with another numbering of answers.
spec fn renumbered(c: ChannelView, next_ansno: Map<u32, u32>) -> ChannelView {
    ChannelView { next_ansno, ..c }
}

proof fn lemma_fragments_renumbered(
    c: ChannelView,
    x: Map<u32, u32>,
    m: MessageView,
    seqno: u32,
    head: Seq<u8>,
    tail: bool,
    limit: nat,
)
    ensures
        renumbered(c, x).fragments(m.kind, m.msgno, m.ansno, seqno, head, tail, limit)
            == c.fragments(m.kind, m.msgno, m.ansno, seqno, head, tail, limit),
    decreases head.len(),
{
    reveal(ChannelView::fragments);
    if limit > 0 && head.len() > limit {
        lemma_fragments_renumbered(
            c,
            x,
            m,
            crate::window::advanced(seqno, limit as int),
            head.skip(limit as int),
            tail,
            limit,
        );
    }
}

proof fn lemma_emit_renumbered(c: ChannelView, x: Map<u32, u32>, m: MessageView, max: u32)
    ensures
        ({
            let d = renumbered(c, x);
            match c.emit(m.kind, m.msgno, m.ansno, m.payload, max) {
                Err(e) => d.emit(m.kind, m.msgno, m.ansno, m.payload, max) == Err::<
                    (ChannelView, crate::channel::EmittedView),
                    crate::error::Error,
                >(e),
                Ok((after, emitted)) => d.emit(m.kind, m.msgno, m.ansno, m.payload, max) == Ok::<
                    (ChannelView, crate::channel::EmittedView),
                    crate::error::Error,
                >((renumbered(after, x), emitted)),
            }
        }),
{
    reveal(ChannelView::emit);
    let cut: int = if m.payload.len() < c.writable() {
        m.payload.len() as int
    } else {
        c.writable() as int
    };
    lemma_fragments_renumbered(
        c,
        x,
        m,
        c.next_seqno,
        m.payload.take(cut),
        cut < m.payload.len(),
        crate::channel::clamped(max),
    );
}

proof fn lemma_flushed_renumbered(
    c: ChannelView,
    x: Map<u32, u32>,
    queue: Seq<MessageView>,
    max: u32,
)
    ensures
        ({
            let f = session::flushed(c, queue, max);
            session::flushed(renumbered(c, x), queue, max) == (Flushed {
                channel: renumbered(f.channel, x),
                ..f
            })
        }),
    decreases queue.len(),
{
    if !(queue.len() == 0 || (c.writable() == 0 && queue[0].payload.len() > 0)) {
        let m = queue[0];
        lemma_emit_renumbered(c, x, m, max);
        if let Ok((after, emitted)) = c.emit(m.kind, m.msgno, m.ansno, m.payload, max) {
            if emitted.remaining.len() == 0 {
                lemma_flushed_renumbered(after, x, queue.drop_first(), max);
            }
        }
    }
}

// ---- exchanges -------------------------------------------------------------------

/// Whether some messages are a whole answer to a message, in its parts: one `RPY` or one `ERR`, or
/// any number of `ANS` and one `NUL` behind them.
pub open spec fn is_exchange(parts: Seq<MessageView>, msgno: u32) -> bool {
    &&& parts.len() > 0
    &&& forall|j: int|
        0 <= j < parts.len() ==> {
            let m = #[trigger] parts[j];
            &&& m.msgno == msgno
            &&& delivery::sendable(m)
            &&& if j < parts.len() - 1 {
                m.kind == FrameKind::Ans
            } else if parts.len() == 1 {
                m.kind == FrameKind::Rpy || m.kind == FrameKind::Error || m.kind == FrameKind::Nul
            } else {
                m.kind == FrameKind::Nul
            }
        }
}

/// Whether the answers to the messages that wait on a channel, in the order in which these
/// arrived, can be handed over there: no two of the messages have one number, none of them has
/// been answered yet, and what was queued before has gone as far as the peer's window takes it.
pub open spec fn waiting(s: CoreView, channel: u32, exchanges: Seq<Seq<MessageView>>) -> bool {
    let order = session::entry(s.reply_order, channel);
    let queue = session::entry(s.queues, channel);
    &&& channel != GREETING_CHANNEL
    &&& s.channels.contains_key(channel)
    &&& s.channels[channel].number <= MAX_CHANNEL_NO
    &&& order.no_duplicates()
    &&& exchanges.len() == order.len()
    &&& forall|i: int| 0 <= i < exchanges.len() ==> is_exchange(#[trigger] exchanges[i], order[i])
    &&& forall|i: int|
        0 <= i < order.len() ==> !ordering::held(s, channel).contains_key(#[trigger] order[i])
    &&& forall|i: int| 0 <= i < queue.len() ==> delivery::sendable(#[trigger] queue[i])
    &&& queue.len() > 0 ==> s.channels[channel].writable() == 0 && queue[0].payload.len() > 0
}

/// How often a place occurs in a list of places.
pub open spec fn times(turns: Seq<int>, place: int) -> nat
    decreases turns.len(),
{
    if turns.len() == 0 {
        0
    } else {
        times(turns.drop_last(), place) + if turns.last() == place {
            1nat
        } else {
            0nat
        }
    }
}

/// Whether places are turns of some exchanges: each is given no more turns than it has parts.
pub open spec fn are_turns(turns: Seq<int>, exchanges: Seq<Seq<MessageView>>) -> bool {
    &&& forall|k: int| 0 <= k < turns.len() ==> 0 <= #[trigger] turns[k] < exchanges.len()
    &&& forall|i: int|
        0 <= i < exchanges.len() ==> #[trigger] times(turns, i) <= exchanges[i].len()
}

/// The parts that are handed over when exchanges are given turns: at each turn of an exchange, its
/// next part.
pub open spec fn parts_in_turn(exchanges: Seq<Seq<MessageView>>, turns: Seq<int>) -> Seq<
    MessageView,
>
    decreases turns.len(),
{
    if turns.len() == 0 {
        Seq::empty()
    } else {
        let init = turns.drop_last();
        let i = turns.last();
        parts_in_turn(exchanges, init).push(exchanges[i][times(init, i) as int])
    }
}

/// How many exchanges at the front have been handed over whole, counting from one before which
/// all have.
pub open spec fn whole_from(exchanges: Seq<Seq<MessageView>>, turns: Seq<int>, from: nat) -> nat
    decreases exchanges.len() - from,
{
    if from < exchanges.len() && times(turns, from as int) == exchanges[from as int].len() {
        whole_from(exchanges, turns, from + 1)
    } else {
        from
    }
}

/// The parts of the first `front` exchanges, one after the other.
pub open spec fn joined(exchanges: Seq<Seq<MessageView>>, front: nat) -> Seq<MessageView>
    decreases front,
{
    if front == 0 {
        Seq::empty()
    } else {
        joined(exchanges, (front - 1) as nat) + exchanges[front - 1]
    }
}

/// What has been handed over of the exchange behind the first `front`.
pub open spec fn begun(exchanges: Seq<Seq<MessageView>>, turns: Seq<int>, front: nat) -> Seq<
    MessageView,
> {
    if front < exchanges.len() {
        exchanges[front as int].take(times(turns, front as int) as int)
    } else {
        Seq::empty()
    }
}

/// What some messages give, written behind what was queued before.
pub open spec fn written(s: CoreView, channel: u32, parts: Seq<MessageView>) -> Flushed {
    session::flushed(
        s.channels[channel],
        session::entry(s.queues, channel) + parts,
        s.config.max_frame_size,
    )
}

/// Whether a session is another with some messages written on a channel, or queued for the peer's
/// window, and all but the first `front` of those that waited there waiting still.
pub open spec fn has_written(
    s: CoreView,
    t: CoreView,
    channel: u32,
    parts: Seq<MessageView>,
    front: nat,
) -> bool {
    let f = written(s, channel, parts);
    &&& t.config == s.config
    &&& t.channels.contains_key(channel)
    &&& t.channels[channel] == (ChannelView {
        next_ansno: t.channels[channel].next_ansno,
        ..f.channel
    })
    &&& session::entry(t.queues, channel) == f.queue
    &&& t.outbound == s.outbound + session::wires(f.frames)
    &&& session::entry(t.reply_order, channel) == session::entry(s.reply_order, channel).skip(
        front as int,
    )
}

/// Whether a session holds, of every exchange from a place on, exactly what was handed over.
pub open spec fn holds_from(
    s: CoreView,
    t: CoreView,
    channel: u32,
    exchanges: Seq<Seq<MessageView>>,
    turns: Seq<int>,
    from: nat,
) -> bool {
    let order = session::entry(s.reply_order, channel);
    let held = ordering::held(t, channel);
    forall|i: int|
        from <= i < exchanges.len() ==> {
            &&& held.contains_key(#[trigger] order[i]) <==> times(turns, i) > 0
            &&& times(turns, i) > 0 ==> held[order[i]] == exchanges[i].take(
                times(turns, i) as int,
            )
        }
}

/// Whether a session is one on which exchanges have had turns: the first `front` are written, and
/// what has come of the next; of those behind it, what has come is held.
pub open spec fn reached(
    s: CoreView,
    t: CoreView,
    channel: u32,
    exchanges: Seq<Seq<MessageView>>,
    turns: Seq<int>,
    front: nat,
) -> bool {
    let order = session::entry(s.reply_order, channel);
    &&& has_written(
        s,
        t,
        channel,
        joined(exchanges, front) + begun(exchanges, turns, front),
        front,
    )
    &&& holds_from(s, t, channel, exchanges, turns, front + 1)
    &&& front < exchanges.len() ==> !ordering::held(t, channel).contains_key(order[front as int])
}

proof fn lemma_joined_sendable(exchanges: Seq<Seq<MessageView>>, order: Seq<u32>, front: nat)
    requires
        front <= exchanges.len() == order.len(),
        forall|i: int| 0 <= i < exchanges.len() ==> is_exchange(#[trigger] exchanges[i], order[i]),
    ensures
        forall|j: int|
            0 <= j < joined(exchanges, front).len() ==> delivery::sendable(
                #[trigger] joined(exchanges, front)[j],
            ),
    decreases front,
{
    if front > 0 {
        lemma_joined_sendable(exchanges, order, (front - 1) as nat);
        let init = joined(exchanges, (front - 1) as nat);
        let last = exchanges[front - 1];
        assert(is_exchange(last, order[front - 1]));
        assert forall|j: int| 0 <= j < joined(exchanges, front).len() implies delivery::sendable(
            #[trigger] joined(exchanges, front)[j],
        ) by {
            if j < init.len() {
                assert(joined(exchanges, front)[j] == init[j]);
            } else {
                assert(joined(exchanges, front)[j] == last[j - init.len()]);
            }
        }
    }
}

/// Writing some messages, and then more, is writing all of them; it does not fail. How answers
/// are numbered has no part in it.
proof fn lemma_writes_more(
    s: CoreView,
    channel: u32,
    parts: Seq<MessageView>,
    more: Seq<MessageView>,
    x: Map<u32, u32>,
)
    requires
        s.channels.contains_key(channel),
        s.channels[channel].number <= MAX_CHANNEL_NO,
        forall|i: int|
            0 <= i < session::entry(s.queues, channel).len() ==> delivery::sendable(
                #[trigger] session::entry(s.queues, channel)[i],
            ),
        forall|i: int| 0 <= i < parts.len() ==> delivery::sendable(#[trigger] parts[i]),
        forall|i: int| 0 <= i < more.len() ==> delivery::sendable(#[trigger] more[i]),
    ensures
        ({
            let f = written(s, channel, parts);
            let next = session::flushed(
                ChannelView { next_ansno: x, ..f.channel },
                f.queue + more,
                s.config.max_frame_size,
            );
            let g = written(s, channel, parts + more);
            &&& next.result is Ok
            &&& next.channel == (ChannelView { next_ansno: x, ..g.channel })
            &&& next.queue == g.queue
            &&& s.outbound + session::wires(f.frames) + session::wires(next.frames) == s.outbound
                + session::wires(g.frames)
        }),
{
    let c = s.channels[channel];
    let max = s.config.max_frame_size;
    let before = session::entry(s.queues, channel);
    let queue = before + parts;
    let f = session::flushed(c, queue, max);
    let next = session::flushed(f.channel, f.queue + more, max);
    let all = queue + more;
    assert(all =~= before + (parts + more));
    assert forall|i: int| 0 <= i < all.len() implies delivery::sendable(#[trigger] all[i]) by {
        if i < before.len() {
            assert(all[i] == before[i]);
        } else if i < queue.len() {
            assert(all[i] == parts[i - before.len()]);
        } else {
            assert(all[i] == more[i - queue.len()]);
        }
    }
    assert forall|i: int| 0 <= i < queue.len() implies delivery::sendable(
        #[trigger] queue[i],
    ) by {
        assert(queue[i] == all[i]);
    }
    delivery::lemma_flush_stops_when_full(c, queue, max);
    delivery::lemma_flush_stops_when_full(c, all, max);
    session::lemma_flushed_append(c, queue, more, max);
    session::lemma_wires_concat(f.frames, next.frames);
    lemma_flushed_renumbered(f.channel, x, f.queue + more, max);
    assert(s.outbound + session::wires(f.frames) + session::wires(next.frames) =~= s.outbound + (
    session::wires(f.frames) + session::wires(next.frames)));
}

/// Of an exchange, exactly the last part ends it.
proof fn lemma_last_part_completes(parts: Seq<MessageView>, msgno: u32, count: int)
    requires
        is_exchange(parts, msgno),
        0 <= count <= parts.len(),
    ensures
        (exists|i: int|
            0 <= i < parts.take(count).len() && session::completes(
                #[trigger] parts.take(count)[i].kind,
            )) <==> count == parts.len(),
{
    let taken = parts.take(count);
    if count == parts.len() {
        assert(taken[count - 1] == parts[count - 1]);
        assert(session::completes(taken[count - 1].kind));
    } else {
        assert forall|i: int| 0 <= i < taken.len() implies !session::completes(
            #[trigger] taken[i].kind,
        ) by {
            assert(taken[i] == parts[i]);
        }
    }
}

/// Releasing what is held writes every exchange whose turn has come, as far as it has been handed
/// over.
proof fn lemma_released(
    s: CoreView,
    t: CoreView,
    channel: u32,
    exchanges: Seq<Seq<MessageView>>,
    turns: Seq<int>,
    front: nat,
)
    requires
        waiting(s, channel, exchanges),
        are_turns(turns, exchanges),
        front <= exchanges.len(),
        has_written(s, t, channel, joined(exchanges, front), front),
        holds_from(s, t, channel, exchanges, turns, front),
    ensures
        t.release(channel).1 is Ok,
        reached(
            s,
            t.release(channel).0,
            channel,
            exchanges,
            turns,
            whole_from(exchanges, turns, front),
        ),
    decreases exchanges.len() - front,
{
    let order = session::entry(s.reply_order, channel);
    let left = order.skip(front as int);
    let parts = joined(exchanges, front);
    if front < exchanges.len() {
        let i = front as int;
        let count = times(turns, i) as int;
        assert(left[0] == order[i]);
        assert(is_exchange(exchanges[i], order[i]));
        if count > 0 {
            let ready = exchanges[i].take(count);
            assert(t.ready(channel) == Some(ready));
            lemma_last_part_completes(exchanges[i], order[i], count);
            lemma_joined_sendable(exchanges, order, front);
            assert forall|j: int| 0 <= j < ready.len() implies delivery::sendable(
                #[trigger] ready[j],
            ) by {
                assert(ready[j] == exchanges[i][j]);
            }
            lemma_writes_more(s, channel, parts, ready, t.channels[channel].next_ansno);
            let (u, r) = t.release_ready(channel);
            assert(r is Ok);
            assert(has_written(s, u, channel, parts + ready, front));
            assert(ordering::held(u, channel) == ordering::held(t, channel).remove(order[i]));
            if count == exchanges[i].len() {
                assert(ready =~= exchanges[i]);
                let v = u.pop_order(channel);
                assert(left.drop_first() =~= order.skip(front as int + 1));
                assert(joined(exchanges, front + 1) == parts + ready);
                assert(has_written(s, v, channel, joined(exchanges, front + 1), front + 1));
                assert(holds_from(s, v, channel, exchanges, turns, front + 1));
                lemma_released(s, v, channel, exchanges, turns, front + 1);
            } else {
                assert(t.release(channel).0 == u);
                assert(holds_from(s, u, channel, exchanges, turns, front + 1));
            }
        } else {
            assert(t.ready(channel) is None);
            assert(parts + begun(exchanges, turns, front) =~= parts);
        }
    } else {
        assert(t.ready(channel) is None);
        assert(parts + begun(exchanges, turns, front) =~= parts);
    }
}

/// One more turn is one more for its exchange, and none more for any other.
proof fn lemma_times_push(turns: Seq<int>, next: int)
    ensures
        forall|i: int|
            #[trigger] times(turns.push(next), i) == times(turns, i) + if i == next {
                1int
            } else {
                0int
            },
{
    assert(turns.push(next).drop_last() =~= turns);
}

/// The front is where the exchanges handed over whole end.
proof fn lemma_whole_from(
    exchanges: Seq<Seq<MessageView>>,
    turns: Seq<int>,
    from: nat,
    front: nat,
)
    requires
        from <= front <= exchanges.len(),
        forall|i: int| from <= i < front ==> #[trigger] times(turns, i) == exchanges[i].len(),
        front < exchanges.len() ==> times(turns, front as int) != exchanges[front as int].len(),
    ensures
        whole_from(exchanges, turns, from) == front,
    decreases exchanges.len() - from,
{
    if from < front {
        assert(times(turns, from as int) == exchanges[from as int].len());
        lemma_whole_from(exchanges, turns, from + 1, front);
    }
}

/// All exchanges at the front have been handed over whole, and the one behind them has not.
pub proof fn law_the_front_is_handed_over_whole(
    exchanges: Seq<Seq<MessageView>>,
    turns: Seq<int>,
    from: nat,
)
    requires
        from <= exchanges.len(),
    ensures
        ({
            let front = whole_from(exchanges, turns, from);
            &&& from <= front <= exchanges.len()
            &&& forall|i: int|
                from <= i < front ==> #[trigger] times(turns, i) == exchanges[i].len()
            &&& front < exchanges.len() ==> times(turns, front as int)
                != exchanges[front as int].len()
        }),
    decreases exchanges.len() - from,
{
    if from < exchanges.len() && times(turns, from as int) == exchanges[from as int].len() {
        law_the_front_is_handed_over_whole(exchanges, turns, from + 1);
    }
}

/// Giving an exchange one more turn.
proof fn lemma_one_more_turn(
    s: CoreView,
    t: CoreView,
    channel: u32,
    exchanges: Seq<Seq<MessageView>>,
    turns: Seq<int>,
    next: int,
)
    requires
        waiting(s, channel, exchanges),
        are_turns(turns, exchanges),
        are_turns(turns.push(next), exchanges),
        0 <= next < exchanges.len(),
        times(turns, next) < exchanges[next].len(),
        reached(s, t, channel, exchanges, turns, whole_from(exchanges, turns, 0)),
    ensures
        ({
            let m = exchanges[next][times(turns, next) as int];
            let (u, r) = t.send(channel, m.kind, m.msgno, m.ansno, m.payload);
            let after = turns.push(next);
            &&& r is Ok
            &&& reached(s, u, channel, exchanges, after, whole_from(exchanges, after, 0))
        }),
{
    let order = session::entry(s.reply_order, channel);
    let front = whole_from(exchanges, turns, 0);
    let after = turns.push(next);
    let count = times(turns, next) as int;
    let m = exchanges[next][count];
    law_the_front_is_handed_over_whole(exchanges, turns, 0);
    lemma_times_push(turns, next);
    assert(times(turns, next) < exchanges[next].len());
    assert(front <= next);
    assert(is_exchange(exchanges[next], order[next]));
    assert(m.msgno == order[next]);
    assert(delivery::sendable(m));
    assert(order.skip(front as int)[0] == order[front as int]);
    let told = t.told(channel, m.kind, m.msgno);
    let x = told.channels[channel].next_ansno;
    assert(told.channels[channel] == ChannelView { next_ansno: x, ..t.channels[channel] });
    assert(ordering::held(told, channel) == ordering::held(t, channel));
    if next == front {
        let parts = joined(exchanges, front) + begun(exchanges, turns, front);
        let more = seq![m];
        lemma_joined_sendable(exchanges, order, front);
        assert forall|j: int| 0 <= j < parts.len() implies delivery::sendable(
            #[trigger] parts[j],
        ) by {
            let init = joined(exchanges, front);
            if j < init.len() {
                assert(parts[j] == init[j]);
            } else {
                assert(parts[j] == exchanges[next][j - init.len()]);
            }
        }
        lemma_writes_more(s, channel, parts, more, x);
        let f = written(s, channel, parts);
        assert(f.queue.push(m) =~= f.queue + more);
        let (u, r) = told.enqueue(channel, m).flush(channel);
        assert(r is Ok);
        assert(exchanges[next].take(count) + more =~= exchanges[next].take(count + 1));
        assert(parts + more =~= joined(exchanges, front) + exchanges[next].take(count + 1));
        assert(has_written(s, u, channel, parts + more, front));
        assert(ordering::held(u, channel) == ordering::held(t, channel));
        lemma_last_part_completes(exchanges[next], order[next], count + 1);
        if count + 1 == exchanges[next].len() {
            assert(exchanges[next].take(count + 1) =~= exchanges[next]);
            assert(session::completes(m.kind));
            let v = u.pop_order(channel);
            assert(order.skip(front as int).drop_first() =~= order.skip(front as int + 1));
            assert(has_written(s, v, channel, joined(exchanges, front + 1), front + 1));
            assert(holds_from(s, v, channel, exchanges, after, front + 1));
            lemma_released(s, v, channel, exchanges, after, front + 1);
            law_the_front_is_handed_over_whole(exchanges, after, front + 1);
            let reach = whole_from(exchanges, after, front + 1);
            assert forall|i: int| 0 <= i < reach implies #[trigger] times(after, i)
                == exchanges[i].len() by {
                if i < front {
                    assert(times(turns, i) == exchanges[i].len());
                }
            }
            lemma_whole_from(exchanges, after, 0, reach);
        } else {
            assert(!session::completes(m.kind));
            assert forall|i: int| 0 <= i < front implies #[trigger] times(after, i)
                == exchanges[i].len() by {
                assert(times(turns, i) == exchanges[i].len());
            }
            lemma_whole_from(exchanges, after, 0, front);
            assert(holds_from(s, u, channel, exchanges, after, front + 1));
        }
    } else {
        assert(order[front as int] != order[next]);
        let u = told.hold(channel, m);
        let before = session::entry(ordering::held(t, channel), m.msgno);
        assert(before.push(m) =~= exchanges[next].take(count + 1)) by {
            assert(ordering::held(t, channel).contains_key(order[next]) <==> count > 0);
            if count == 0 {
                assert(before =~= exchanges[next].take(0));
            }
        }
        assert(ordering::held(u, channel) == ordering::held(t, channel).insert(
            m.msgno,
            before.push(m),
        ));
        assert forall|i: int| 0 <= i < front implies #[trigger] times(after, i)
            == exchanges[i].len() by {
            assert(times(turns, i) == exchanges[i].len());
        }
        lemma_whole_from(exchanges, after, 0, front);
        assert(holds_from(s, u, channel, exchanges, after, front + 1));
        assert(begun(exchanges, after, front) == begun(exchanges, turns, front));
        assert(has_written(
            s,
            u,
            channel,
            joined(exchanges, front) + begun(exchanges, turns, front),
            front,
        ));
        assert(reached(s, u, channel, exchanges, after, front));
    }
}

/// The answers to messages that wait on a channel, each a whole reply or a run of answers ended by
/// a `NUL`, and their parts handed over in any order among the exchanges, leave in the order in
/// which the messages arrived. No part is refused. At any time what has been written is every
/// exchange at the front that was handed over whole, and what was handed over of the next; all
/// messages before that one wait no longer, and no octet of what was handed over behind it has
/// left: it is held until the exchanges before it are whole.
pub proof fn law_exchanges_leave_in_arrival_order(
    s: CoreView,
    channel: u32,
    exchanges: Seq<Seq<MessageView>>,
    turns: Seq<int>,
)
    requires
        waiting(s, channel, exchanges),
        are_turns(turns, exchanges),
    ensures
        ({
            let (t, r) = ordering::handed(s, channel, parts_in_turn(exchanges, turns));
            let front = whole_from(exchanges, turns, 0);
            &&& r is Ok
            &&& reached(s, t, channel, exchanges, turns, front)
            &&& (forall|i: int|
                0 <= i < exchanges.len() ==> #[trigger] times(turns, i) == exchanges[i].len())
                ==> front == exchanges.len()
        }),
    decreases turns.len(),
{
    law_the_front_is_handed_over_whole(exchanges, turns, 0);
    let order = session::entry(s.reply_order, channel);
    if turns.len() == 0 {
        let queue = session::entry(s.queues, channel);
        let parts = joined(exchanges, 0) + begun(exchanges, turns, 0);
        if exchanges.len() > 0 {
            assert(is_exchange(exchanges[0], order[0]));
        }
        assert(whole_from(exchanges, turns, 0) == 0);
        assert(parts =~= Seq::empty());
        assert(queue + parts =~= queue);
        let f = written(s, channel, parts);
        assert(session::wires(f.frames) =~= Seq::<u8>::empty());
        assert(s.outbound + session::wires(f.frames) =~= s.outbound);
        assert(order.skip(0) =~= order);
    } else {
        let init = turns.drop_last();
        let next = turns.last();
        assert(init.push(next) =~= turns);
        lemma_times_push(init, next);
        assert forall|i: int| 0 <= i < exchanges.len() implies #[trigger] times(init, i)
            <= exchanges[i].len() by {
            assert(times(turns, i) <= exchanges[i].len());
        }
        assert forall|k: int| 0 <= k < init.len() implies 0 <= #[trigger] init[k]
            < exchanges.len() by {
            assert(init[k] == turns[k]);
        }
        assert(turns[turns.len() - 1] == next);
        assert(times(turns, next) <= exchanges[next].len());
        law_exchanges_leave_in_arrival_order(s, channel, exchanges, init);
        let t = ordering::handed(s, channel, parts_in_turn(exchanges, init)).0;
        lemma_one_more_turn(s, t, channel, exchanges, init, next);
        let all = parts_in_turn(exchanges, turns);
        assert(all.drop_last() =~= parts_in_turn(exchanges, init));
        assert(all.last() == exchanges[next][times(init, next) as int]);
    }
}

/// The answers to messages, handed over in any order among the exchanges, are received in the
/// order in which the messages arrived, each exchange in one run and each part with its own
/// payload: where the peer's window has room for all of them, the octets that handing them over
/// adds to those to be written make the session at the other end report exactly these parts. No
/// message waits any longer.
pub proof fn law_exchanges_are_received_in_arrival_order(
    s: CoreView,
    channel: u32,
    exchanges: Seq<Seq<MessageView>>,
    turns: Seq<int>,
    receiver: SessionView,
)
    requires
        waiting(s, channel, exchanges),
        are_turns(turns, exchanges),
        forall|i: int|
            0 <= i < exchanges.len() ==> #[trigger] times(turns, i) == exchanges[i].len(),
        session::entry(s.queues, channel).len() == 0,
        session::queued_octets(joined(exchanges, exchanges.len())).len()
            <= s.channels[channel].writable(),
        delivery::between_frames(receiver),
        delivery::in_step(s.channels[channel], receiver.core, channel),
        receiver.core.channels[channel].partial is None,
    ensures
        ({
            let (t, r) = ordering::handed(s, channel, parts_in_turn(exchanges, turns));
            let octets = t.outbound.skip(s.outbound.len() as int);
            &&& r is Ok
            &&& session::entry(t.reply_order, channel).len() == 0
            &&& t.outbound == s.outbound + octets
            &&& receiver.handle_input(octets) matches Ok(taken)
            &&& taken.core.events == receiver.core.events + delivery::reports(
                channel,
                joined(exchanges, exchanges.len()),
            )
        }),
{
    let c = s.channels[channel];
    let max = s.config.max_frame_size;
    let order = session::entry(s.reply_order, channel);
    let all = joined(exchanges, exchanges.len());
    let f = session::flushed(c, all, max);
    law_exchanges_leave_in_arrival_order(s, channel, exchanges, turns);
    assert(all + begun(exchanges, turns, exchanges.len()) =~= all);
    assert(session::entry(s.queues, channel) + all =~= all);
    lemma_joined_sendable(exchanges, order, exchanges.len());
    delivery::law_written_octets_arrive(c, all, max, receiver);
    delivery::law_queued_messages_arrive(c, all, max, receiver.core);
    assert(f.queue.len() == 0) by {
        session::lemma_flushed_twice(c, all, max);
        session::law_pacing_keeps_every_octet_in_order(c, all, max);
    }
    assert((s.outbound + session::wires(f.frames)).skip(s.outbound.len() as int)
        =~= session::wires(f.frames));
    assert(all.take(all.len() as int) =~= all);
}

} // verus!
