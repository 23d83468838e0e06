//! What holds of replies that are produced out of order: they leave in the order in which the
//! messages arrived, whatever the order in which they are handed over.

use crate::channel::MessageView;
use crate::frame::{DataView, FrameKind, FrameView, MAX_CHANNEL_NO};
use crate::greeting::GREETING_CHANNEL;
use crate::session;
use crate::session::delivery;
use crate::session::{CoreView, EventView, SessionView, Step};
use vstd::prelude::*;

verus! {

/// The numbers of the messages that some events report as asked on a channel, in order.
pub open spec fn asked(channel: u32, events: Seq<EventView>) -> Seq<u32>
    decreases events.len(),
{
    if events.len() == 0 {
        Seq::empty()
    } else {
        let before = asked(channel, events.drop_last());
        match events.last() {
            EventView::MessageReceived { channel: c, message } => if c == channel && message.kind
                == FrameKind::Msg {
                before.push(message.msgno)
            } else {
                before
            },
            _ => before,
        }
    }
}

/// The messages that a session takes on a channel wait for their replies in the order in which
/// they are reported, behind those that waited before; nothing is answered, held or queued by
/// taking them.
pub proof fn law_messages_wait_in_arrival_order(
    s: CoreView,
    channel: u32,
    frames: Seq<DataView>,
)
    requires
        channel != GREETING_CHANNEL,
        forall|i: int| 0 <= i < frames.len() ==> (#[trigger] frames[i]).channel == channel,
        session::handle_frames(s, delivery::data(frames)) is Ok,
    ensures
        ({
            let t = session::handle_frames(s, delivery::data(frames))->Ok_0;
            let new = t.events.skip(s.events.len() as int);
            &&& t.events == s.events + new
            &&& session::entry(t.reply_order, channel) == session::entry(s.reply_order, channel)
                + asked(channel, new)
            &&& t.held_replies == s.held_replies
            &&& t.queues == s.queues
        }),
    decreases frames.len(),
{
    let all = delivery::data(frames);
    if frames.len() == 0 {
        assert(s.events.skip(s.events.len() as int) =~= Seq::empty());
        assert(s.events + Seq::<EventView>::empty() =~= s.events);
    } else {
        let f = frames[0];
        let rest = frames.drop_first();
        assert(all[0] == FrameView::Data(f));
        assert(all.drop_first() =~= delivery::data(rest));
        assert forall|i: int| 0 <= i < rest.len() implies (#[trigger] rest[i]).channel
            == channel by {
            assert(rest[i] == frames[i + 1]);
        }
        let u = s.handle_frame(FrameView::Data(f)).0;
        law_messages_wait_in_arrival_order(u, channel, rest);
        let t = session::handle_frames(s, all)->Ok_0;
        let first = u.events.skip(s.events.len() as int);
        let later = t.events.skip(u.events.len() as int);
        let new = t.events.skip(s.events.len() as int);
        lemma_one_frame(s, channel, f);
        assert(new =~= first + later);
        lemma_asked_concat(channel, first, later);
        let before = session::entry(s.reply_order, channel);
        assert(before + asked(channel, first) + asked(channel, later) =~= before + (asked(
            channel,
            first,
        ) + asked(channel, later)));
    }
}

/// A frame that is taken adds its message, if it completes one that asks, to those that wait.
proof fn lemma_one_frame(s: CoreView, channel: u32, f: DataView)
    requires
        channel != GREETING_CHANNEL,
        f.channel == channel,
        s.handle_frame(FrameView::Data(f)).1 is Ok,
    ensures
        ({
            let t = s.handle_frame(FrameView::Data(f)).0;
            let new = t.events.skip(s.events.len() as int);
            &&& t.events == s.events + new
            &&& session::entry(t.reply_order, channel) == session::entry(s.reply_order, channel)
                + asked(channel, new)
            &&& t.held_replies == s.held_replies
            &&& t.queues == s.queues
        }),
{
    reveal_with_fuel(asked, 2);
    let t = s.handle_frame(FrameView::Data(f)).0;
    let new = t.events.skip(s.events.len() as int);
    let before = session::entry(s.reply_order, channel);
    match s.channels[channel].accept(f).1 {
        Ok(Some(message)) => {
            assert(new =~= seq![EventView::MessageReceived { channel, message }]);
            assert(new.drop_last() =~= Seq::empty());
            assert(session::entry(t.reply_order, channel) =~= before + asked(channel, new));
        },
        _ => {
            assert(new =~= Seq::empty());
            assert(before + asked(channel, new) =~= before);
        },
    }
}

/// What two runs of events report as asked is what the first does and then what the second does.
proof fn lemma_asked_concat(channel: u32, a: Seq<EventView>, b: Seq<EventView>)
    ensures
        asked(channel, a + b) == asked(channel, a) + asked(channel, b),
    decreases b.len(),
{
    if b.len() == 0 {
        assert(a + b =~= a);
        assert(asked(channel, a) + asked(channel, b) =~= asked(channel, a));
    } else {
        lemma_asked_concat(channel, a, b.drop_last());
        assert((a + b).drop_last() =~= a + b.drop_last());
        assert((a + b).last() == b.last());
        assert(asked(channel, a + b) =~= asked(channel, a) + asked(channel, b));
    }
}

/// Hands over some replies on a channel, one after the other, as long as none is refused.
pub open spec fn handed(s: CoreView, channel: u32, replies: Seq<MessageView>) -> Step
    decreases replies.len(),
{
    if replies.len() == 0 {
        (s, Ok(()))
    } else {
        match handed(s, channel, replies.drop_last()) {
            (t, Err(e)) => (t, Err(e)),
            (t, Ok(_)) => {
                let m = replies.last();
                t.send(channel, m.kind, m.msgno, m.ansno, m.payload)
            },
        }
    }
}

/// Some replies out of a list, picked by their places in it.
pub open spec fn picked(replies: Seq<MessageView>, turns: Seq<int>) -> Seq<MessageView> {
    turns.map_values(|i: int| replies[i])
}

/// How many replies at the front of a list of `count` have been handed over, counting from one of
/// which all before it have: none of them waits for another.
pub open spec fn served_from(turns: Seq<int>, from: nat, count: nat) -> nat
    decreases count - from,
{
    if from < count && turns.contains(from as int) {
        served_from(turns, from + 1, count)
    } else {
        from
    }
}

/// How many replies at the front of a list of `count` have been handed over.
pub open spec fn served(turns: Seq<int>, count: nat) -> nat {
    served_from(turns, 0, count)
}

/// The number of replies at the front is the one with all before it handed over, and itself not.
proof fn lemma_served(turns: Seq<int>, from: nat, count: nat, front: nat)
    requires
        from <= front <= count,
        forall|i: int| from <= i < front ==> #[trigger] turns.contains(i),
        front < count ==> !turns.contains(front as int),
    ensures
        served_from(turns, from, count) == front,
    decreases count - from,
{
    if from < front {
        assert(turns.contains(from as int));
        lemma_served(turns, from + 1, count, front);
    }
}

/// All the replies at the front have been handed over, and the one behind them has not.
pub proof fn law_served_is_the_longest_front(turns: Seq<int>, from: nat, count: nat)
    requires
        from <= count,
    ensures
        from <= served_from(turns, from, count) <= count,
        forall|i: int|
            from <= i < served_from(turns, from, count) ==> #[trigger] turns.contains(i),
        served_from(turns, from, count) < count ==> !turns.contains(
            served_from(turns, from, count) as int,
        ),
    decreases count - from,
{
    if from < count && turns.contains(from as int) {
        law_served_is_the_longest_front(turns, from + 1, count);
    }
}

/// Whether replies answer the messages that wait on a channel, in the order in which these
/// arrived, each whole and by itself, and can be put into frames.
pub open spec fn answer_all(replies: Seq<MessageView>, order: Seq<u32>) -> bool {
    &&& replies.len() == order.len()
    &&& forall|i: int|
        0 <= i < replies.len() ==> {
            let m = #[trigger] replies[i];
            &&& m.msgno == order[i]
            &&& m.kind == FrameKind::Rpy || m.kind == FrameKind::Error
            &&& delivery::sendable(m)
        }
}

/// Whether replies can be handed over on a channel: the messages they answer are those that wait
/// there, no two with one number, none of them has been answered yet, and what was queued before
/// has gone as far as the peer's window takes it.
pub open spec fn waiting(s: CoreView, channel: u32, replies: Seq<MessageView>) -> bool {
    let order = session::entry(s.reply_order, channel);
    let queue = session::entry(s.queues, channel);
    &&& channel != GREETING_CHANNEL
    &&& s.channels.contains_key(channel)
    &&& s.channels[channel].number <= MAX_CHANNEL_NO
    &&& order.no_duplicates()
    &&& answer_all(replies, order)
    &&& forall|i: int| 0 <= i < order.len() ==> !held(s, channel).contains_key(#[trigger] order[i])
    &&& forall|i: int| 0 <= i < queue.len() ==> delivery::sendable(#[trigger] queue[i])
    &&& queue.len() > 0 ==> s.channels[channel].writable() == 0 && queue[0].payload.len() > 0
}

/// The replies held on a channel, by the message that they answer.
pub open spec fn held(s: CoreView, channel: u32) -> Map<u32, Seq<MessageView>> {
    if s.held_replies.contains_key(channel) {
        s.held_replies[channel]
    } else {
        Map::empty()
    }
}

/// What the first `front` replies give, written behind what was queued before.
pub open spec fn written(
    s: CoreView,
    channel: u32,
    replies: Seq<MessageView>,
    front: nat,
) -> session::Flushed {
    session::flushed(
        s.channels[channel],
        session::entry(s.queues, channel) + replies.take(front as int),
        s.config.max_frame_size,
    )
}

/// Whether a session is one on which some replies have been handed over and the first `front`
/// have left, or are queued for the peer's window, while the others that were handed over are
/// held.
pub open spec fn reached(
    s: CoreView,
    t: CoreView,
    channel: u32,
    replies: Seq<MessageView>,
    turns: Seq<int>,
    front: nat,
) -> bool {
    let f = written(s, channel, replies, front);
    let order = session::entry(s.reply_order, channel);
    &&& t.config == s.config
    &&& t.channels.contains_key(channel)
    &&& t.channels[channel] == f.channel
    &&& session::entry(t.queues, channel) == f.queue
    &&& t.outbound == s.outbound + session::wires(f.frames)
    &&& session::entry(t.reply_order, channel) == order.skip(front as int)
    &&& forall|i: int|
        front <= i < replies.len() ==> (held(t, channel).contains_key(#[trigger] order[i])
            <==> turns.contains(i))
    &&& forall|i: int|
        front <= i < replies.len() && turns.contains(i) ==> held(t, channel)[#[trigger] order[i]]
            == seq![replies[i]]
}

/// Writing the first replies, and then the next, is writing one more of them; it does not fail.
proof fn lemma_one_more(s: CoreView, channel: u32, replies: Seq<MessageView>, front: nat)
    requires
        waiting(s, channel, replies),
        front < replies.len(),
    ensures
        ({
            let f = written(s, channel, replies, front);
            let next = session::flushed(
                f.channel,
                f.queue.push(replies[front as int]),
                s.config.max_frame_size,
            );
            let g = written(s, channel, replies, front + 1);
            &&& next.result is Ok
            &&& g.channel == next.channel
            &&& g.queue == next.queue
            &&& s.outbound + session::wires(f.frames) + session::wires(next.frames) == s.outbound
                + session::wires(g.frames)
        }),
{
    let c = s.channels[channel];
    let max = s.config.max_frame_size;
    let before = session::entry(s.queues, channel);
    let queue = before + replies.take(front as int);
    let more = seq![replies[front as int]];
    let f = session::flushed(c, queue, max);
    let next = session::flushed(f.channel, f.queue + more, max);
    assert(queue + more =~= before + replies.take(front as int + 1));
    assert(f.queue + more =~= f.queue.push(replies[front as int]));
    let all = queue + more;
    assert forall|i: int| 0 <= i < all.len() implies delivery::sendable(#[trigger] all[i]) by {
        if i < before.len() {
            assert(all[i] == before[i]);
        } else {
            assert(all[i] == replies[i - before.len()]);
        }
    }
    assert forall|i: int| 0 <= i < queue.len() implies delivery::sendable(
        #[trigger] queue[i],
    ) by {
        assert(queue[i] == all[i]);
    }
    delivery::lemma_flush_stops_when_full(c, queue, max);
    delivery::lemma_flush_stops_when_full(c, all, max);
    session::lemma_flushed_append(c, queue, more, max);
    session::lemma_wires_concat(f.frames, next.frames);
    assert(s.outbound + session::wires(f.frames) + session::wires(next.frames) =~= s.outbound + (
    session::wires(f.frames) + session::wires(next.frames)));
}

/// Releasing what is held lets go every reply whose turn has come.
proof fn lemma_released(
    s: CoreView,
    t: CoreView,
    channel: u32,
    replies: Seq<MessageView>,
    turns: Seq<int>,
    front: nat,
)
    requires
        waiting(s, channel, replies),
        front <= replies.len(),
        reached(s, t, channel, replies, turns, front),
    ensures
        t.release(channel).1 is Ok,
        reached(
            s,
            t.release(channel).0,
            channel,
            replies,
            turns,
            served_from(turns, front, replies.len()),
        ),
    decreases replies.len() - front,
{
    let order = session::entry(s.reply_order, channel);
    let left = order.skip(front as int);
    if front < replies.len() {
        assert(left[0] == order[front as int]);
        if turns.contains(front as int) {
            let m = replies[front as int];
            let ready = held(t, channel)[order[front as int]];
            assert(ready == seq![m]);
            assert(t.ready(channel) == Some(ready));
            assert(session::completes(ready[0].kind));
            let (u, r) = t.release_ready(channel);
            let f = written(s, channel, replies, front);
            assert(f.queue + ready =~= f.queue.push(m));
            lemma_one_more(s, channel, replies, front);
            assert(r is Ok);
            let v = u.pop_order(channel);
            assert(left.drop_first() =~= order.skip(front as int + 1));
            assert(held(v, channel) == held(t, channel).remove(order[front as int]));
            assert(reached(s, v, channel, replies, turns, front + 1));
            lemma_released(s, v, channel, replies, turns, front + 1);
        } else {
            assert(t.ready(channel) is None);
        }
    } else {
        assert(t.ready(channel) is None);
    }
}

/// Handing over one more reply.
proof fn lemma_handed_one(
    s: CoreView,
    t: CoreView,
    channel: u32,
    replies: Seq<MessageView>,
    turns: Seq<int>,
    next: int,
)
    requires
        waiting(s, channel, replies),
        0 <= next < replies.len(),
        !turns.contains(next),
        reached(s, t, channel, replies, turns, served(turns, replies.len())),
    ensures
        ({
            let m = replies[next];
            let (u, r) = t.send(channel, m.kind, m.msgno, m.ansno, m.payload);
            let after = turns.push(next);
            &&& r is Ok
            &&& reached(s, u, channel, replies, after, served(after, replies.len()))
        }),
{
    let m = replies[next];
    let order = session::entry(s.reply_order, channel);
    let front = served(turns, replies.len());
    let after = turns.push(next);
    law_served_is_the_longest_front(turns, 0, replies.len());
    assert(front <= next);
    assert(order.skip(front as int)[0] == order[front as int]);
    assert forall|i: int| after.contains(i) <==> turns.contains(i) || i == next by {
        if turns.contains(i) {
            let k = turns.index_of(i);
            assert(after[k] == i);
        }
        if i == next {
            assert(after[turns.len() as int] == i);
        }
        if after.contains(i) {
            let k = after.index_of(i);
            if k < turns.len() {
                assert(turns[k] == i);
            }
        }
    }
    assert(m.msgno == order[next]);
    if next == front {
        let w = t.enqueue(channel, m);
        let (x, flush) = w.flush(channel);
        lemma_one_more(s, channel, replies, front);
        assert(flush is Ok);
        let v = x.pop_order(channel);
        assert(order.skip(front as int).drop_first() =~= order.skip(front as int + 1));
        assert(held(v, channel) == held(t, channel));
        assert(reached(s, v, channel, replies, after, front + 1));
        lemma_released(s, v, channel, replies, after, front + 1);
        law_served_is_the_longest_front(after, front + 1, replies.len());
        let reach = served_from(after, front + 1, replies.len());
        assert forall|i: int| 0 <= i < reach implies #[trigger] after.contains(i) by {
            if i < front {
                assert(turns.contains(i));
            }
        }
        lemma_served(after, 0, replies.len(), reach);
    } else {
        assert(order[front as int] != order[next]);
        let u = t.hold(channel, m);
        assert(!held(t, channel).contains_key(order[next]));
        assert(held(u, channel) =~= held(t, channel).insert(m.msgno, seq![m])) by {
            assert(session::entry(held(t, channel), m.msgno).push(m) =~= seq![m]);
        }
        lemma_served(after, 0, replies.len(), front);
        assert forall|i: int| front <= i < replies.len() && i != next implies #[trigger] order[i]
            != order[next] by {}
        assert(reached(s, u, channel, replies, after, front));
    }
}

/// Replies to messages that wait on a channel, handed over in any order, leave in the order in
/// which the messages arrived. None is refused. After some of them have been handed over, the
/// octets written are those of the replies at the front, up to the first message whose reply is
/// still to come, and no octet of a reply behind that one has left: it is held until all before
/// it have been handed over.
pub proof fn law_replies_in_any_order_leave_in_arrival_order(
    s: CoreView,
    channel: u32,
    replies: Seq<MessageView>,
    turns: Seq<int>,
)
    requires
        waiting(s, channel, replies),
        turns.no_duplicates(),
        forall|k: int| 0 <= k < turns.len() ==> 0 <= #[trigger] turns[k] < replies.len(),
    ensures
        ({
            let (t, r) = handed(s, channel, picked(replies, turns));
            let front = served(turns, replies.len());
            &&& r is Ok
            &&& front <= replies.len()
            &&& reached(s, t, channel, replies, turns, front)
            &&& turns.len() == replies.len() ==> front == replies.len()
        }),
    decreases turns.len(),
{
    let count = replies.len();
    law_served_is_the_longest_front(turns, 0, count);
    if turns.len() == 0 {
        let f = written(s, channel, replies, 0);
        let queue = session::entry(s.queues, channel);
        assert(queue + replies.take(0) =~= queue);
        assert(session::wires(f.frames) =~= Seq::<u8>::empty());
        assert(s.outbound + session::wires(f.frames) =~= s.outbound);
        let order = session::entry(s.reply_order, channel);
        assert(order.skip(0) =~= order);
        assert(served(turns, count) == 0);
    } else {
        let init = turns.drop_last();
        let next = turns.last();
        assert forall|k: int| 0 <= k < init.len() implies 0 <= #[trigger] init[k] < count by {
            assert(init[k] == turns[k]);
        }
        law_replies_in_any_order_leave_in_arrival_order(s, channel, replies, init);
        assert(init.push(next) =~= turns);
        let all = picked(replies, turns);
        assert(all.drop_last() =~= picked(replies, init));
        assert(all.last() == replies[next]);
        assert(!init.contains(next)) by {
            if init.contains(next) {
                let k = init.index_of(next);
                assert(turns[k] == turns[turns.len() - 1]);
            }
        }
        let t = handed(s, channel, all.drop_last()).0;
        lemma_handed_one(s, t, channel, replies, init, next);
        if turns.len() == count && served(turns, count) < count {
            lemma_all_places(turns, served(turns, count) as int);
        }
    }
}

/// As many different places as there are, are all of them.
proof fn lemma_all_places(turns: Seq<int>, missing: int)
    requires
        turns.no_duplicates(),
        forall|k: int| 0 <= k < turns.len() ==> 0 <= #[trigger] turns[k] < turns.len(),
        0 <= missing < turns.len(),
    ensures
        turns.contains(missing),
{
    let count = turns.len() as int;
    let places = vstd::set_lib::set_int_range(0, count);
    vstd::set_lib::lemma_int_range(0, count);
    turns.unique_seq_to_set();
    assert(turns.to_set().subset_of(places));
    vstd::set_lib::lemma_subset_equality(turns.to_set(), places);
    assert(turns.to_set().contains(missing));
}

/// Replies handed over in any order are received in the order in which the messages arrived, each
/// with its own payload: where the peer's window has room for all of them, the octets that
/// handing them over adds to those to be written make the session at the other end report exactly
/// these replies, first to last.
pub proof fn law_replies_in_any_order_are_received_in_arrival_order(
    s: CoreView,
    channel: u32,
    replies: Seq<MessageView>,
    turns: Seq<int>,
    receiver: SessionView,
)
    requires
        waiting(s, channel, replies),
        session::entry(s.queues, channel).len() == 0,
        session::queued_octets(replies).len() <= s.channels[channel].writable(),
        turns.no_duplicates(),
        turns.len() == replies.len(),
        forall|k: int| 0 <= k < turns.len() ==> 0 <= #[trigger] turns[k] < replies.len(),
        delivery::between_frames(receiver),
        delivery::in_step(s.channels[channel], receiver.core, channel),
        receiver.core.channels[channel].partial is None,
    ensures
        ({
            let (t, r) = handed(s, channel, picked(replies, turns));
            let octets = t.outbound.skip(s.outbound.len() as int);
            &&& r is Ok
            &&& t.outbound == s.outbound + octets
            &&& receiver.handle_input(octets) matches Ok(taken)
            &&& taken.core.events == receiver.core.events + delivery::reports(channel, replies)
            &&& delivery::between_frames(taken)
            &&& delivery::in_step(t.channels[channel], taken.core, channel)
        }),
{
    let c = s.channels[channel];
    let max = s.config.max_frame_size;
    let f = session::flushed(c, replies, max);
    law_replies_in_any_order_leave_in_arrival_order(s, channel, replies, turns);
    assert(session::entry(s.queues, channel) + replies.take(replies.len() as int) =~= replies);
    assert forall|i: int| 0 <= i < replies.len() implies delivery::sendable(
        #[trigger] replies[i],
    ) by {}
    delivery::law_written_octets_arrive(c, replies, max, receiver);
    delivery::law_queued_messages_arrive(c, replies, max, receiver.core);
    assert(f.queue.len() == 0) by {
        session::lemma_flushed_twice(c, replies, max);
        session::law_pacing_keeps_every_octet_in_order(c, replies, max);
    }
    assert((s.outbound + session::wires(f.frames)).skip(s.outbound.len() as int)
        =~= session::wires(f.frames));
    assert(replies.take(replies.len() as int) =~= replies);
}

} // verus!
